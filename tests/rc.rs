use rkyv_core::rc::{ArchivedRc, ArchivedRcWeak, RcWeakResolver, SharedSerializer};

#[test]
fn weak_none_round_trip() {
    let mut ser: SharedSerializer<String> = SharedSerializer::new();
    let res = ArchivedRcWeak::serialize_from_ref(None, &mut ser);
    assert!(matches!(res, RcWeakResolver::Absent));
    assert_eq!(ser.len(), 0);
    let node = ArchivedRcWeak::resolve_from_ref(40, res);
    assert!(node.upgrade().is_none());
}

#[test]
fn weak_some_round_trip() {
    let mut ser = SharedSerializer::new();
    let res = ArchivedRcWeak::serialize_from_ref(Some((0x1000, String::from("hello"))), &mut ser);
    let node = ArchivedRcWeak::resolve_from_ref(64, res);
    let rc = node.upgrade().unwrap();
    assert_eq!(rc.get(65, &ser), "hello");
}

#[test]
fn shared_identity_is_written_once() {
    let mut ser = SharedSerializer::new();
    let first = ArchivedRc::serialize_from_ref(7, vec![1u8, 2, 3], &mut ser);
    let second = ArchivedRc::serialize_from_ref(7, vec![1u8, 2, 3], &mut ser);
    assert_eq!(ser.len(), 1);
    assert_eq!(ser.position_of(7), Some(0));
    let a = ArchivedRc::resolve_from_ref(10, first);
    let b = ArchivedRc::resolve_from_ref(20, second);
    assert_eq!(a.get(10, &ser), &vec![1u8, 2, 3]);
    assert!(std::ptr::eq(a.get(10, &ser), b.get(20, &ser)));
}

#[test]
fn distinct_identities_with_equal_content() {
    let mut ser = SharedSerializer::new();
    let first = ArchivedRc::serialize_from_ref(1, 5u32, &mut ser);
    let second = ArchivedRc::serialize_from_ref(2, 5u32, &mut ser);
    assert_eq!(ser.len(), 2);
    assert_eq!(ser.position_of(1), Some(0));
    assert_eq!(ser.position_of(2), Some(1));
    assert_eq!(ser.position_of(3), None);
    let a = ArchivedRc::resolve_from_ref(0, first);
    let b = ArchivedRc::resolve_from_ref(0, second);
    assert!(!std::ptr::eq(a.get(0, &ser), b.get(0, &ser)));
    assert_eq!(*ser.value_at(1), 5);
}

#[test]
fn mutation_is_seen_through_every_alias() {
    let mut ser = SharedSerializer::new();
    let r1 = ArchivedRc::serialize_from_ref(9, 1u64, &mut ser);
    let r2 = ArchivedRc::serialize_from_ref(9, 2u64, &mut ser);
    let a = ArchivedRc::resolve_from_ref(3, r1);
    let b = ArchivedRc::resolve_from_ref(8, r2);
    *a.get_pin_mut_unchecked(3, &mut ser) = 50;
    assert_eq!(*b.get(8, &ser), 50);
}

#[test]
fn weak_upgrade_pin_mut() {
    let mut ser = SharedSerializer::new();
    ser.serialize_shared(1, 10u64);
    let res = ArchivedRcWeak::serialize_from_ref(Some((2, 20u64)), &mut ser);
    let mut node = ArchivedRcWeak::resolve_from_ref(100, res);
    let rc = node.upgrade_pin_mut().unwrap();
    assert_eq!(*rc.get(101, &ser), 20);
    let mut absent = ArchivedRcWeak::resolve_from_ref(5, RcWeakResolver::Absent);
    assert!(absent.upgrade_pin_mut().is_none());
}

#[test]
fn upgrade_pin_mut_keeps_the_tag() {
    let mut ser = SharedSerializer::new();
    let res = ArchivedRcWeak::serialize_from_ref(Some((4, 8u64)), &mut ser);
    let mut node = ArchivedRcWeak::resolve_from_ref(0, res);
    assert!(node.upgrade_pin_mut().is_some());
    assert!(node.upgrade().is_some());
    let mut absent = ArchivedRcWeak::resolve_from_ref(0, RcWeakResolver::Absent);
    assert!(absent.upgrade_pin_mut().is_none());
    assert!(absent.upgrade().is_none());
}
