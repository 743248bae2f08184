//! Minimal perfect hash index built by compress, hash and displace.
//!
//! Keys are first spread over `len` buckets. Each bucket then gets one
//! displacement word: a bucket of one key stores the key's slot directly,
//! a larger bucket stores a seed (high bit set) under which every key of the
//! bucket hashes to a distinct free slot. The index stores no keys.

use vstd::prelude::*;
use crate::hash::{bytes_eq, hash_seeded, sea_hash_seeded};
use vstd::relations::injective_on;
use vstd::set_lib::{lemma_int_range, lemma_len_subset, lemma_map_size, lemma_set_disjoint_lens, lemma_subset_equality, set_int_range};

verus! {

/// Seeds shared by every index, so that archives are reproducible.
pub const SEED_A: u64 = 0x0857_6fb6_170b_5f5f;
pub const SEED_B: u64 = 0x5877_75ee_b84a_7e46;
pub const SEED_C: u64 = 0xac70_1115_428e_e569;
pub const SEED_D: u64 = 0x910f_eb91_b92b_b1cd;

/// Displacement word of a bucket that holds no key.
pub const EMPTY_BUCKET: u32 = 0xffff_ffff;

/// Displacement words with this bit set are seeds; below it they are slots.
pub const SEEDED: u32 = 0x8000_0000;

/// Marks an absent slot or item in the working tables of the builder.
const NIL: usize = usize::MAX;

/// First-level hash of a key: chooses its bucket.
pub open spec fn bucket_hash(key: Seq<u8>) -> u64 {
    sea_hash_seeded(key, SEED_A, SEED_B, SEED_C, SEED_D)
}

/// Second-level hash of a key under the seed of its bucket.
pub open spec fn displaced_hash(key: Seq<u8>, seed: u32) -> u64 {
    sea_hash_seeded(key, SEED_A, SEED_B, SEED_C, seed as u64)
}

/// The bucket of `key` in a table of `len > 0` slots.
pub open spec fn bucket_of(key: Seq<u8>, len: nat) -> int {
    (bucket_hash(key) % (len as u64)) as int
}

/// The candidate slot that a displacement word gives to `key`.
pub open spec fn slot_for(key: Seq<u8>, d: u32, len: nat) -> Option<int> {
    if d == EMPTY_BUCKET {
        None
    } else if d < SEEDED {
        Some(d as int)
    } else {
        Some((displaced_hash(key, d) % (len as u64)) as int)
    }
}

/// Errors of index construction.
#[derive(Debug, Clone, Copy, PartialEq, Eq, Structural)]
pub enum BuildError {
    /// Two of the keys are equal.
    DuplicateKey,
    /// No displacement placed some bucket without collision.
    NoDisplacement,
}

/// The archived perfect hash index: one displacement word per bucket, and
/// as many buckets as slots.
pub struct ArchivedHashIndex {
    displace: Vec<u32>,
}

impl ArchivedHashIndex {
    /// The displacement words.
    pub closed spec fn words(&self) -> Seq<u32> {
        self.displace@
    }

    /// The number of slots.
    pub open spec fn len_spec(&self) -> nat {
        self.words().len()
    }

    /// The candidate slot of `key`: a slot the index answers with, not a
    /// certificate that `key` was among the keys it was built from.
    pub open spec fn index_spec(&self, key: Seq<u8>) -> Option<int> {
        let n = self.len_spec();
        if n == 0 || n > u64::MAX {
            None
        } else {
            slot_for(key, self.words()[bucket_of(key, n)], n)
        }
    }

    /// The index places `keys[j]` in slot `slot[j]`, and slot `s` holds
    /// `keys[owner[s]]`: the two tables are inverse bijections on `[0, len)`.
    pub open spec fn places(&self, keys: Seq<Seq<u8>>, owner: Seq<usize>, slot: Seq<usize>) -> bool {
        let n = keys.len();
        &&& self.len_spec() == n
        &&& owner.len() == n
        &&& slot.len() == n
        &&& forall|j: int| 0 <= j < n ==> (#[trigger] slot[j]) < n && owner[slot[j] as int] == j
        &&& forall|s: int| 0 <= s < n ==> (#[trigger] owner[s]) < n && slot[owner[s] as int] == s
        &&& forall|j: int| 0 <= j < n ==> self.index_spec(#[trigger] keys[j]) == Some(slot[j] as int)
    }

    /// An index of no slots.
    pub fn empty() -> (r: Self)
        ensures
            r.len_spec() == 0,
    {
        ArchivedHashIndex { displace: Vec::new() }
    }

    /// The number of slots.
    pub fn len(&self) -> (r: usize)
        ensures
            r == self.len_spec(),
    {
        self.displace.len()
    }

    /// Whether the index has no slots.
    pub fn is_empty(&self) -> (r: bool)
        ensures
            r == (self.len_spec() == 0),
    {
        self.displace.len() == 0
    }

    /// The candidate slot of `key`, or `None` when its bucket is empty.
    pub fn index(&self, key: &[u8]) -> (r: Option<usize>)
        ensures
            r matches Some(s) ==> self.index_spec(key@) == Some(s as int),
            r is None ==> self.index_spec(key@) is None,
    {
        let n = self.displace.len();
        if n == 0 {
            return None;
        }
        let b = (hash_seeded(key, SEED_A, SEED_B, SEED_C, SEED_D) % (n as u64)) as usize;
        let d = self.displace[b];
        if d == EMPTY_BUCKET {
            None
        } else if d < SEEDED {
            Some(d as usize)
        } else {
            let h = hash_seeded(key, SEED_A, SEED_B, SEED_C, d as u64);
            Some((h % (n as u64)) as usize)
        }
    }
}


/// The byte strings held by a list of keys.
pub open spec fn key_views(keys: Seq<Vec<u8>>) -> Seq<Seq<u8>> {
    keys.map_values(|k: Vec<u8>| k@)
}

/// Some two of the keys are equal.
pub open spec fn has_duplicate(keys: Seq<Seq<u8>>) -> bool {
    exists|i: int, j: int| 0 <= i < keys.len() && 0 <= j < keys.len() && i != j && keys[i] == keys[j]
}

/// A list in which no item occurs twice.
pub open spec fn distinct(s: Seq<usize>) -> bool {
    forall|i: int, j: int| 0 <= i < s.len() && 0 <= j < s.len() && i != j ==> s[i] != s[j]
}

/// Whether `x` occurs in `s`.
fn occurs(s: &Vec<usize>, x: usize) -> (r: bool)
    ensures
        r == s@.contains(x),
{
    let mut i: usize = 0;
    while i < s.len()
        invariant
            i <= s@.len(),
            forall|k: int| 0 <= k < i ==> s@[k] != x,
        decreases s@.len() - i,
    {
        if s[i] == x {
            return true;
        }
        i = i + 1;
    }
    false
}

/// The items of bucket `b`, in increasing order.
fn bucket_members(b: usize, bucket: &Vec<usize>) -> (r: Vec<usize>)
    ensures
        distinct(r@),
        forall|i: int| 0 <= i < r@.len() ==> (#[trigger] r@[i]) < bucket@.len() && bucket@[r@[i] as int] == b,
        forall|j: int| 0 <= j < bucket@.len() && bucket@[j] == b ==> r@.contains(j as usize),
{
    let mut r: Vec<usize> = Vec::new();
    let mut j: usize = 0;
    while j < bucket.len()
        invariant
            j <= bucket@.len(),
            forall|i: int, k: int| 0 <= i < k < r@.len() ==> r@[i] < r@[k],
            forall|i: int| 0 <= i < r@.len() ==> (#[trigger] r@[i]) < j && bucket@[r@[i] as int] == b,
            forall|t: int| 0 <= t < j && bucket@[t] == b ==> r@.contains(t as usize),
        decreases bucket@.len() - j,
    {
        let ghost r0 = r@;
        if bucket[j] == b {
            r.push(j);
            assert(r@[r@.len() - 1] == j);
        }
        proof {
            assert forall|t: int| 0 <= t <= j && bucket@[t] == b implies r@.contains(t as usize) by {
                if t < j {
                    assert(r0.contains(t as usize));
                    let k = choose|k: int| 0 <= k < r0.len() && r0[k] == t as usize;
                    assert(r@[k] == t as usize);
                } else {
                    assert(r@[r@.len() - 1] == j);
                }
            }
        }
        j = j + 1;
    }
    r
}

/// The items whose keys fall in bucket `b`.
pub open spec fn in_bucket(keys: Seq<Seq<u8>>, b: int, j: int) -> bool {
    0 <= j < keys.len() && bucket_of(keys[j], keys.len()) == b
}

/// The number of keys in bucket `b`.
pub open spec fn bucket_len(keys: Seq<Seq<u8>>, b: int) -> nat {
    Set::new(|j: int| in_bucket(keys, b, j)).len()
}

/// Under seed `d`, the keys of bucket `b` get pairwise distinct slots, none
/// of them in `taken`.
pub open spec fn places_bucket(keys: Seq<Seq<u8>>, b: int, d: u32, taken: Set<int>) -> bool {
    &&& forall|i: int| #[trigger] in_bucket(keys, b, i) ==>
        (slot_for(keys[i], d, keys.len()) matches Some(x) && !taken.contains(x))
    &&& forall|i: int, j: int| #[trigger] in_bucket(keys, b, i) && #[trigger] in_bucket(keys, b, j) && i != j
        ==> slot_for(keys[i], d, keys.len()) != slot_for(keys[j], d, keys.len())
}

/// The slots that hold a key.
spec fn taken_set(owner: Seq<usize>) -> Set<int> {
    Set::new(|s: int| 0 <= s < owner.len() && owner[s] != NIL)
}

/// The items that have a slot.
spec fn placed_set(slot: Seq<usize>) -> Set<int> {
    Set::new(|j: int| 0 <= j < slot.len() && slot[j] != NIL)
}

/// `owner` and `slot` are inverse on the items placed so far.
spec fn tables_agree(n: int, owner: Seq<usize>, slot: Seq<usize>) -> bool {
    &&& owner.len() == n
    &&& slot.len() == n
    &&& forall|j: int| 0 <= j < n && (#[trigger] slot[j]) != NIL ==> slot[j] < n && owner[slot[j] as int] == j
    &&& forall|s: int| 0 <= s < n && (#[trigger] owner[s]) != NIL ==> owner[s] < n && slot[owner[s] as int] == s
}

/// As many slots are taken as items are placed.
proof fn lemma_taken_count(n: int, owner: Seq<usize>, slot: Seq<usize>)
    requires
        n < SEEDED,
        0 <= n,
        tables_agree(n, owner, slot),
    ensures
        taken_set(owner).finite(),
        placed_set(slot).finite(),
        taken_set(owner).len() == placed_set(slot).len(),
        taken_set(owner).subset_of(set_int_range(0, n)),
        placed_set(slot).subset_of(set_int_range(0, n)),
{
    let placed = placed_set(slot);
    let taken = taken_set(owner);
    lemma_int_range(0, n);
    lemma_len_subset(placed, set_int_range(0, n));
    let f = |j: int| slot[j] as int;
    assert forall|y: int| taken.contains(y) implies #[trigger] placed.map(f).contains(y) by {
        let x = owner[y] as int;
        assert(owner[y] != NIL);
        assert(slot[x] == y);
        assert(placed.contains(x) && f(x) == y);
    }
    assert forall|y: int| #[trigger] placed.map(f).contains(y) implies taken.contains(y) by {
        let x = choose|x: int| placed.contains(x) && f(x) == y;
        assert(owner[slot[x] as int] == x);
    }
    assert(placed.map(f) =~= taken);
    assert(injective_on(f, placed)) by {
        assert forall|i: int, j: int| placed.contains(i) && placed.contains(j) && #[trigger] f(i) == #[trigger] f(j)
            implies i == j by {
            assert(owner[slot[i] as int] == i);
            assert(owner[slot[j] as int] == j);
        }
    }
    lemma_map_size(placed, taken, f);
}

/// While some item has no slot, some slot is free.
proof fn lemma_free_slot_exists(n: int, owner: Seq<usize>, slot: Seq<usize>, m: int)
    requires
        n < SEEDED,
        tables_agree(n, owner, slot),
        0 <= m < n,
        slot[m] == NIL,
    ensures
        exists|s: int| 0 <= s < n && owner[s] == NIL,
{
    lemma_taken_count(n, owner, slot);
    lemma_int_range(0, n);
    let rest = set_int_range(0, n).remove(m);
    lemma_len_subset(placed_set(slot), rest);
    if forall|s: int| 0 <= s < n ==> owner[s] != NIL {
        assert(taken_set(owner) =~= set_int_range(0, n));
    }
}

/// Taken slots and the unplaced items of a bucket fit in the table.
proof fn lemma_taken_bound(n: int, owner: Seq<usize>, slot: Seq<usize>, items: Set<int>)
    requires
        n < SEEDED,
        tables_agree(n, owner, slot),
        items.finite(),
        items.subset_of(set_int_range(0, n)),
        forall|j: int| items.contains(j) ==> slot[j] == NIL,
    ensures
        taken_set(owner).len() + items.len() <= n,
{
    lemma_taken_count(n, owner, slot);
    lemma_int_range(0, n);
    let placed = placed_set(slot);
    assert(placed.disjoint(items));
    lemma_set_disjoint_lens(placed, items);
    lemma_len_subset(placed + items, set_int_range(0, n));
}

/// Once every item is placed, every slot is taken.
proof fn lemma_all_owned(n: int, owner: Seq<usize>, slot: Seq<usize>)
    requires
        n < SEEDED,
        0 <= n,
        tables_agree(n, owner, slot),
        forall|j: int| 0 <= j < n ==> (#[trigger] slot[j]) != NIL,
    ensures
        forall|s: int| 0 <= s < n ==> (#[trigger] owner[s]) != NIL,
{
    lemma_taken_count(n, owner, slot);
    lemma_int_range(0, n);
    assert(placed_set(slot) =~= set_int_range(0, n));
    lemma_subset_equality(taken_set(owner), set_int_range(0, n));
    assert forall|s: int| 0 <= s < n implies (#[trigger] owner[s]) != NIL by {
        assert(set_int_range(0, n).contains(s));
        assert(taken_set(owner).contains(s));
    }
}

/// Looks for two equal keys among the items `members`.
fn find_equal_pair(keys: &Vec<Vec<u8>>, members: &Vec<usize>) -> (r: bool)
    requires
        distinct(members@),
        forall|i: int| 0 <= i < members@.len() ==> (#[trigger] members@[i]) < keys@.len(),
    ensures
        r ==> has_duplicate(key_views(keys@)),
{
    let mut p: usize = 0;
    while p < members.len()
        invariant
            distinct(members@),
            forall|i: int| 0 <= i < members@.len() ==> (#[trigger] members@[i]) < keys@.len(),
        decreases members@.len() - p,
    {
        let mut q: usize = p + 1;
        while q < members.len()
            invariant
                p < members@.len(),
                p < q,
                distinct(members@),
                forall|i: int| 0 <= i < members@.len() ==> (#[trigger] members@[i]) < keys@.len(),
            decreases members@.len() - q,
        {
            let a = members[p];
            let c = members[q];
            if bytes_eq(keys[a].as_slice(), keys[c].as_slice()) {
                proof {
                    let kv = key_views(keys@);
                    assert(a != c);
                    assert(kv[a as int] == kv[c as int]);
                    assert(has_duplicate(kv));
                }
                return true;
            }
            q = q + 1;
        }
        p = p + 1;
    }
    false
}

/// Tries one seed for a bucket: the slots its members would take, if they
/// are free and pairwise distinct.
fn try_seed(
    keys: &Vec<Vec<u8>>,
    members: &Vec<usize>,
    owner: &Vec<usize>,
    seed: u32,
    Ghost(b): Ghost<int>,
) -> (r: Option<Vec<usize>>)
    requires
        seed >= SEEDED,
        seed != EMPTY_BUCKET,
        owner@.len() == keys@.len(),
        0 < keys@.len(),
        distinct(members@),
        forall|i: int| 0 <= i < members@.len() ==> in_bucket(key_views(keys@), b, (#[trigger] members@[i]) as int),
    ensures
        r matches Some(a) ==> {
            &&& a@.len() == members@.len()
            &&& distinct(a@)
            &&& forall|i: int| 0 <= i < a@.len() ==> {
                &&& (#[trigger] a@[i]) < owner@.len()
                &&& owner@[a@[i] as int] == NIL
                &&& slot_for(keys@[members@[i] as int]@, seed, keys@.len()) == Some(a@[i] as int)
            }
        },
        r is None ==> !places_bucket(key_views(keys@), b, seed, taken_set(owner@)),
{
    let ghost kv = key_views(keys@);
    let n = keys.len();
    let mut a: Vec<usize> = Vec::new();
    let mut i: usize = 0;
    while i < members.len()
        invariant
            n == keys@.len(),
            kv == key_views(keys@),
            0 < n,
            owner@.len() == n,
            seed >= SEEDED,
            seed != EMPTY_BUCKET,
            distinct(members@),
            forall|i: int| 0 <= i < members@.len() ==> in_bucket(kv, b, (#[trigger] members@[i]) as int),
            i <= members@.len(),
            a@.len() == i,
            distinct(a@),
            forall|k: int| 0 <= k < a@.len() ==> {
                &&& (#[trigger] a@[k]) < n
                &&& owner@[a@[k] as int] == NIL
                &&& slot_for(keys@[members@[k] as int]@, seed, n as nat) == Some(a@[k] as int)
            },
        decreases members@.len() - i,
    {
        let m = members[i];
        let key = keys[m].as_slice();
        let h = hash_seeded(key, SEED_A, SEED_B, SEED_C, seed as u64);
        let s = (h % (n as u64)) as usize;
        proof {
            assert(in_bucket(kv, b, m as int));
            assert(kv[m as int] == keys@[m as int]@);
            assert(slot_for(kv[m as int], seed, n as nat) == Some(s as int));
        }
        if owner[s] != NIL {
            proof {
                assert(taken_set(owner@).contains(s as int));
            }
            return None;
        }
        if occurs(&a, s) {
            proof {
                let k = choose|k: int| 0 <= k < a@.len() && a@[k] == s;
                let mk = members@[k] as int;
                assert(members@[k] != members@[i as int]);
                assert(in_bucket(kv, b, mk));
                assert(kv[mk] == keys@[mk]@);
                assert(slot_for(kv[mk], seed, n as nat) == slot_for(kv[m as int], seed, n as nat));
            }
            return None;
        }
        a.push(s);
        i = i + 1;
    }
    Some(a)
}

/// The first slot at or after `from` that no key holds yet.
fn first_free(owner: &Vec<usize>, from: usize) -> (r: Option<usize>)
    ensures
        r matches Some(s) ==> from <= s < owner@.len() && owner@[s as int] == NIL,
        r is None ==> forall|s: int| from <= s < owner@.len() ==> owner@[s] != NIL,
{
    let mut s = from;
    while s < owner.len()
        invariant
            from <= s,
            forall|t: int| from <= t < s ==> owner@[t] != NIL,
        decreases owner@.len() - s,
    {
        if owner[s] == NIL {
            return Some(s);
        }
        s = s + 1;
    }
    None
}

/// The working state of the builder is sound: every placed item sits in the
/// slot that its bucket's word gives it, and `owner` / `slot` agree.
spec fn placement_sound(
    keys: Seq<Seq<u8>>,
    bucket: Seq<usize>,
    displace: Seq<u32>,
    done: Seq<bool>,
    owner: Seq<usize>,
    slot: Seq<usize>,
) -> bool {
    let n = keys.len();
    &&& bucket.len() == n
    &&& displace.len() == n
    &&& done.len() == n
    &&& owner.len() == n
    &&& slot.len() == n
    &&& forall|j: int| 0 <= j < n ==> (#[trigger] bucket[j]) == bucket_of(keys[j], n) && bucket[j] < n
    &&& forall|j: int| 0 <= j < n && (#[trigger] slot[j]) != NIL ==> {
        &&& slot[j] < n
        &&& owner[slot[j] as int] == j
        &&& done[bucket[j] as int]
        &&& slot_for(keys[j], displace[bucket[j] as int], n) == Some(slot[j] as int)
    }
    &&& forall|s: int| 0 <= s < n && (#[trigger] owner[s]) != NIL ==> owner[s] < n && slot[owner[s] as int] == s
}

/// Every bucket marked done has all its items placed.
spec fn done_complete(bucket: Seq<usize>, done: Seq<bool>, slot: Seq<usize>) -> bool {
    forall|j: int| 0 <= j < slot.len() && #[trigger] done[bucket[j] as int] ==> slot[j] != NIL
}

/// Gives bucket `b` the word `d` and each member `members[i]` the slot
/// `a[i]`.
fn place_bucket(
    keys: &Vec<Vec<u8>>,
    bucket: &Vec<usize>,
    displace: &mut Vec<u32>,
    done: &mut Vec<bool>,
    owner: &mut Vec<usize>,
    slot: &mut Vec<usize>,
    b: usize,
    d: u32,
    members: &Vec<usize>,
    a: &Vec<usize>,
)
    requires
        placement_sound(key_views(keys@), bucket@, old(displace)@, old(done)@, old(owner)@, old(slot)@),
        keys@.len() < SEEDED,
        b < keys@.len(),
        !old(done)@[b as int],
        done_complete(bucket@, old(done)@, old(slot)@),
        forall|j: int| 0 <= j < keys@.len() && bucket@[j] == b ==> members@.contains(j as usize),
        a@.len() == members@.len(),
        distinct(a@),
        distinct(members@),
        forall|i: int| 0 <= i < members@.len() ==> {
            &&& (#[trigger] members@[i]) < keys@.len()
            &&& bucket@[members@[i] as int] == b
            &&& a@[i] < keys@.len()
            &&& old(owner)@[a@[i] as int] == NIL
            &&& slot_for(keys@[members@[i] as int]@, d, keys@.len()) == Some(a@[i] as int)
        },
    ensures
        placement_sound(key_views(keys@), bucket@, final(displace)@, final(done)@, final(owner)@, final(slot)@),
        done_complete(bucket@, final(done)@, final(slot)@),
        final(done)@[b as int],
        forall|j: int| 0 <= j < keys@.len() && old(slot)@[j] != NIL ==> (#[trigger] final(slot)@[j]) != NIL,
        forall|i: int| 0 <= i < members@.len() ==> final(slot)@[#[trigger] members@[i] as int] != NIL,
{
    let ghost kv = key_views(keys@);
    let ghost n = keys@.len();
    proof {
        assert forall|j: int| 0 <= j < n && (#[trigger] old(slot)@[j]) != NIL implies bucket@[j] != b by {
            assert(old(done)@[bucket@[j] as int]);
        }
        assert forall|i: int| 0 <= i < members@.len() implies old(slot)@[(#[trigger] members@[i]) as int] == NIL by {
            let m = members@[i] as int;
            if old(slot)@[m] != NIL {
                assert(old(done)@[bucket@[m] as int]);
            }
        }
        assert forall|i: int| 0 <= i < members@.len() implies kv[(#[trigger] members@[i]) as int] == keys@[members@[i] as int]@ by {}
        assert forall|k: int| 0 <= k < members@.len() implies old(owner)@[(#[trigger] a@[k]) as int] == NIL by {
            assert(members@[k] < n);
        }
    }
    displace.set(b, d);
    done.set(b, true);
    let mut i: usize = 0;
    while i < members.len()
        invariant
            kv == key_views(keys@),
            n == keys@.len(),
            n < SEEDED,
            b < n,
            i <= members@.len(),
            a@.len() == members@.len(),
            distinct(a@),
            distinct(members@),
            old(displace)@.len() == n,
            old(done)@.len() == n,
            displace@ == old(displace)@.update(b as int, d),
            done@ == old(done)@.update(b as int, true),
            placement_sound(kv, bucket@, displace@, done@, owner@, slot@),
            forall|j: int| 0 <= j < n && old(slot)@[j] != NIL ==> (#[trigger] slot@[j]) != NIL,
            forall|k: int| 0 <= k < i ==> slot@[(#[trigger] members@[k]) as int] != NIL,
            forall|k: int| i <= k < members@.len() ==> owner@[(#[trigger] a@[k]) as int] == NIL,
            forall|k: int| i <= k < members@.len() ==> slot@[(#[trigger] members@[k]) as int] == NIL,
            forall|k: int| 0 <= k < members@.len() ==> {
                &&& (#[trigger] members@[k]) < n
                &&& bucket@[members@[k] as int] == b
                &&& a@[k] < n
                &&& slot_for(kv[members@[k] as int], d, n) == Some(a@[k] as int)
            },
        decreases members@.len() - i,
    {
        let m = members[i];
        let s = a[i];
        let ghost owner0 = owner@;
        let ghost slot0 = slot@;
        proof {
            assert(members@[i as int] < n);
            assert(owner0[s as int] == NIL);
            assert(slot0[m as int] == NIL);
            assert forall|j: int| 0 <= j < n && (#[trigger] slot0[j]) != NIL implies slot0[j] != s && j != m by {
                assert(owner0[slot0[j] as int] == j);
            }
        }
        owner.set(s, m);
        slot.set(m, s);
        proof {
            assert forall|j: int| 0 <= j < n && (#[trigger] slot@[j]) != NIL implies {
                &&& slot@[j] < n
                &&& owner@[slot@[j] as int] == j
                &&& done@[bucket@[j] as int]
                &&& slot_for(kv[j], displace@[bucket@[j] as int], n) == Some(slot@[j] as int)
            } by {
                if j != m {
                    assert(slot0[j] != NIL);
                } else {
                    assert(bucket@[m as int] == b);
                    assert(displace@[b as int] == d);
                    assert(slot_for(kv[m as int], d, n) == Some(s as int));
                }
            }
            assert forall|t: int| 0 <= t < n && (#[trigger] owner@[t]) != NIL implies owner@[t] < n && slot@[owner@[t] as int] == t by {
                if t != s {
                    assert(owner0[t] != NIL);
                    assert(owner0[t] != m);
                }
            }
            assert(owner@ == owner0.update(s as int, m));
            assert forall|k: int| i < k < members@.len() implies owner@[(#[trigger] a@[k]) as int] == NIL by {
                assert(members@[k] < n);
                assert(a@[k] != a@[i as int]);
                assert(owner0[a@[k] as int] == NIL);
            }
            assert forall|k: int| i < k < members@.len() implies slot@[(#[trigger] members@[k]) as int] == NIL by {
                assert(members@[k] != members@[i as int]);
            }
        }
        i = i + 1;
    }
    proof {
        assert forall|j: int| 0 <= j < slot@.len() && #[trigger] done@[bucket@[j] as int] implies slot@[j] != NIL by {
            if bucket@[j] == b {
                assert(members@.contains(j as usize));
                let k = choose|k: int| 0 <= k < members@.len() && members@[k] == j as usize;
                assert(slot@[members@[k] as int] != NIL);
            } else {
                assert(old(done)@[bucket@[j] as int]);
            }
        }
    }
}

/// No seed places some bucket of two or more keys: whatever the seed, two
/// of its keys collide or one lands on a slot already taken, and the taken
/// slots leave room for the bucket.
pub open spec fn unplaceable(keys: Seq<Seq<u8>>) -> bool {
    exists|b: int, taken: Set<int>|
        0 <= b < keys.len()
        && bucket_len(keys, b) >= 2
        && taken.finite()
        && taken.len() + bucket_len(keys, b) <= keys.len()
        && forall|d: u32| SEEDED <= d < EMPTY_BUCKET ==> !places_bucket(keys, b, d, taken)
}

/// Places bucket `b`, whose items are `members` (two or more), by the
/// first seed that fits, after checking that its keys differ.
fn place_seeded(
    keys: &Vec<Vec<u8>>,
    bucket: &Vec<usize>,
    displace: &mut Vec<u32>,
    done: &mut Vec<bool>,
    owner: &mut Vec<usize>,
    slot: &mut Vec<usize>,
    b: usize,
    members: &Vec<usize>,
) -> (r: Result<(), BuildError>)
    requires
        0 < keys@.len() < SEEDED,
        b < keys@.len(),
        placement_sound(key_views(keys@), bucket@, old(displace)@, old(done)@, old(owner)@, old(slot)@),
        done_complete(bucket@, old(done)@, old(slot)@),
        !old(done)@[b as int],
        members@.len() >= 2,
        distinct(members@),
        forall|i: int| 0 <= i < members@.len() ==> (#[trigger] members@[i]) < keys@.len() && bucket@[members@[i] as int] == b,
        forall|j: int| 0 <= j < keys@.len() && bucket@[j] == b ==> members@.contains(j as usize),
    ensures
        placement_sound(key_views(keys@), bucket@, final(displace)@, final(done)@, final(owner)@, final(slot)@),
        done_complete(bucket@, final(done)@, final(slot)@),
        forall|j: int| 0 <= j < keys@.len() && old(slot)@[j] != NIL ==> (#[trigger] final(slot)@[j]) != NIL,
        r is Ok ==> final(done)@[b as int],
        r matches Err(BuildError::DuplicateKey) ==> has_duplicate(key_views(keys@)),
        r matches Err(BuildError::NoDisplacement) ==> unplaceable(key_views(keys@)),
{
    let ghost kv = key_views(keys@);
    let ghost n = keys@.len() as int;
    if find_equal_pair(keys, members) {
        return Err(BuildError::DuplicateKey);
    }
    proof {
        assert forall|i: int| 0 <= i < members@.len() implies in_bucket(kv, b as int, (#[trigger] members@[i]) as int) by {
            assert(bucket@[members@[i] as int] == bucket_of(kv[members@[i] as int], n as nat));
        }
    }
    let ghost owner0 = owner@;
    let mut seed: u64 = SEEDED as u64;
    let mut placed = false;
    while !placed && seed < EMPTY_BUCKET as u64
        invariant
            n == keys@.len(),
            0 < n < SEEDED,
            kv == key_views(keys@),
            b < n,
            bucket@.len() == n,
            placement_sound(kv, bucket@, displace@, done@, owner@, slot@),
            done_complete(bucket@, done@, slot@),
            forall|j: int| 0 <= j < n && old(slot)@[j] != NIL ==> (#[trigger] slot@[j]) != NIL,
            !placed ==> !done@[b as int] && owner@ == owner0 && slot@ == old(slot)@,
            placed ==> done@[b as int],
            SEEDED <= seed <= EMPTY_BUCKET,
            distinct(members@),
            forall|i: int| 0 <= i < members@.len() ==> (#[trigger] members@[i]) < n && bucket@[members@[i] as int] == b,
            forall|i: int| 0 <= i < members@.len() ==> in_bucket(kv, b as int, (#[trigger] members@[i]) as int),
            forall|j: int| 0 <= j < n && bucket@[j] == b ==> members@.contains(j as usize),
            !placed ==> forall|d: u32| SEEDED <= d < seed ==> !places_bucket(kv, b as int, d, taken_set(owner0)),
        decreases EMPTY_BUCKET - seed, (if placed { 0int } else { 1int }),
    {
        match try_seed(keys, members, owner, seed as u32, Ghost(b as int)) {
            Some(a) => {
                proof {
                    assert forall|i: int| 0 <= i < members@.len() implies
                        kv[(#[trigger] members@[i]) as int] == keys@[members@[i] as int]@ by {}
                }
                place_bucket(keys, bucket, displace, done, owner, slot, b, seed as u32, members, &a);
                placed = true;
            },
            None => {
                seed = seed + 1;
            },
        }
    }
    if !placed {
        proof {
            let items = Set::new(|j: int| in_bucket(kv, b as int, j));
            let ms = members@.map_values(|x: usize| x as int);
            assert forall|j: int| #[trigger] items.contains(j) implies ms.to_set().contains(j) by {
                assert(bucket@[j] == bucket_of(kv[j], n as nat));
                assert(members@.contains(j as usize));
                let k = choose|k: int| 0 <= k < members@.len() && members@[k] == j as usize;
                assert(ms[k] == j);
            }
            assert forall|j: int| ms.to_set().contains(j) implies #[trigger] items.contains(j) by {
                let k = choose|k: int| 0 <= k < ms.len() && ms[k] == j;
                assert(in_bucket(kv, b as int, members@[k] as int));
            }
            assert(items =~= ms.to_set());
            assert(ms.no_duplicates()) by {
                assert forall|x: int, y: int| 0 <= x < ms.len() && 0 <= y < ms.len() && x != y implies ms[x] != ms[y] by {
                    assert(members@[x] != members@[y]);
                }
            }
            ms.unique_seq_to_set();
            assert(bucket_len(kv, b as int) == members@.len());
            assert forall|j: int| items.contains(j) implies slot@[j] == NIL by {
                if slot@[j] != NIL {
                    assert(done@[bucket@[j] as int]);
                }
            }
            assert(items.subset_of(set_int_range(0, n)));
            assert(tables_agree(n, owner@, slot@));
            lemma_taken_bound(n, owner@, slot@, items);
            lemma_taken_count(n, owner@, slot@);
            assert(unplaceable(kv));
        }
        return Err(BuildError::NoDisplacement);
    }
    Ok(())
}

/// Builds the perfect hash index of `keys`. On success `owner[s]` is the
/// item placed in slot `s` and `slot[j]` the slot of item `j`. It fails
/// only on equal keys, or on a bucket that no seed can place.
pub fn build(keys: &Vec<Vec<u8>>) -> (r: Result<(ArchivedHashIndex, Vec<usize>, Vec<usize>), BuildError>)
    requires
        keys@.len() < SEEDED,
    ensures
        match r {
            Ok((index, owner, slot)) => index.places(key_views(keys@), owner@, slot@)
                && !has_duplicate(key_views(keys@)),
            Err(BuildError::DuplicateKey) => has_duplicate(key_views(keys@)),
            Err(BuildError::NoDisplacement) => unplaceable(key_views(keys@)),
        },
        keys@.len() == 0 ==> r is Ok,
{
    let n = keys.len();
    if n == 0 {
        return Ok((ArchivedHashIndex::empty(), Vec::new(), Vec::new()));
    }
    let ghost kv = key_views(keys@);
    let mut bucket: Vec<usize> = Vec::new();
    let mut size: Vec<usize> = Vec::new();
    let mut displace: Vec<u32> = Vec::new();
    let mut done: Vec<bool> = Vec::new();
    let mut owner: Vec<usize> = Vec::new();
    let mut slot: Vec<usize> = Vec::new();
    let mut k: usize = 0;
    while k < n
        invariant
            k <= n,
            size@.len() == k && displace@.len() == k,
            done@.len() == k && owner@.len() == k && slot@.len() == k,
            forall|i: int| 0 <= i < k ==> (#[trigger] size@[i]) == 0usize,
            forall|i: int| 0 <= i < k ==> !(#[trigger] done@[i]),
            forall|i: int| 0 <= i < k ==> (#[trigger] owner@[i]) == NIL,
            forall|i: int| 0 <= i < k ==> (#[trigger] slot@[i]) == NIL,
        decreases n - k,
    {
        size.push(0);
        displace.push(EMPTY_BUCKET);
        done.push(false);
        owner.push(NIL);
        slot.push(NIL);
        k = k + 1;
    }
    let mut j: usize = 0;
    while j < n
        invariant
            n == keys@.len(),
            0 < n < SEEDED,
            kv == key_views(keys@),
            j <= n,
            bucket@.len() == j,
            size@.len() == n,
            forall|i: int| 0 <= i < j ==> (#[trigger] bucket@[i]) == bucket_of(kv[i], n as nat) && bucket@[i] < n,
            forall|i: int| 0 <= i < n ==> (#[trigger] size@[i]) <= j,
        decreases n - j,
    {
        let h = hash_seeded(keys[j].as_slice(), SEED_A, SEED_B, SEED_C, SEED_D);
        let b = (h % (n as u64)) as usize;
        assert(kv[j as int] == keys@[j as int]@);
        bucket.push(b);
        size.set(b, size[b] + 1);
        j = j + 1;
    }
    let mut largest: usize = 0;
    let mut b: usize = 0;
    while b < n
        invariant
            size@.len() == n,
            b <= n,
            largest <= n,
            forall|i: int| 0 <= i < n ==> (#[trigger] size@[i]) <= n,
        decreases n - b,
    {
        if size[b] > largest {
            largest = size[b];
        }
        b = b + 1;
    }
    // Buckets of two or more keys, the largest first: they are the hardest
    // to place.
    let mut s = largest;
    while s > 1
        invariant
            n == keys@.len(),
            0 < n < SEEDED,
            kv == key_views(keys@),
            bucket@.len() == n,
            size@.len() == n,
            placement_sound(kv, bucket@, displace@, done@, owner@, slot@),
            done_complete(bucket@, done@, slot@),
        decreases s,
    {
        let mut b: usize = 0;
        while b < n
            invariant
                n == keys@.len(),
                0 < n < SEEDED,
                kv == key_views(keys@),
                bucket@.len() == n,
                size@.len() == n,
                placement_sound(kv, bucket@, displace@, done@, owner@, slot@),
                done_complete(bucket@, done@, slot@),
            decreases n - b,
        {
            if size[b] == s && !done[b] {
                let members = bucket_members(b, &bucket);
                if members.len() >= 2 {
                    place_seeded(keys, &bucket, &mut displace, &mut done, &mut owner, &mut slot, b, &members)?;
                }
            }
            b = b + 1;
        }
        s = s - 1;
    }
    // Every item not yet placed: a lone key takes the first free slot.
    let mut j: usize = 0;
    while j < n
        invariant
            n == keys@.len(),
            0 < n < SEEDED,
            kv == key_views(keys@),
            j <= n,
            bucket@.len() == n,
            placement_sound(kv, bucket@, displace@, done@, owner@, slot@),
            done_complete(bucket@, done@, slot@),
            forall|t: int| 0 <= t < j ==> (#[trigger] slot@[t]) != NIL,
        decreases n - j,
    {
        if slot[j] == NIL {
            let b = bucket[j];
            let members = bucket_members(b, &bucket);
            proof {
                assert(!done@[b as int]);
                assert(members@.contains(j));
            }
            if members.len() == 1 {
                proof {
                    assert(tables_agree(n as int, owner@, slot@));
                    lemma_free_slot_exists(n as int, owner@, slot@, j as int);
                }
                match first_free(&owner, 0) {
                    Some(f) => {
                        let mut a: Vec<usize> = Vec::new();
                        a.push(f);
                        proof {
                            assert(members@[0] == j);
                            assert(kv[j as int] == keys@[j as int]@);
                        }
                        place_bucket(keys, &bucket, &mut displace, &mut done, &mut owner, &mut slot, b, f as u32, &members, &a);
                    },
                    None => {
                        proof {
                            assert(false);
                        }
                    },
                }
            } else {
                place_seeded(keys, &bucket, &mut displace, &mut done, &mut owner, &mut slot, b, &members)?;
            }
            proof {
                assert(done@[b as int]);
                assert(slot@[j as int] != NIL);
            }
        }
        j = j + 1;
    }
    proof {
        assert(tables_agree(n as int, owner@, slot@));
        lemma_all_owned(n as int, owner@, slot@);
    }
    let index = ArchivedHashIndex { displace };
    proof {
        assert forall|j: int| 0 <= j < n implies index.index_spec(#[trigger] kv[j]) == Some(slot@[j] as int) by {
            assert(slot@[j] != NIL);
            assert(bucket@[j] == bucket_of(kv[j], n as nat));
        }
        assert forall|s: int| 0 <= s < n implies (#[trigger] owner@[s]) < n && slot@[owner@[s] as int] == s by {
            assert(owner@[s] != NIL);
        }
        assert forall|a: int, c: int| 0 <= a < n && 0 <= c < n && a != c implies kv[a] != kv[c] by {
            if kv[a] == kv[c] {
                assert(index.index_spec(kv[a]) == Some(slot@[a] as int));
                assert(index.index_spec(kv[c]) == Some(slot@[c] as int));
                assert(owner@[slot@[a] as int] == a);
                assert(owner@[slot@[c] as int] == c);
            }
        }
    }
    Ok((index, owner, slot))
}

} // verus!
