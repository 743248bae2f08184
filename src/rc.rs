//! Shared and weak reference nodes.
//!
//! A shared value is written once per source identity; every node that
//! refers to it holds the offset from its own position to that one copy.

use vstd::prelude::*;

verus! {

/// The position already given to the source identity `id`, if any: the
/// latest record for `id` in `cache`.
pub open spec fn cached_position(cache: Seq<(u64, usize)>, id: u64) -> Option<usize>
    decreases cache.len(),
{
    if cache.len() == 0 {
        None
    } else if cache.last().0 == id {
        Some(cache.last().1)
    } else {
        cached_position(cache.drop_last(), id)
    }
}

/// One shared write: the store and cache afterwards, and the position of
/// the value. A known identity gets its old position and writes nothing.
pub open spec fn shared_step<T>(
    stored: Seq<T>,
    cache: Seq<(u64, usize)>,
    id: u64,
    value: T,
) -> (Seq<T>, Seq<(u64, usize)>, usize) {
    match cached_position(cache, id) {
        Some(p) => (stored, cache, p),
        None => (stored.push(value), cache.push((id, stored.len() as usize)), stored.len() as usize),
    }
}

/// Every cached position names a stored value.
pub open spec fn cache_in_bounds<T>(stored: Seq<T>, cache: Seq<(u64, usize)>) -> bool {
    forall|i: int| 0 <= i < cache.len() ==> (#[trigger] cache[i]).1 < stored.len()
}

/// The store of shared values of one archive, and the position that each
/// source identity (an address, say) was given in it.
pub struct SharedSerializer<T> {
    stored: Vec<T>,
    cache: Vec<(u64, usize)>,
}

impl<T> SharedSerializer<T> {
    /// The values written, by position.
    pub closed spec fn stored(&self) -> Seq<T> {
        self.stored@
    }

    /// The identities seen, each with its position.
    pub closed spec fn cache(&self) -> Seq<(u64, usize)> {
        self.cache@
    }

    /// Every cached position names a stored value.
    pub open spec fn wf(&self) -> bool {
        cache_in_bounds(self.stored(), self.cache())
    }

    /// An empty store.
    pub fn new() -> (r: Self)
        ensures
            r.stored() == Seq::<T>::empty(),
            r.cache() == Seq::<(u64, usize)>::empty(),
            r.wf(),
    {
        SharedSerializer { stored: Vec::new(), cache: Vec::new() }
    }

    /// The number of values written.
    pub fn len(&self) -> (r: usize)
        ensures
            r == self.stored().len(),
    {
        self.stored.len()
    }

    /// The position of the value written for `id`, if any.
    pub fn position_of(&self, id: u64) -> (r: Option<usize>)
        ensures
            r == cached_position(self.cache(), id),
    {
        let mut i = self.cache.len();
        assert(self.cache@.subrange(0, i as int) == self.cache@);
        while i > 0
            invariant
                i <= self.cache@.len(),
                cached_position(self.cache@, id) == cached_position(self.cache@.subrange(0, i as int), id),
            decreases i,
        {
            let (k, p) = self.cache[i - 1];
            let ghost pre = self.cache@.subrange(0, i as int);
            assert(pre.drop_last() == self.cache@.subrange(0, i - 1));
            if k == id {
                return Some(p);
            }
            i = i - 1;
        }
        None
    }

    /// Writes `value` for the identity `id`, unless that identity was
    /// written before, and returns its position.
    pub fn serialize_shared(&mut self, id: u64, value: T) -> (r: usize)
        requires
            old(self).wf(),
            old(self).stored().len() < usize::MAX,
        ensures
            final(self).wf(),
            (final(self).stored(), final(self).cache(), r) == shared_step(old(self).stored(), old(self).cache(), id, value),
            r < final(self).stored().len(),
    {
        match self.position_of(id) {
            Some(p) => {
                proof {
                    lemma_cached_in_bounds(self.stored(), self.cache(), id);
                }
                p
            },
            None => {
                let p = self.stored.len();
                self.stored.push(value);
                self.cache.push((id, p));
                p
            },
        }
    }

    /// The value at position `p`.
    pub fn value_at(&self, p: usize) -> (r: &T)
        requires
            p < self.stored().len(),
        ensures
            *r == self.stored()[p as int],
    {
        &self.stored[p]
    }
}

/// A cached position names a stored value.
pub proof fn lemma_cached_in_bounds<T>(stored: Seq<T>, cache: Seq<(u64, usize)>, id: u64)
    requires
        cache_in_bounds(stored, cache),
    ensures
        cached_position(cache, id) matches Some(p) ==> p < stored.len(),
    decreases cache.len(),
{
    if cache.len() > 0 && cache.last().0 != id {
        assert forall|i: int| 0 <= i < cache.drop_last().len() implies (#[trigger] cache.drop_last()[i]).1 < stored.len() by {
            assert(cache.drop_last()[i] == cache[i]);
        }
        lemma_cached_in_bounds(stored, cache.drop_last(), id);
    }
}

/// What the first pass leaves for a shared node: the position of the value.
pub struct RcResolver {
    pos: usize,
}

impl RcResolver {
    /// The position of the shared value.
    pub closed spec fn position(&self) -> int {
        self.pos as int
    }
}

/// A shared reference node: the offset from the node's own position to the
/// shared value.
pub struct ArchivedRc {
    offset: i64,
}

impl ArchivedRc {
    /// The offset from the node to its value.
    pub closed spec fn offset(&self) -> int {
        self.offset as int
    }

    /// The position of the value, for a node that stands at `pos`.
    pub open spec fn target(&self, pos: int) -> int {
        pos + self.offset()
    }

    /// Writes the value for `id` into the store, once per identity.
    pub fn serialize_from_ref<T>(id: u64, value: T, serializer: &mut SharedSerializer<T>) -> (r: RcResolver)
        requires
            old(serializer).wf(),
            old(serializer).stored().len() < usize::MAX,
        ensures
            final(serializer).wf(),
            (final(serializer).stored(), final(serializer).cache(), r.position() as usize)
                == shared_step(old(serializer).stored(), old(serializer).cache(), id, value),
            0 <= r.position() < final(serializer).stored().len(),
    {
        RcResolver { pos: serializer.serialize_shared(id, value) }
    }

    /// The node that stands at `pos` and refers to the resolver's value.
    pub fn resolve_from_ref(pos: usize, resolver: RcResolver) -> (r: Self)
        requires
            pos <= i64::MAX,
            resolver.position() <= i64::MAX,
        ensures
            r.target(pos as int) == resolver.position(),
    {
        ArchivedRc { offset: resolver.pos as i64 - pos as i64 }
    }

    /// The shared value of a node that stands at `pos`.
    pub fn get<'a, T>(&self, pos: usize, archive: &'a SharedSerializer<T>) -> (r: &'a T)
        requires
            0 <= self.target(pos as int) < archive.stored().len(),
        ensures
            *r == archive.stored()[self.target(pos as int)],
    {
        let t: i128 = pos as i128 + self.offset as i128;
        let n = archive.stored.len();
        assert(t == self.target(pos as int) && t < n);
        let p = t as usize;
        archive.value_at(p)
    }

    /// Exclusive access to the shared value of a node that stands at `pos`.
    /// Other nodes that refer to the same value see the change.
    pub fn get_pin_mut_unchecked<'a, T>(&self, pos: usize, archive: &'a mut SharedSerializer<T>) -> (r: &'a mut T)
        requires
            0 <= self.target(pos as int) < old(archive).stored().len(),
        ensures
            *r == old(archive).stored()[self.target(pos as int)],
            final(archive).stored() == old(archive).stored().update(self.target(pos as int), *final(r)),
            final(archive).cache() == old(archive).cache(),
    {
        let t: i128 = pos as i128 + self.offset as i128;
        let n = archive.stored.len();
        assert(t == self.target(pos as int) && t < n);
        let p = t as usize;
        &mut archive.stored[p]
    }
}

/// A weak reference node: absent, or a shared node.
pub enum ArchivedRcWeak {
    /// A null weak reference.
    Absent,
    /// A weak reference to a shared value.
    Present(ArchivedRc),
}

/// What the first pass leaves for a weak node.
pub enum RcWeakResolver {
    /// The weak reference was null.
    Absent,
    /// The weak reference was to a shared value.
    Present(RcResolver),
}

impl ArchivedRcWeak {
    /// The shared node, or `None` for a null weak reference.
    pub fn upgrade(&self) -> (r: Option<&ArchivedRc>)
        ensures
            match self {
                ArchivedRcWeak::Absent => r is None,
                ArchivedRcWeak::Present(n) => r == Some(n),
            },
    {
        match self {
            ArchivedRcWeak::Absent => None,
            ArchivedRcWeak::Present(n) => Some(n),
        }
    }

    /// Exclusive access to the shared node, or `None` for a null weak
    /// reference.
    pub fn upgrade_pin_mut(&mut self) -> (r: Option<&mut ArchivedRc>)
        ensures
            match *old(self) {
                ArchivedRcWeak::Absent => r is None && *final(self) == *old(self),
                ArchivedRcWeak::Present(n) => r matches Some(m) && *m == n
                    && *final(self) == ArchivedRcWeak::Present(*final(m)),
            },
    {
        match self {
            ArchivedRcWeak::Absent => None,
            ArchivedRcWeak::Present(n) => Some(n),
        }
    }

    /// Writes the value of a weak reference, if it has one.
    pub fn serialize_from_ref<T>(value: Option<(u64, T)>, serializer: &mut SharedSerializer<T>) -> (r: RcWeakResolver)
        requires
            old(serializer).wf(),
            old(serializer).stored().len() < usize::MAX,
        ensures
            final(serializer).wf(),
            match value {
                None => r is Absent && final(serializer).stored() == old(serializer).stored()
                    && final(serializer).cache() == old(serializer).cache(),
                Some((id, v)) => r matches RcWeakResolver::Present(res)
                    && (final(serializer).stored(), final(serializer).cache(), res.position() as usize)
                        == shared_step(old(serializer).stored(), old(serializer).cache(), id, v)
                    && 0 <= res.position() < final(serializer).stored().len(),
            },
    {
        match value {
            None => RcWeakResolver::Absent,
            Some((id, v)) => RcWeakResolver::Present(ArchivedRc::serialize_from_ref(id, v, serializer)),
        }
    }

    /// The weak node that stands at `pos`: the tag alone for a null
    /// reference, the tag and a shared node otherwise.
    pub fn resolve_from_ref(pos: usize, resolver: RcWeakResolver) -> (r: Self)
        requires
            pos < i64::MAX,
            pos < usize::MAX,
            resolver matches RcWeakResolver::Present(res) ==> res.position() <= i64::MAX,
        ensures
            match resolver {
                RcWeakResolver::Absent => r is Absent,
                RcWeakResolver::Present(res) => r matches ArchivedRcWeak::Present(n) && n.target(pos + 1) == res.position(),
            },
    {
        match resolver {
            RcWeakResolver::Absent => ArchivedRcWeak::Absent,
            // The shared node follows the one-byte tag.
            RcWeakResolver::Present(res) => ArchivedRcWeak::Present(ArchivedRc::resolve_from_ref(pos + 1, res)),
        }
    }
}

/// Weak round trip: writing a value for an identity that is new, or that
/// was written with that same value, leaves that value at the position
/// returned, which is in the store.
pub proof fn lemma_weak_round_trip<T>(stored: Seq<T>, cache: Seq<(u64, usize)>, id: u64, value: T)
    requires
        stored.len() < usize::MAX,
        cache_in_bounds(stored, cache),
        cached_position(cache, id) matches Some(q) ==> q < stored.len() && stored[q as int] == value,
    ensures
        ({
            let (s, c, p) = shared_step(stored, cache, id, value);
            &&& p < s.len()
            &&& s[p as int] == value
            &&& cache_in_bounds(s, c)
        }),
{
    lemma_cached_in_bounds(stored, cache, id);
    let (s, c, p) = shared_step(stored, cache, id, value);
    if cached_position(cache, id) is None {
        assert forall|i: int| 0 <= i < c.len() implies (#[trigger] c[i]).1 < s.len() by {
            if i < cache.len() {
                assert(c[i] == cache[i]);
            }
        }
    }
}

/// Shared dedup: a second write of the same identity gets the position of
/// the first and writes nothing.
pub proof fn lemma_shared_dedup<T>(stored: Seq<T>, cache: Seq<(u64, usize)>, id: u64, first: T, second: T)
    requires
        cache_in_bounds(stored, cache),
    ensures
        ({
            let (s1, c1, p1) = shared_step(stored, cache, id, first);
            let (s2, c2, p2) = shared_step(s1, c1, id, second);
            p2 == p1 && s2 == s1 && c2 == c1
        }),
{
}

/// Distinct identities written for the first time get distinct positions,
/// whatever their values.
pub proof fn lemma_distinct_identities<T>(
    stored: Seq<T>,
    cache: Seq<(u64, usize)>,
    id1: u64,
    id2: u64,
    v1: T,
    v2: T,
)
    requires
        stored.len() < usize::MAX,
        id1 != id2,
        cached_position(cache, id1) is None,
        cached_position(cache, id2) is None,
    ensures
        ({
            let (s1, c1, p1) = shared_step(stored, cache, id1, v1);
            let (s2, c2, p2) = shared_step(s1, c1, id2, v2);
            p1 != p2
        }),
{
    let (s1, c1, p1) = shared_step(stored, cache, id1, v1);
    assert(c1.drop_last() == cache);
}

} // verus!
