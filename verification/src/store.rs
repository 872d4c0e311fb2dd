//! The store capability the tracker runs against.
//!
//! The tracker holds no state of its own: everything lives in an external
//! key-value store reached through the [`AuxStore`] trait.  A conforming
//! store answers point lookups and applies a batch of writes and deletes
//! atomically: either the whole batch applies, or nothing changes.
//! [`MemoryStore`] is an in-memory store, used by tests and by callers that
//! do not need persistence.

use vstd::prelude::*;

use crate::types::TrackerError;

verus! {

/// The views of a sequence of byte-vector keys.
pub open spec fn keys_view(ks: Seq<Vec<u8>>) -> Seq<Seq<u8>> {
    ks.map_values(|k: Vec<u8>| k@)
}

/// The views of a sequence of byte-vector key-value pairs.
pub open spec fn pairs_view(ps: Seq<(Vec<u8>, Vec<u8>)>) -> Seq<(Seq<u8>, Seq<u8>)> {
    ps.map_values(|p: (Vec<u8>, Vec<u8>)| (p.0@, p.1@))
}

/// The map with every key of `ks` removed from `m`, one after the other.
pub open spec fn remove_all(m: Map<Seq<u8>, Seq<u8>>, ks: Seq<Seq<u8>>) -> Map<Seq<u8>, Seq<u8>>
    decreases ks.len(),
{
    if ks.len() == 0 {
        m
    } else {
        remove_all(m.remove(ks[0]), ks.skip(1))
    }
}

/// The map with every pair of `ps` inserted into `m`, in order.
pub open spec fn insert_all(
    m: Map<Seq<u8>, Seq<u8>>,
    ps: Seq<(Seq<u8>, Seq<u8>)>,
) -> Map<Seq<u8>, Seq<u8>>
    decreases ps.len(),
{
    if ps.len() == 0 {
        m
    } else {
        insert_all(m.insert(ps[0].0, ps[0].1), ps.skip(1))
    }
}

/// One atomic batch: the deletes applied first, then the inserts, in order.
pub open spec fn apply_batch(
    m: Map<Seq<u8>, Seq<u8>>,
    inserts: Seq<(Seq<u8>, Seq<u8>)>,
    deletes: Seq<Seq<u8>>,
) -> Map<Seq<u8>, Seq<u8>> {
    insert_all(remove_all(m, deletes), inserts)
}

/// Membership and values after a batch of removals: a key survives exactly
/// when it was present and is not deleted, and keeps its value.
pub proof fn lemma_remove_all(m: Map<Seq<u8>, Seq<u8>>, ks: Seq<Seq<u8>>, k: Seq<u8>)
    ensures
        remove_all(m, ks).contains_key(k) <==> (m.contains_key(k) && !ks.contains(k)),
        remove_all(m, ks).contains_key(k) ==> remove_all(m, ks)[k] == m[k],
    decreases ks.len(),
{
    if ks.len() > 0 {
        lemma_remove_all(m.remove(ks[0]), ks.skip(1), k);
        if k == ks[0] {
            assert(ks.contains(k));
        } else {
            if ks.contains(k) {
                let i = choose|i: int| 0 <= i < ks.len() && ks[i] == k;
                assert(ks.skip(1)[i - 1] == k);
                assert(ks.skip(1).contains(k));
            }
            if ks.skip(1).contains(k) {
                let i = choose|i: int| 0 <= i < ks.skip(1).len() && ks.skip(1)[i] == k;
                assert(ks[i + 1] == k);
                assert(ks.contains(k));
            }
        }
    }
}

/// Removing one more key removes it from the result.
pub proof fn lemma_remove_all_push(m: Map<Seq<u8>, Seq<u8>>, ks: Seq<Seq<u8>>, k: Seq<u8>)
    ensures
        remove_all(m, ks.push(k)) == remove_all(m, ks).remove(k),
    decreases ks.len(),
{
    reveal_with_fuel(remove_all, 3);
    if ks.len() == 0 {
        assert(ks.push(k).skip(1) =~= Seq::<Seq<u8>>::empty());
    } else {
        assert(ks.push(k).skip(1) =~= ks.skip(1).push(k));
        lemma_remove_all_push(m.remove(ks[0]), ks.skip(1), k);
    }
}

/// Inserting one more pair inserts it into the result.
pub proof fn lemma_insert_all_push(
    m: Map<Seq<u8>, Seq<u8>>,
    ps: Seq<(Seq<u8>, Seq<u8>)>,
    k: Seq<u8>,
    v: Seq<u8>,
)
    ensures
        insert_all(m, ps.push((k, v))) == insert_all(m, ps).insert(k, v),
    decreases ps.len(),
{
    reveal_with_fuel(insert_all, 3);
    if ps.len() == 0 {
        assert(ps.push((k, v)).skip(1) =~= Seq::<(Seq<u8>, Seq<u8>)>::empty());
    } else {
        assert(ps.push((k, v)).skip(1) =~= ps.skip(1).push((k, v)));
        lemma_insert_all_push(m.insert(ps[0].0, ps[0].1), ps.skip(1), k, v);
    }
}

/// A batch of exactly two inserts is the two insertions in order.
pub proof fn lemma_insert_all_two(m: Map<Seq<u8>, Seq<u8>>, ps: Seq<(Seq<u8>, Seq<u8>)>)
    requires
        ps.len() == 2,
    ensures
        insert_all(m, ps) == m.insert(ps[0].0, ps[0].1).insert(ps[1].0, ps[1].1),
{
    reveal_with_fuel(insert_all, 3);
    assert(ps.skip(1)[0] == ps[1]);
    assert(ps.skip(1).skip(1) =~= Seq::<(Seq<u8>, Seq<u8>)>::empty());
}

/// The minimal ordered-by-key-value store capability the tracker consumes.
///
/// The one demand beyond the meaning of lookup and batch write is atomicity:
/// a failed batch leaves the contents exactly as they were.  A store signals
/// its own failures as [`TrackerError::StoreUnavailable`]; judging whether a
/// stored value is well-formed is the tracker's business, not the store's.
pub trait AuxStore: Sized {
    /// The abstract contents of the store: a map from keys to stored values.
    spec fn contents(&self) -> Map<Seq<u8>, Seq<u8>>;

    /// Point lookup of the value stored under `key`.
    fn get_aux(&self, key: &[u8]) -> (r: Result<Option<Vec<u8>>, TrackerError>)
        ensures
            (r matches Ok(v) ==> v matches Some(bytes) ==> self.contents().contains_key(key@)
                && bytes@ == self.contents()[key@]),
            (r matches Ok(v) ==> v is None ==> !self.contents().contains_key(key@)),
            (r matches Err(e) ==> e == TrackerError::StoreUnavailable),
    ;

    /// Atomically apply `deletes`, then `inserts`, as one indivisible write.
    fn insert_aux(
        &mut self,
        inserts: &Vec<(Vec<u8>, Vec<u8>)>,
        deletes: &Vec<Vec<u8>>,
    ) -> (r: Result<(), TrackerError>)
        ensures
            (r is Ok ==> final(self).contents() == apply_batch(
                old(self).contents(),
                pairs_view(inserts@),
                keys_view(deletes@),
            )),
            (r matches Err(e) ==> e == TrackerError::StoreUnavailable && final(self).contents()
                == old(self).contents()),
    ;
}

/// Byte-wise equality of two byte strings.
fn bytes_eq(a: &[u8], b: &[u8]) -> (r: bool)
    ensures
        r == (a@ == b@),
{
    if a.len() != b.len() {
        return false;
    }
    let mut i: usize = 0;
    while i < a.len()
        invariant
            a@.len() == b@.len(),
            i <= a@.len(),
            forall|j: int| 0 <= j < i ==> a@[j] == b@[j],
        decreases a@.len() - i,
    {
        if a[i] != b[i] {
            return false;
        }
        i += 1;
    }
    proof {
        assert(a@ =~= b@);
    }
    true
}

/// A copy of a byte vector.
fn clone_bytes(v: &Vec<u8>) -> (r: Vec<u8>)
    ensures
        r@ == v@,
{
    let mut r: Vec<u8> = Vec::new();
    let mut i: usize = 0;
    while i < v.len()
        invariant
            i <= v@.len(),
            r@ == v@.take(i as int),
        decreases v@.len() - i,
    {
        r.push(v[i]);
        proof {
            assert(v@.take(i as int).push(v@[i as int]) =~= v@.take(i + 1));
        }
        i += 1;
    }
    proof {
        assert(v@.take(v@.len() as int) =~= v@);
    }
    r
}

/// No two entries of an association list share a key.
spec fn uniq_keys(s: Seq<(Vec<u8>, Vec<u8>)>) -> bool {
    forall|i: int, j: int| #![auto] 0 <= i < j < s.len() ==> s[i].0@ != s[j].0@
}

/// The map an association list represents.
spec fn assoc_map(s: Seq<(Vec<u8>, Vec<u8>)>) -> Map<Seq<u8>, Seq<u8>>
    decreases s.len(),
{
    if s.len() == 0 {
        Map::<Seq<u8>, Seq<u8>>::empty()
    } else {
        assoc_map(s.drop_last()).insert(s.last().0@, s.last().1@)
    }
}

/// A key under which no entry is listed is absent from the map.
proof fn lemma_assoc_absent(s: Seq<(Vec<u8>, Vec<u8>)>, k: Seq<u8>)
    requires
        forall|i: int| #![auto] 0 <= i < s.len() ==> s[i].0@ != k,
    ensures
        !assoc_map(s).contains_key(k),
    decreases s.len(),
{
    if s.len() > 0 {
        lemma_assoc_absent(s.drop_last(), k);
    }
}

/// An entry's key maps to its value when keys are unique.
proof fn lemma_assoc_found(s: Seq<(Vec<u8>, Vec<u8>)>, i: int)
    requires
        uniq_keys(s),
        0 <= i < s.len(),
    ensures
        assoc_map(s).contains_key(s[i].0@),
        assoc_map(s)[s[i].0@] == s[i].1@,
    decreases s.len(),
{
    if i < s.len() - 1 {
        lemma_assoc_found(s.drop_last(), i);
    }
}

/// Removing the entry at index `i` removes exactly its key from the map.
proof fn lemma_assoc_remove(s: Seq<(Vec<u8>, Vec<u8>)>, i: int)
    requires
        uniq_keys(s),
        0 <= i < s.len(),
    ensures
        assoc_map(s.remove(i)) == assoc_map(s).remove(s[i].0@),
    decreases s.len(),
{
    if i == s.len() - 1 {
        assert(s.remove(i) =~= s.drop_last());
        lemma_assoc_absent(s.drop_last(), s[i].0@);
        assert(assoc_map(s.drop_last()) =~= assoc_map(s).remove(s[i].0@));
    } else {
        lemma_assoc_remove(s.drop_last(), i);
        assert(s.remove(i).drop_last() =~= s.drop_last().remove(i));
        assert(s.remove(i).last() == s.last());
        assert(assoc_map(s.drop_last()).remove(s[i].0@).insert(s.last().0@, s.last().1@)
            =~= assoc_map(s.drop_last()).insert(s.last().0@, s.last().1@).remove(s[i].0@));
    }
}

/// Remove the entry stored under `key`, if any.
fn vec_remove_key(entries: &mut Vec<(Vec<u8>, Vec<u8>)>, key: &[u8])
    requires
        uniq_keys(old(entries)@),
    ensures
        uniq_keys(final(entries)@),
        assoc_map(final(entries)@) == assoc_map(old(entries)@).remove(key@),
        forall|i: int| #![auto] 0 <= i < final(entries)@.len() ==> final(entries)@[i].0@ != key@,
{
    let mut i: usize = 0;
    while i < entries.len()
        invariant
            entries@ == old(entries)@,
            uniq_keys(entries@),
            i <= entries@.len(),
            forall|j: int| #![auto] 0 <= j < i ==> entries@[j].0@ != key@,
        decreases entries@.len() - i,
    {
        if bytes_eq(entries[i].0.as_slice(), key) {
            let ghost s0 = entries@;
            proof {
                lemma_assoc_remove(entries@, i as int);
            }
            let _ = entries.remove(i);
            proof {
                assert forall|j: int| #![auto] 0 <= j < entries@.len() implies entries@[j].0@
                    != key@ by {
                    if j >= i {
                        assert(entries@[j] == s0[j + 1]);
                    }
                }
                assert forall|j1: int, j2: int| #![auto] 0 <= j1 < j2 < entries@.len()
                    implies entries@[j1].0@ != entries@[j2].0@ by {
                    let k1: int = if j1 < i { j1 } else { j1 + 1 };
                    let k2: int = if j2 < i { j2 } else { j2 + 1 };
                    assert(entries@[j1] == s0[k1]);
                    assert(entries@[j2] == s0[k2]);
                }
            }
            return ;
        }
        i += 1;
    }
    proof {
        lemma_assoc_absent(entries@, key@);
        assert(assoc_map(entries@) =~= assoc_map(entries@).remove(key@));
    }
}

/// Store `val` under `key`, replacing any entry already there.
fn vec_insert_pair(entries: &mut Vec<(Vec<u8>, Vec<u8>)>, key: &Vec<u8>, val: &Vec<u8>)
    requires
        uniq_keys(old(entries)@),
    ensures
        uniq_keys(final(entries)@),
        assoc_map(final(entries)@) == assoc_map(old(entries)@).insert(key@, val@),
{
    vec_remove_key(entries, key.as_slice());
    let ghost mid = entries@;
    entries.push((clone_bytes(key), clone_bytes(val)));
    proof {
        assert(entries@.drop_last() =~= mid);
        assert(assoc_map(entries@) == assoc_map(mid).insert(key@, val@));
    }
}

/// An in-memory [`AuxStore`]: an association list of byte keys and values,
/// with at most one entry per key.
pub struct MemoryStore {
    entries: Vec<(Vec<u8>, Vec<u8>)>,
}

impl MemoryStore {
    #[verifier::type_invariant]
    spec fn wf(self) -> bool {
        uniq_keys(self.entries@)
    }

    /// An empty store.
    pub fn new() -> (s: Self)
        ensures
            s.contents() == Map::<Seq<u8>, Seq<u8>>::empty(),
    {
        MemoryStore { entries: Vec::new() }
    }
}

impl AuxStore for MemoryStore {
    closed spec fn contents(&self) -> Map<Seq<u8>, Seq<u8>> {
        assoc_map(self.entries@)
    }

    fn get_aux(&self, key: &[u8]) -> (r: Result<Option<Vec<u8>>, TrackerError>) {
        proof {
            use_type_invariant(self);
        }
        let mut i: usize = 0;
        while i < self.entries.len()
            invariant
                uniq_keys(self.entries@),
                i <= self.entries@.len(),
                forall|j: int| #![auto] 0 <= j < i ==> self.entries@[j].0@ != key@,
            decreases self.entries@.len() - i,
        {
            if bytes_eq(self.entries[i].0.as_slice(), key) {
                proof {
                    lemma_assoc_found(self.entries@, i as int);
                }
                return Ok(Some(clone_bytes(&self.entries[i].1)));
            }
            i += 1;
        }
        proof {
            lemma_assoc_absent(self.entries@, key@);
        }
        Ok(None)
    }

    fn insert_aux(
        &mut self,
        inserts: &Vec<(Vec<u8>, Vec<u8>)>,
        deletes: &Vec<Vec<u8>>,
    ) -> (r: Result<(), TrackerError>) {
        proof {
            use_type_invariant(&*self);
        }
        let mut entries: Vec<(Vec<u8>, Vec<u8>)> = Vec::new();
        core::mem::swap(&mut entries, &mut self.entries);
        let ghost m0 = assoc_map(entries@);
        let mut i: usize = 0;
        proof {
            assert(keys_view(deletes@).take(0) =~= Seq::<Seq<u8>>::empty());
        }
        while i < deletes.len()
            invariant
                uniq_keys(entries@),
                i <= deletes@.len(),
                assoc_map(entries@) == remove_all(m0, keys_view(deletes@).take(i as int)),
            decreases deletes@.len() - i,
        {
            vec_remove_key(&mut entries, deletes[i].as_slice());
            proof {
                lemma_remove_all_push(m0, keys_view(deletes@).take(i as int), deletes@[i as int]@);
                assert(keys_view(deletes@).take(i as int).push(deletes@[i as int]@) =~= keys_view(
                    deletes@,
                ).take(i + 1));
            }
            i += 1;
        }
        let ghost m1 = assoc_map(entries@);
        proof {
            assert(keys_view(deletes@).take(deletes@.len() as int) =~= keys_view(deletes@));
        }
        let ghost ins = pairs_view(inserts@);
        let mut j: usize = 0;
        proof {
            assert(ins.take(0) =~= Seq::<(Seq<u8>, Seq<u8>)>::empty());
        }
        while j < inserts.len()
            invariant
                uniq_keys(entries@),
                j <= inserts@.len(),
                ins == pairs_view(inserts@),
                assoc_map(entries@) == insert_all(m1, ins.take(j as int)),
            decreases inserts@.len() - j,
        {
            vec_insert_pair(&mut entries, &inserts[j].0, &inserts[j].1);
            proof {
                lemma_insert_all_push(
                    m1,
                    ins.take(j as int),
                    inserts@[j as int].0@,
                    inserts@[j as int].1@,
                );
                assert(ins.take(j as int).push((inserts@[j as int].0@, inserts@[j as int].1@))
                    =~= ins.take(j + 1));
            }
            j += 1;
        }
        proof {
            assert(ins.take(inserts@.len() as int) =~= ins);
        }
        self.entries = entries;
        Ok(())
    }
}

/// A store whose backing device is gone: every operation fails with
/// [`TrackerError::StoreUnavailable`] and nothing is ever stored.  What a
/// closed or detached backend looks like to the tracker.
pub struct UnavailableStore {}

impl UnavailableStore {
    /// A store that will answer nothing.
    pub fn new() -> (s: Self) {
        UnavailableStore {  }
    }
}

impl AuxStore for UnavailableStore {
    closed spec fn contents(&self) -> Map<Seq<u8>, Seq<u8>> {
        Map::<Seq<u8>, Seq<u8>>::empty()
    }

    fn get_aux(&self, key: &[u8]) -> (r: Result<Option<Vec<u8>>, TrackerError>) {
        Err(TrackerError::StoreUnavailable)
    }

    fn insert_aux(
        &mut self,
        inserts: &Vec<(Vec<u8>, Vec<u8>)>,
        deletes: &Vec<Vec<u8>>,
    ) -> (r: Result<(), TrackerError>) {
        Err(TrackerError::StoreUnavailable)
    }
}

} // verus!
