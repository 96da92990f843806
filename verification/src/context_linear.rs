//! The linear backing of the reversible binding environment.
//!
//! A [`Context`] maps binder identifiers to bound values.  This backing
//! stores the bindings in an append-only sequence of optional
//! `(key, value)` slots: `insert` reuses the first slot that is empty or
//! already holds the key, `get` scans for the first slot holding the key.
//! [`Context::with`] inserts a binding and returns a [`Guard`] that, when
//! released, restores the slot it took, so the prior binding (or the
//! prior absence of one) comes back.
//!
//! The abstract content of a context is the finite map [`slots_map`]
//! induced by its slots; every operation is specified against that map,
//! which is also the view of the hash-indexed backing, so the two
//! backings are observably interchangeable (see
//! [`lemma_backing_equivalence`]).

use vstd::prelude::*;

verus! {

use vstd::pervasive::VecAdditionalExecFns;

/// The mathematical content of one slot: its key together with the
/// view of its value.
pub open spec fn entry_view<V: View>(e: Option<(usize, V)>) -> Option<(usize, V::V)> {
    match e {
        Some((k, v)) => Some((k, v@)),
        None => None,
    }
}

/// The slot sequence with every value replaced by its view.
pub open spec fn slots_view<V: View>(s: Seq<Option<(usize, V)>>) -> Seq<Option<(usize, V::V)>> {
    s.map_values(|e: Option<(usize, V)>| entry_view(e))
}

/// The binding table induced by a slot sequence: the earliest slot that
/// holds a key binds it.
pub open spec fn slots_map<T>(s: Seq<Option<(usize, T)>>) -> Map<usize, T>
    decreases s.len(),
{
    if s.len() == 0 {
        Map::empty()
    } else {
        match s[0] {
            None => slots_map(s.skip(1)),
            Some((k, v)) => slots_map(s.skip(1)).insert(k, v),
        }
    }
}

/// Whether a slot can receive a binding for `key`: it is empty or it
/// already holds `key`.
pub open spec fn slot_matches<T>(e: Option<(usize, T)>, key: usize) -> bool {
    match e {
        Some((k, _)) => k == key,
        None => true,
    }
}

/// Whether a slot holds a binding for `key`.
pub open spec fn slot_has_key<T>(e: Option<(usize, T)>, key: usize) -> bool {
    match e {
        Some((k, _)) => k == key,
        None => false,
    }
}

/// The index of the first slot that is empty or holds `key`; the length
/// of the sequence if there is none.
pub open spec fn find_slot<T>(s: Seq<Option<(usize, T)>>, key: usize) -> int
    decreases s.len(),
{
    if s.len() == 0 {
        0
    } else if slot_matches(s[0], key) {
        0
    } else {
        1 + find_slot(s.skip(1), key)
    }
}

/// The slot sequence after inserting a binding for `key`: the first slot
/// that is empty or holds `key` is overwritten; if there is none, a new
/// slot is appended.
pub open spec fn insert_slots<T>(s: Seq<Option<(usize, T)>>, key: usize, value: T) -> Seq<
    Option<(usize, T)>,
> {
    let i = find_slot(s, key);
    if i < s.len() {
        s.update(i, Some((key, value)))
    } else {
        s.push(Some((key, value)))
    }
}

/// Whether this slot can receive a binding for `key`: it is empty or it
/// already holds `key`.  This is the scan predicate of [`Context::insert`].
pub fn matches_key_or_empty<V: View>(key: usize, entry: &Option<(usize, V)>) -> (r: bool)
    ensures
        r == slot_matches(entry_view(*entry), key),
{
    match entry {
        Some(p) => p.0 == key,
        None => true,
    }
}

proof fn lemma_find_slot_bounds<T>(s: Seq<Option<(usize, T)>>, key: usize)
    ensures
        0 <= find_slot(s, key) <= s.len(),
        find_slot(s, key) < s.len() ==> slot_matches(s[find_slot(s, key)], key),
        forall|j: int| 0 <= j < find_slot(s, key) ==> !slot_matches(s[j], key),
    decreases s.len(),
{
    if s.len() == 0 {
    } else if slot_matches(s[0], key) {
    } else {
        lemma_find_slot_bounds(s.skip(1), key);
        assert forall|j: int| 0 <= j < find_slot(s, key) implies !slot_matches(s[j], key) by {
            if j > 0 {
                assert(s.skip(1)[j - 1] == s[j]);
            }
        }
    }
}

proof fn lemma_slots_map_first_hit<T>(s: Seq<Option<(usize, T)>>, key: usize, i: int, v: T)
    requires
        0 <= i < s.len(),
        s[i] == Some((key, v)),
        forall|j: int| 0 <= j < i ==> !slot_has_key(s[j], key),
    ensures
        slots_map(s).contains_key(key),
        slots_map(s)[key] == v,
    decreases s.len(),
{
    if i == 0 {
    } else {
        assert forall|j: int| 0 <= j < i - 1 implies !slot_has_key(s.skip(1)[j], key) by {
            assert(s.skip(1)[j] == s[j + 1]);
        }
        assert(s.skip(1)[i - 1] == s[i]);
        lemma_slots_map_first_hit(s.skip(1), key, i - 1, v);
        assert(!slot_has_key(s[0], key));
    }
}

proof fn lemma_slots_map_no_hit<T>(s: Seq<Option<(usize, T)>>, key: usize)
    requires
        forall|j: int| 0 <= j < s.len() ==> !slot_has_key(s[j], key),
    ensures
        !slots_map(s).contains_key(key),
    decreases s.len(),
{
    if s.len() == 0 {
    } else {
        assert forall|j: int| 0 <= j < s.skip(1).len() implies !slot_has_key(
            s.skip(1)[j],
            key,
        ) by {
            assert(s.skip(1)[j] == s[j + 1]);
        }
        lemma_slots_map_no_hit(s.skip(1), key);
        assert(!slot_has_key(s[0], key));
    }
}

/// Inserting through the slot scan changes the induced binding table the
/// same way a plain map insertion does.
pub proof fn lemma_insert_slots_map<T>(s: Seq<Option<(usize, T)>>, key: usize, value: T)
    ensures
        slots_map(insert_slots(s, key, value)) == slots_map(s).insert(key, value),
    decreases s.len(),
{
    lemma_find_slot_bounds(s, key);
    let i = find_slot(s, key);
    let s2 = insert_slots(s, key, value);
    if s.len() == 0 {
        assert(s2 =~= seq![Some((key, value))]);
        let empty = Seq::<Option<(usize, T)>>::empty();
        assert(s2.skip(1) =~= empty);
        assert(slots_map(empty) == Map::<usize, T>::empty());
        assert(slots_map(s2) == slots_map(empty).insert(key, value));
        assert(slots_map(s2) =~= slots_map(s).insert(key, value));
    } else if i == 0 {
        assert(s2 == s.update(0, Some((key, value))));
        assert(s2.skip(1) =~= s.skip(1));
        assert(s2[0] == Some((key, value)));
        assert(slots_map(s2) == slots_map(s2.skip(1)).insert(key, value));
        match s[0] {
            None => {
                assert(slots_map(s) == slots_map(s.skip(1)));
                assert(slots_map(s2) =~= slots_map(s).insert(key, value));
            },
            Some((k0, v0)) => {
                assert(k0 == key);
                assert(slots_map(s) == slots_map(s.skip(1)).insert(k0, v0));
                assert(slots_map(s2) =~= slots_map(s).insert(key, value));
            },
        }
    } else {
        lemma_insert_slots_map(s.skip(1), key, value);
        assert(find_slot(s.skip(1), key) == i - 1);
        assert(s2.skip(1) =~= insert_slots(s.skip(1), key, value));
        assert(s2[0] == s[0]);
        assert(s2.len() > 0);
        match s[0] {
            None => {
                assert(false);
            },
            Some((k0, v0)) => {
                assert(k0 != key);
                assert(slots_map(s2) == slots_map(s2.skip(1)).insert(k0, v0));
                assert(slots_map(s2.skip(1)) == slots_map(s.skip(1)).insert(key, value));
                assert(slots_map(s) == slots_map(s.skip(1)).insert(k0, v0));
                assert(slots_map(s2) =~= slots_map(s).insert(key, value));
            },
        }
    }
}

/// `s2` is `s1` with only empty slots appended and nothing else changed.
/// This is how a balanced sequence of scoped insertions and releases can
/// leave a slot table: released appended slots stay behind as empty
/// slots.
pub open spec fn extends_with_nones<T>(
    s1: Seq<Option<(usize, T)>>,
    s2: Seq<Option<(usize, T)>>,
) -> bool {
    &&& s1.len() <= s2.len()
    &&& forall|j: int| 0 <= j < s1.len() ==> s2[j] == s1[j]
    &&& forall|j: int| s1.len() <= j < s2.len() ==> s2[j] is None
}

/// Trailing empty slots do not change the induced binding table.
pub proof fn lemma_slots_map_pad<T>(s1: Seq<Option<(usize, T)>>, s2: Seq<Option<(usize, T)>>)
    requires
        extends_with_nones(s1, s2),
    ensures
        slots_map(s2) == slots_map(s1),
    decreases s2.len(),
{
    if s2.len() == s1.len() {
        assert(s2 =~= s1);
    } else {
        let s2p = s2.drop_last();
        assert(extends_with_nones(s1, s2p));
        lemma_slots_map_pad(s1, s2p);
        assert(s2 =~= s2p.push(None));
        lemma_slots_map_push_none(s2p);
    }
}

/// Appending an empty slot does not change the induced binding table.
pub proof fn lemma_slots_map_push_none<T>(s: Seq<Option<(usize, T)>>)
    ensures
        slots_map(s.push(None)) == slots_map(s),
    decreases s.len(),
{
    let p = s.push(None);
    if s.len() == 0 {
        let empty = Seq::<Option<(usize, T)>>::empty();
        assert(p.skip(1) =~= empty);
        assert(p[0] is None);
        assert(slots_map(empty) == Map::<usize, T>::empty());
        assert(slots_map(p) == slots_map(empty));
        assert(slots_map(s) == Map::<usize, T>::empty());
    } else {
        assert(p.skip(1) =~= s.skip(1).push(None));
        lemma_slots_map_push_none(s.skip(1));
        assert(p[0] == s[0]);
        assert(slots_map(p.skip(1)) == slots_map(s.skip(1)));
        match s[0] {
            None => {
                assert(slots_map(p) == slots_map(p.skip(1)));
                assert(slots_map(s) == slots_map(s.skip(1)));
            },
            Some((k0, v0)) => {
                assert(slots_map(p) == slots_map(p.skip(1)).insert(k0, v0));
                assert(slots_map(s) == slots_map(s.skip(1)).insert(k0, v0));
            },
        }
    }
}

/// A reversible binding environment backed by an append-only sequence of
/// optional `(key, value)` slots.
pub struct Context<V> {
    slots: Vec<Option<(usize, V)>>,
}

/// The saved state of one scoped insertion: the slot index the insertion
/// took and the entry that slot held before.  Releasing the guard puts
/// the entry back, so the context returns to its prior binding table.
pub struct Guard<V> {
    /// The index of the slot the insertion overwrote or appended.
    pub index: usize,
    /// What that slot held before the insertion.
    pub entry: Option<(usize, V)>,
}

impl<V: View> View for Context<V> {
    type V = Map<usize, V::V>;

    closed spec fn view(&self) -> Map<usize, V::V> {
        slots_map(slots_view(self.slots@))
    }
}

impl<V> Context<V> {
    /// The raw slot sequence, for slot-level specifications.
    pub closed spec fn slots_seq(&self) -> Seq<Option<(usize, V)>> {
        self.slots@
    }
}

impl<V: View> Default for Context<V> {
    /// An empty context: no slots, no bindings.
    fn default() -> (r: Self)
        ensures
            r.slots_seq() == Seq::<Option<(usize, V)>>::empty(),
            r@ == Map::<usize, V::V>::empty(),
    {
        let r = Context { slots: Vec::new() };
        proof {
            assert(slots_view(r.slots@) =~= Seq::<Option<(usize, V::V)>>::empty());
        }
        r
    }
}

impl<V: View> Context<V> {
    /// The view of a context is the binding table its slots induce.
    pub proof fn lemma_view_is_slots_map(&self)
        ensures
            self@ == slots_map(slots_view(self.slots_seq())),
    {
    }

    /// Look up the most recent binding for `key`.
    pub fn get(&self, key: &usize) -> (r: Option<&V>)
        ensures
            match r {
                Some(v) => self@.contains_key(*key) && v@ == self@[*key],
                None => !self@.contains_key(*key),
            },
    {
        let ghost sv = slots_view(self.slots@);
        let mut i: usize = 0;
        while i < self.slots.len()
            invariant
                i <= self.slots.len(),
                sv == slots_view(self.slots@),
                forall|j: int| 0 <= j < i ==> !slot_has_key(sv[j], *key),
            decreases self.slots.len() - i,
        {
            match &self.slots[i] {
                Some(p) => {
                    if p.0 == *key {
                        proof {
                            assert(sv[i as int] == entry_view(self.slots@[i as int]));
                            lemma_slots_map_first_hit(sv, *key, i as int, p.1@);
                        }
                        return Some(&p.1);
                    }
                },
                None => {},
            }
            proof {
                assert(sv[i as int] == entry_view(self.slots@[i as int]));
                assert(!slot_has_key(sv[i as int], *key));
            }
            i = i + 1;
        }
        proof {
            lemma_slots_map_no_hit(sv, *key);
        }
        None
    }

    /// Insert or overwrite the binding for `key`, reusing the first slot
    /// that is empty or already holds `key`.  Returns the index of the
    /// slot taken and what it held before; this pair is what a scoped
    /// insertion must put back to undo the operation.
    pub fn insert(&mut self, key: usize, value: V) -> (r: (usize, Option<(usize, V)>))
        ensures
            ({
                let s0 = slots_view(old(self).slots_seq());
                &&& r.0 as int == find_slot(s0, key)
                &&& entry_view(r.1) == (if find_slot(s0, key) < s0.len() {
                    s0[find_slot(s0, key)]
                } else {
                    None::<(usize, V::V)>
                })
                &&& slots_view(final(self).slots_seq()) == insert_slots(s0, key, value@)
                &&& final(self)@ == old(self)@.insert(key, value@)
            }),
    {
        let ghost s0 = slots_view(self.slots@);
        proof {
            lemma_find_slot_bounds(s0, key);
            lemma_insert_slots_map(s0, key, value@);
        }
        let i = self.scan(key);
        if i < self.slots.len() {
            let ghost pre = self.slots@;
            let mut entry = Some((key, value));
            self.slots.set_and_swap(i, &mut entry);
            proof {
                assert(entry == pre[i as int]);
                assert(entry_view(entry) == s0[i as int]);
                assert(slots_view(self.slots@) =~= insert_slots(s0, key, value@));
            }
            (i, entry)
        } else {
            self.slots.push(Some((key, value)));
            proof {
                assert(slots_view(self.slots@) =~= insert_slots(s0, key, value@));
            }
            (i, None)
        }
    }

    /// The index of the first slot that is empty or holds `key`; the
    /// number of slots if there is none.
    fn scan(&self, key: usize) -> (r: usize)
        ensures
            r as int == find_slot(slots_view(self.slots_seq()), key),
    {
        let ghost s0 = slots_view(self.slots@);
        proof {
            lemma_find_slot_bounds(s0, key);
        }
        let mut i: usize = 0;
        while i < self.slots.len()
            invariant
                i <= self.slots.len(),
                s0 == slots_view(self.slots@),
                forall|j: int| 0 <= j < i ==> !slot_matches(s0[j], key),
            decreases self.slots.len() - i,
        {
            let hit = matches_key_or_empty(key, &self.slots[i]);
            proof {
                assert(s0[i as int] == entry_view(self.slots@[i as int]));
            }
            if hit {
                proof {
                    assert(find_slot(s0, key) == i as int) by {
                        lemma_find_slot_bounds(s0, key);
                    }
                }
                return i;
            }
            i = i + 1;
        }
        proof {
            assert(find_slot(s0, key) == s0.len()) by {
                lemma_find_slot_bounds(s0, key);
            }
        }
        i
    }

    /// Insert or overwrite the binding for `key` and return a [`Guard`]
    /// holding what the operation displaced.  While the guard is alive
    /// the context reflects the new binding; releasing the guard restores
    /// the slot, and with it the prior binding table.
    pub fn with(&mut self, key: usize, value: V) -> (g: Guard<V>)
        ensures
            ({
                let s0 = slots_view(old(self).slots_seq());
                &&& g.index as int == find_slot(s0, key)
                &&& entry_view(g.entry) == (if find_slot(s0, key) < s0.len() {
                    s0[find_slot(s0, key)]
                } else {
                    None::<(usize, V::V)>
                })
                &&& slots_view(final(self).slots_seq()) == insert_slots(s0, key, value@)
                &&& final(self)@ == old(self)@.insert(key, value@)
                &&& g.index as int <= s0.len()
                &&& (g.index as int) < final(self).slots_seq().len()
            }),
    {
        proof {
            lemma_find_slot_bounds(slots_view(self.slots@), key);
        }
        let old_entry = self.insert(key, value);
        Guard { index: old_entry.0, entry: old_entry.1 }
    }
}

/// A value that can be duplicated without changing its mathematical
/// content.  Context values implement this so that a context can be
/// snapshotted before a structural recursion that must not observe
/// mutations from sibling branches.
pub trait DupValue: View + Sized {
    /// An exact copy of the value.
    fn dup(&self) -> (r: Self)
        ensures
            r@ == self@,
    ;
}

impl DupValue for usize {
    fn dup(&self) -> (r: Self) {
        *self
    }
}

impl<V: DupValue> Context<V> {
    /// A copy of the context with the same slots and the same binding
    /// table.
    pub fn dup(&self) -> (r: Self)
        ensures
            slots_view(r.slots_seq()) == slots_view(self.slots_seq()),
            r@ == self@,
    {
        let ghost sv = slots_view(self.slots@);
        let mut slots: Vec<Option<(usize, V)>> = Vec::new();
        let mut i: usize = 0;
        while i < self.slots.len()
            invariant
                i <= self.slots.len(),
                sv == slots_view(self.slots@),
                slots_view(slots@) == sv.subrange(0, i as int),
            decreases self.slots.len() - i,
        {
            proof {
                assert(sv[i as int] == entry_view(self.slots@[i as int]));
            }
            match &self.slots[i] {
                Some(p) => {
                    let k = p.0;
                    let v = p.1.dup();
                    let ghost pre = slots@;
                    slots.push(Some((k, v)));
                    proof {
                        assert(slots_view(pre).len() == pre.len());
                        assert(pre.len() == i as int);
                        assert(entry_view(slots@.last()) == sv[i as int]);
                        assert forall|j: int| 0 <= j < i as int + 1 implies slots_view(slots@)[j]
                            == sv.subrange(0, i as int + 1)[j] by {
                            assert(slots_view(slots@)[j] == entry_view(slots@[j]));
                            if j < i as int {
                                assert(slots@[j] == pre[j]);
                                assert(slots_view(pre)[j] == entry_view(pre[j]));
                            }
                        }
                        assert(slots_view(slots@) =~= sv.subrange(0, i as int + 1));
                    }
                },
                None => {
                    let ghost pre = slots@;
                    slots.push(None);
                    proof {
                        assert(slots_view(pre).len() == pre.len());
                        assert(pre.len() == i as int);
                        assert(entry_view(slots@.last()) == sv[i as int]);
                        assert forall|j: int| 0 <= j < i as int + 1 implies slots_view(slots@)[j]
                            == sv.subrange(0, i as int + 1)[j] by {
                            assert(slots_view(slots@)[j] == entry_view(slots@[j]));
                            if j < i as int {
                                assert(slots@[j] == pre[j]);
                                assert(slots_view(pre)[j] == entry_view(pre[j]));
                            }
                        }
                        assert(slots_view(slots@) =~= sv.subrange(0, i as int + 1));
                    }
                },
            }
            i = i + 1;
        }
        proof {
            assert(sv.subrange(0, sv.len() as int) =~= sv);
        }
        Context { slots }
    }
}

impl<V: View> Guard<V> {
    /// Release the guard: put the displaced entry back into the slot the
    /// scoped insertion took.  For the guard returned by
    /// [`Context::with`] this restores the prior binding table exactly
    /// (see [`lemma_with_release_round_trip`]).
    pub fn release(self, ctx: &mut Context<V>)
        requires
            (self.index as int) < old(ctx).slots_seq().len(),
        ensures
            slots_view(final(ctx).slots_seq()) == slots_view(old(ctx).slots_seq()).update(
                self.index as int,
                entry_view(self.entry),
            ),
    {
        let ghost s0 = slots_view(ctx.slots@);
        ctx.slots.set(self.index, self.entry);
        proof {
            assert(slots_view(ctx.slots@) =~= s0.update(self.index as int, entry_view(self.entry)));
        }
    }
}

/// Context round-trip and shadow-restore law for this backing: inserting
/// a binding through `with` and then releasing the guard restores the
/// binding table exactly.  While the guard is alive the table shows the
/// new value.
pub proof fn lemma_with_release_round_trip<T>(s: Seq<Option<(usize, T)>>, key: usize, value: T)
    ensures
        ({
            let i = find_slot(s, key);
            let s1 = insert_slots(s, key, value);
            let restored = s1.update(i, if i < s.len() { s[i] } else { None });
            &&& slots_map(restored) == slots_map(s)
            &&& slots_map(s1) == slots_map(s).insert(key, value)
            &&& slots_map(s1)[key] == value
        }),
{
    lemma_find_slot_bounds(s, key);
    lemma_insert_slots_map(s, key, value);
    let i = find_slot(s, key);
    let s1 = insert_slots(s, key, value);
    if i < s.len() {
        let restored = s1.update(i, s[i]);
        assert(restored =~= s);
    } else {
        let restored = s1.update(i, None);
        assert(restored =~= s.push(None));
        lemma_slots_map_push_none(s);
    }
}

/// A scoped insertion, any balanced activity in between (which may only
/// append empty slots beyond the insertion's state), and the release of
/// the guard restore the binding table exactly.
pub proof fn lemma_scoped_restore<T>(
    s0: Seq<Option<(usize, T)>>,
    s2: Seq<Option<(usize, T)>>,
    key: usize,
    value: T,
)
    requires
        extends_with_nones(insert_slots(s0, key, value), s2),
    ensures
        ({
            let istar = find_slot(s0, key);
            let entry = if istar < s0.len() {
                s0[istar]
            } else {
                None
            };
            let s3 = s2.update(istar, entry);
            &&& extends_with_nones(s0, s3)
            &&& slots_map(s3) == slots_map(s0)
        }),
{
    lemma_find_slot_bounds(s0, key);
    let istar = find_slot(s0, key);
    let s1 = insert_slots(s0, key, value);
    let entry = if istar < s0.len() {
        s0[istar]
    } else {
        None
    };
    let s3 = s2.update(istar, entry);
    assert forall|j: int| 0 <= j < s0.len() implies s3[j] == s0[j] by {
        if j != istar {
            assert(s2[j] == s1[j]);
            assert(s1[j] == s0[j]);
        }
    }
    assert forall|j: int| s0.len() <= j < s3.len() implies s3[j] is None by {
        if j != istar {
            if j >= s1.len() {
                assert(s2[j] is None);
            } else {
                assert(istar == s0.len() && j == s0.len());
            }
        }
    }
    lemma_slots_map_pad(s0, s3);
}

/// Backing equivalence law: if the hash-indexed backing's map and the
/// linear backing's slots induce the same binding table, then `get`
/// answers the same on both (its result is a function of that table),
/// `insert` and `with` take both to the same table again, and a `with`
/// followed by its release takes both back to the table they started
/// from.  By induction, any finite sequence of `insert`/`with`/`get`
/// operations keeps the two backings observably identical.
pub proof fn lemma_backing_equivalence<T>(
    m: Map<usize, T>,
    s: Seq<Option<(usize, T)>>,
    key: usize,
    value: T,
)
    requires
        m == slots_map(s),
    ensures
        slots_map(insert_slots(s, key, value)) == m.insert(key, value),
        ({
            let i = find_slot(s, key);
            let s1 = insert_slots(s, key, value);
            let restored = s1.update(i, if i < s.len() { s[i] } else { None });
            slots_map(restored) == m
        }),
{
    lemma_insert_slots_map(s, key, value);
    lemma_with_release_round_trip(s, key, value);
}

} // verus!
