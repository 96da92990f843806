//! The hash-indexed backing of the reversible binding environment.
//!
//! A [`Context`] maps binder identifiers to bound values through a
//! key-to-value hash table.  [`Context::with`] overwrites the binding
//! for a key in a single lookup-or-insert pass and returns a [`Guard`]
//! remembering the displaced value; releasing the guard puts the prior
//! value back, or removes the key if it was unbound before.
//!
//! The view of a context is the finite map of its bindings, the same
//! abstraction the linear backing presents, so the two backings are
//! observably interchangeable for every sequence of
//! `insert`/`with`/`get` operations.

use vstd::prelude::*;

verus! {

use std::collections::HashMap;

broadcast use vstd::std_specs::hash::group_hash_axioms;

/// A reversible binding environment backed by a key-to-value hash table.
pub struct Context<V> {
    table: HashMap<usize, V>,
}

/// The saved state of one scoped insertion: the key it bound and the
/// value that key held before, if any.  Releasing the guard restores
/// that state.
pub struct Guard<V> {
    /// The key the scoped insertion bound.
    pub key: usize,
    /// The value the key held before, or `None` if it was unbound.
    pub old_value: Option<V>,
}

impl<V: View> View for Context<V> {
    type V = Map<usize, V::V>;

    closed spec fn view(&self) -> Map<usize, V::V> {
        self.table@.map_values(|v: V| v@)
    }
}

impl<V: View> Default for Context<V> {
    /// An empty context: no bindings.
    fn default() -> (r: Self)
        ensures
            r@ == Map::<usize, V::V>::empty(),
    {
        let r = Context { table: HashMap::new() };
        proof {
            assert(r@ =~= Map::<usize, V::V>::empty());
        }
        r
    }
}

impl<V: View> Context<V> {
    /// Look up the binding for `key`.
    pub fn get(&self, key: &usize) -> (r: Option<&V>)
        ensures
            match r {
                Some(v) => self@.contains_key(*key) && v@ == self@[*key],
                None => !self@.contains_key(*key),
            },
    {
        self.table.get(key)
    }

    /// Insert or overwrite the binding for `key`.  The binding persists
    /// until it is overwritten again or the context is dropped.
    pub fn insert(&mut self, key: usize, value: V)
        ensures
            final(self)@ == old(self)@.insert(key, value@),
    {
        self.table.insert(key, value);
        proof {
            assert(self@ =~= old(self)@.insert(key, value@));
        }
    }

    /// Insert or overwrite the binding for `key` in a single
    /// lookup-or-insert pass, and return a [`Guard`] holding the value
    /// the key had before, if any.  While the guard is alive the context
    /// reflects the new binding; releasing the guard restores the prior
    /// state exactly.
    pub fn with(&mut self, key: usize, value: V) -> (g: Guard<V>)
        ensures
            g.key == key,
            match g.old_value {
                Some(v) => old(self)@.contains_key(key) && v@ == old(self)@[key],
                None => !old(self)@.contains_key(key),
            },
            final(self)@ == old(self)@.insert(key, value@),
    {
        let old_value = self.table.insert(key, value);
        proof {
            assert(self@ =~= old(self)@.insert(key, value@));
        }
        Guard { key, old_value }
    }
}

impl<V: View> Guard<V> {
    /// Release the guard: put the displaced binding back, or remove the
    /// key if it was unbound before the scoped insertion.
    pub fn release(self, ctx: &mut Context<V>)
        ensures
            self.old_value matches Some(v) ==> final(ctx)@ == old(ctx)@.insert(self.key, v@),
            self.old_value is None ==> final(ctx)@ == old(ctx)@.remove(self.key),
    {
        match self {
            Guard { key, old_value: Some(v) } => {
                let ghost vv = v@;
                ctx.table.insert(key, v);
                proof {
                    assert(ctx@ =~= old(ctx)@.insert(key, vv));
                }
            },
            Guard { key, old_value: None } => {
                ctx.table.remove(&key);
                proof {
                    assert(ctx@ =~= old(ctx)@.remove(key));
                }
            },
        }
    }
}

/// Context round-trip law for this backing: binding a key that was not
/// bound before and then releasing the guard leaves the binding table as
/// it was — the key is unbound again.
pub proof fn lemma_with_release_round_trip<T>(m: Map<usize, T>, key: usize, value: T)
    requires
        !m.contains_key(key),
    ensures
        m.insert(key, value).remove(key) == m,
        m.insert(key, value)[key] == value,
{
    assert(m.insert(key, value).remove(key) =~= m);
}

/// Context shadow-restore law for this backing: if a key is bound, a
/// scoped insertion shadows the binding while the guard is alive, and
/// releasing the guard restores the old value exactly.
pub proof fn lemma_with_release_shadow<T>(m: Map<usize, T>, key: usize, v1: T, v2: T)
    requires
        m.contains_key(key),
        m[key] == v1,
    ensures
        m.insert(key, v2)[key] == v2,
        m.insert(key, v2).insert(key, v1) == m,
{
    assert(m.insert(key, v2).insert(key, v1) =~= m);
}

} // verus!
