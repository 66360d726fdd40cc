//! A value computed from the store and kept until the store is modified.

use vstd::prelude::*;
use crate::model::{after_perform, after_redo, after_undo, Ledger};
use crate::store::AppData;
use crate::updates::Update;

verus! {

/// A cell for a value computed from the store. It keeps the value with
/// the modification counter that the store had when it was computed.
pub struct CachedValue<T> {
    cache: Option<(u32, T)>,
}

impl<T> View for CachedValue<T> {
    type V = Option<(u32, T)>;

    /// What the cell holds: nothing, or a counter and the value computed
    /// at it.
    closed spec fn view(&self) -> Option<(u32, T)> {
        self.cache
    }
}

impl<T> Default for CachedValue<T> {
    /// The empty cell.
    fn default() -> (r: Self)
        ensures
            r@ is None,
    {
        CachedValue { cache: None }
    }
}

impl<T> CachedValue<T> {
    /// Whether the cell holds a value computed at `counter`.
    pub open spec fn fresh(&self, counter: int) -> bool {
        self@ matches Some((at, _)) && at == counter
    }

    /// Cache correctness, first half: a cell that holds a value computed
    /// at a counter serves that value for as long as the counter stays.
    pub proof fn lemma_kept_value_is_served(&self, counter: u32, value: T)
        requires
            self@ == Some((counter, value)),
        ensures
            self.fresh(counter as int),
    {
    }

    /// Cache correctness, second half: a new action, an undo that undoes
    /// something and a redo that does something again each leave the cell
    /// stale, so that the next `get` computes anew.
    pub proof fn lemma_stale_after_change(&self, l: Ledger, b: Seq<Update>)
        requires
            self.fresh(l.counter),
        ensures
            !self.fresh(after_perform(l, b).counter),
            l.undo.len() > 0 ==> !self.fresh(after_undo(l).counter),
            l.redo.len() > 0 ==> !self.fresh(after_redo(l).counter),
    {
    }

    /// Empties the cell, whatever the counter.
    pub fn invalidate(&mut self)
        ensures
            final(self)@ is None,
    {
        self.cache = None;
    }

    /// The value for the store as it is. Where the cell holds a value
    /// computed at the store's counter, that value is returned and
    /// `compute` is not called; otherwise `compute` is called once, and
    /// its result is kept with the store's counter and returned.
    pub fn get<F>(&mut self, app_data: &AppData, compute: F) -> (r: &T) where
        F: Fn(&AppData) -> T,

        requires
            !old(self).fresh(app_data@.counter) ==> compute.requires((app_data,)),
        ensures
            final(self).fresh(app_data@.counter),
            final(self)@ matches Some((_, t)) && t == *r,
            old(self).fresh(app_data@.counter) ==> final(self)@ == old(self)@,
            !old(self).fresh(app_data@.counter) ==> compute.ensures((app_data,), *r),
    {
        let cache_is_good = match &self.cache {
            Some((modification_count, _t)) => *modification_count == app_data.modification_count(),
            None => false,
        };
        if !cache_is_good {
            let t = compute(app_data);
            self.cache = Some((app_data.modification_count(), t));
        }
        &self.cache.as_ref().unwrap().1
    }
}

} // verus!
