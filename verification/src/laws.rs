//! What holds of commands and their reversal, for every store and every
//! batch.

use vstd::prelude::*;
use crate::model::{
    after_perform, after_redo, after_undo, any_touches_categories, apply_all, ids_of, indexed,
    lists_entities, next_store, perform_all, redo_times, reverse, reverse_all, touches_categories,
    undo_times, Ledger, StoreView,
};
use crate::models::Entity;
use crate::updates::Update;

verus! {

/// A command leaves every entity under its own id.
pub proof fn lemma_step_keeps_keyed(s: StoreView, u: Update)
    requires
        s.keyed(),
    ensures
        next_store(s, u).keyed(),
{
}

/// A batch leaves every entity under its own id.
pub proof fn lemma_batch_keeps_keyed(s: StoreView, us: Seq<Update>)
    requires
        s.keyed(),
    ensures
        apply_all(s, us).keyed(),
    decreases us.len(),
{
    if us.len() > 0 {
        lemma_batch_keeps_keyed(s, us.drop_last());
        lemma_step_keeps_keyed(apply_all(s, us.drop_last()), us.last());
    }
}

/// A batch without a command on categories leaves the categories as they
/// are.
pub proof fn lemma_categories_untouched(s: StoreView, us: Seq<Update>)
    requires
        !any_touches_categories(us),
    ensures
        apply_all(s, us).categories == s.categories,
    decreases us.len(),
{
    if us.len() > 0 {
        let rest = us.drop_last();
        assert forall|i: int| 0 <= i < rest.len() implies !touches_categories(#[trigger] rest[i]) by {
            assert(rest[i] == us[i]);
        }
        lemma_categories_untouched(s, rest);
        assert(!touches_categories(us[us.len() - 1]));
    }
}

/// A command followed by the command that undoes it gives back the store
/// as it was.
pub proof fn lemma_step_round_trip(s: StoreView, u: Update)
    requires
        s.keyed(),
    ensures
        next_store(next_store(s, u), reverse(s, u)) == s,
{
    let t = next_store(next_store(s, u), reverse(s, u));
    assert(t.same_as(s));
}

/// The command that undoes the undoing of `u` is `u`.
pub proof fn lemma_step_reverse_twice(s: StoreView, u: Update)
    requires
        s.keyed(),
    ensures
        reverse(next_store(s, u), reverse(s, u)) == u,
{
}

/// Applying the first `k + 1` commands is applying the first `k` and then
/// the next one.
pub proof fn lemma_apply_prefix(s: StoreView, us: Seq<Update>, k: int)
    requires
        0 <= k < us.len(),
    ensures
        apply_all(s, us.take(k + 1)) == next_store(apply_all(s, us.take(k)), us[k]),
{
    let p = us.take(k + 1);
    assert(p.drop_last() =~= us.take(k));
    assert(p.last() == us[k]);
}

/// Applying the first `k` commands of the reverse batch to the store that
/// the batch has made undoes the last `k` commands of the batch.
pub proof fn lemma_unwind(s: StoreView, us: Seq<Update>, k: int)
    requires
        s.keyed(),
        0 <= k <= us.len(),
    ensures
        apply_all(apply_all(s, us), reverse_all(s, us).take(k)) == apply_all(
            s,
            us.take(us.len() - k),
        ),
    decreases k,
{
    let n = us.len() as int;
    let r = reverse_all(s, us);
    let end = apply_all(s, us);
    if k == 0 {
        assert(r.take(0) =~= Seq::<Update>::empty());
        assert(us.take(n) =~= us);
    } else {
        lemma_unwind(s, us, k - 1);
        lemma_apply_prefix(end, r, k - 1);
        let before = apply_all(s, us.take(n - k));
        lemma_batch_keeps_keyed(s, us.take(n - k));
        lemma_apply_prefix(s, us, n - k);
        assert(us.take(n - (k - 1)) =~= us.take(n - k + 1));
        assert(r[k - 1] == reverse(before, us[n - k]));
        lemma_step_round_trip(before, us[n - k]);
    }
}

/// Round trip: a batch followed by its reverse batch gives back the store
/// as it was.
pub proof fn lemma_round_trip(s: StoreView, us: Seq<Update>)
    requires
        s.keyed(),
    ensures
        apply_all(apply_all(s, us), reverse_all(s, us)) == s,
{
    let r = reverse_all(s, us);
    lemma_unwind(s, us, us.len() as int);
    assert(r.take(us.len() as int) =~= r);
    assert(us.take(0) =~= Seq::<Update>::empty());
}

/// The reverse of the reverse batch, taken in the store that the batch
/// has made, is the batch.
pub proof fn lemma_reverse_twice(s: StoreView, us: Seq<Update>)
    requires
        s.keyed(),
    ensures
        reverse_all(apply_all(s, us), reverse_all(s, us)) == us,
{
    let n = us.len() as int;
    let r = reverse_all(s, us);
    let end = apply_all(s, us);
    let rr = reverse_all(end, r);
    assert forall|k: int| 0 <= k < n implies rr[k] == us[k] by {
        // rr[k] undoes r[n - 1 - k] in the store after the first n - 1 - k of r.
        lemma_unwind(s, us, n - 1 - k);
        assert(n - (n - 1 - k) == k + 1);
        let before = apply_all(s, us.take(k));
        lemma_batch_keeps_keyed(s, us.take(k));
        lemma_apply_prefix(s, us, k);
        assert(r[n - 1 - k] == reverse(before, us[k]));
        lemma_step_reverse_twice(before, us[k]);
    }
    assert(rr =~= us);
}

/// A redo takes back an undo: where something can be undone, an undo
/// followed by a redo gives back the ledger as it was.
pub proof fn lemma_redo_after_undo(l: Ledger)
    requires
        l.store.keyed(),
        l.undo.len() > 0,
    ensures
        after_redo(after_undo(l)) == l,
{
    let top = l.undo.last();
    let u = after_undo(l);
    let r = after_redo(u);
    lemma_round_trip(l.store, top);
    lemma_reverse_twice(l.store, top);
    assert(u.redo.last() == reverse_all(l.store, top));
    assert(u.redo.drop_last() =~= l.redo);
    assert(r.undo =~= l.undo);
}

/// An undo takes back a redo: where something can be done again, a redo
/// followed by an undo gives back the ledger as it was.
pub proof fn lemma_undo_after_redo(l: Ledger)
    requires
        l.store.keyed(),
        l.redo.len() > 0,
    ensures
        after_undo(after_redo(l)) == l,
{
    let top = l.redo.last();
    let r = after_redo(l);
    let u = after_undo(r);
    lemma_round_trip(l.store, top);
    lemma_reverse_twice(l.store, top);
    assert(r.undo.last() == reverse_all(l.store, top));
    assert(r.undo.drop_last() =~= l.undo);
    assert(u.redo =~= l.redo);
}

/// An undo takes back a new action, but for the redo stack, which then
/// holds that action alone.
pub proof fn lemma_undo_after_perform(l: Ledger, b: Seq<Update>)
    requires
        l.store.keyed(),
    ensures
        after_undo(after_perform(l, b)) == (Ledger { redo: Seq::empty().push(b), ..l }),
{
    let p = after_perform(l, b);
    let u = after_undo(p);
    lemma_round_trip(l.store, b);
    lemma_reverse_twice(l.store, b);
    assert(p.undo.last() == reverse_all(l.store, b));
    assert(p.undo.drop_last() =~= l.undo);
}

/// Redo invalidation: a new action empties the redo stack, so that a redo
/// after it changes nothing, whatever was undone before.
pub proof fn lemma_perform_invalidates_redo(l: Ledger, b: Seq<Update>)
    ensures
        after_perform(after_undo(l), b).redo.len() == 0,
        after_redo(after_perform(after_undo(l), b)) == after_perform(after_undo(l), b),
        after_perform(l, b).redo.len() == 0,
        after_redo(after_perform(l, b)) == after_perform(l, b),
{
}

/// Performing batches leaves every entity under its own id, and puts one
/// batch on the undo stack for each.
pub proof fn lemma_perform_all_shape(l: Ledger, bs: Seq<Seq<Update>>)
    requires
        l.store.keyed(),
    ensures
        perform_all(l, bs).store.keyed(),
        perform_all(l, bs).undo.len() == l.undo.len() + bs.len(),
        perform_all(l, bs).counter == l.counter + bs.len(),
        bs.len() > 0 ==> perform_all(l, bs).redo.len() == 0,
    decreases bs.len(),
{
    if bs.len() > 0 {
        lemma_perform_all_shape(l, bs.drop_last());
        lemma_batch_keeps_keyed(perform_all(l, bs.drop_last()).store, bs.last());
    }
}

/// After `k` undos, the store, the counter and the undo stack are those
/// that the ledger had before the last `k` of the batches were performed.
pub proof fn lemma_undo_unwinds(l: Ledger, bs: Seq<Seq<Update>>, k: nat)
    requires
        l.store.keyed(),
        k <= bs.len(),
    ensures
        undo_times(perform_all(l, bs), k).store == perform_all(l, bs.take(bs.len() - k)).store,
        undo_times(perform_all(l, bs), k).counter == perform_all(
            l,
            bs.take(bs.len() - k),
        ).counter,
        undo_times(perform_all(l, bs), k).undo == perform_all(l, bs.take(bs.len() - k)).undo,
    decreases k,
{
    let n = bs.len() as int;
    if k == 0 {
        assert(bs.take(n) =~= bs);
    } else {
        lemma_undo_unwinds(l, bs, (k - 1) as nat);
        let prev = undo_times(perform_all(l, bs), (k - 1) as nat);
        let shorter = bs.take(n - k);
        let longer = bs.take(n - k + 1);
        assert(longer.drop_last() =~= shorter);
        assert(longer.last() == bs[n - k]);
        let base = perform_all(l, shorter);
        assert(perform_all(l, longer) == after_perform(base, bs[n - k]));
        lemma_perform_all_shape(l, shorter);
        lemma_round_trip(base.store, bs[n - k]);
        assert(prev.undo.last() == reverse_all(base.store, bs[n - k]));
        assert(prev.undo.drop_last() =~= base.undo);
    }
}

/// Undo and redo symmetry, first half: after as many undos as batches
/// were performed, the store, the counter and the undo stack are what
/// they were before the first of them.
pub proof fn lemma_undo_all(l: Ledger, bs: Seq<Seq<Update>>)
    requires
        l.store.keyed(),
    ensures
        undo_times(perform_all(l, bs), bs.len()).store == l.store,
        undo_times(perform_all(l, bs), bs.len()).counter == l.counter,
        undo_times(perform_all(l, bs), bs.len()).undo == l.undo,
{
    lemma_undo_unwinds(l, bs, bs.len());
    assert(bs.take(0) =~= Seq::<Seq<Update>>::empty());
}

/// As many redos as undos before them give back the ledger as it was,
/// where that many actions could be undone.
pub proof fn lemma_redo_rewinds(l: Ledger, k: nat)
    requires
        l.store.keyed(),
        k <= l.undo.len(),
    ensures
        redo_times(undo_times(l, k), k) == l,
        undo_times(l, k).store.keyed(),
        undo_times(l, k).undo.len() == l.undo.len() - k,
    decreases k,
{
    if k > 0 {
        lemma_redo_rewinds(l, (k - 1) as nat);
        let prev = undo_times(l, (k - 1) as nat);
        lemma_redo_after_undo(prev);
        lemma_batch_keeps_keyed(prev.store, prev.undo.last());
        assert(after_undo(prev).redo.len() > 0);
    }
}

/// Undo and redo symmetry, second half: after as many undos as batches
/// were performed, the same number of redos gives back the ledger that
/// the batches had made.
pub proof fn lemma_redo_all(l: Ledger, bs: Seq<Seq<Update>>)
    requires
        l.store.keyed(),
    ensures
        redo_times(undo_times(perform_all(l, bs), bs.len()), bs.len()) == perform_all(l, bs),
{
    lemma_perform_all_shape(l, bs);
    lemma_redo_rewinds(perform_all(l, bs), bs.len());
}

/// The entities that a list of references points to.
pub open spec fn owned<E>(items: Seq<&E>) -> Seq<E> {
    Seq::new(items.len(), |i: int| *items[i])
}

/// The part of `m` that stands under the ids of the first `k` of `items`.
pub open spec fn listed_part<E: Entity>(items: Seq<&E>, m: Map<u32, E>, k: int) -> Map<u32, E> {
    Map::new(|id: u32| ids_of(items).take(k).contains(id), |id: u32| m[id])
}

/// Reading back the first `k` entities of a snapshot gives the part of the
/// collection that stands under their ids.
proof fn lemma_snapshot_prefix<E: Entity>(items: Seq<&E>, m: Map<u32, E>, k: int)
    requires
        lists_entities(items, m),
        0 <= k <= items.len(),
    ensures
        indexed(owned(items).take(k)) == listed_part(items, m, k),
    decreases k,
{
    let ids = ids_of(items);
    if k == 0 {
        assert(ids.take(0) =~= Seq::<u32>::empty());
        assert(indexed(owned(items).take(0)) =~= listed_part(items, m, 0));
    } else {
        lemma_snapshot_prefix(items, m, k - 1);
        let longer = owned(items).take(k);
        assert(longer.drop_last() =~= owned(items).take(k - 1));
        assert(longer.last() == *items[k - 1]);
        assert(ids[k - 1] == items[k - 1].entity_id());
        crate::ordered::lemma_take_step(ids, k - 1);
        assert(*items[k - 1] == m[items[k - 1].entity_id()]);
        let before = listed_part(items, m, k - 1);
        let after = listed_part(items, m, k);
        assert(indexed(longer) == before.insert(ids[k - 1], *items[k - 1]));
        assert(ids.take(k - 1 + 1) == ids.take(k));
        assert forall|id: u32| after.contains_key(id) <==> before.insert(
            ids[k - 1],
            *items[k - 1],
        ).contains_key(id) by {
            assert(ids.take(k).contains(id) <==> (ids.take(k - 1).contains(id) || id == ids[k
                - 1]));
        }
        assert(before.insert(ids[k - 1], *items[k - 1]) =~= after);
    }
}

/// A snapshot read back gives the collection that it was taken from: the
/// map that the listing of a collection gives, each entity put under its
/// id, is the collection.
pub proof fn lemma_snapshot_round_trip<E: Entity>(items: Seq<&E>, m: Map<u32, E>)
    requires
        lists_entities(items, m),
    ensures
        indexed(owned(items)) == m,
{
    let ids = ids_of(items);
    lemma_snapshot_prefix(items, m, items.len() as int);
    assert(owned(items).take(items.len() as int) =~= owned(items));
    assert(ids.take(items.len() as int) =~= ids);
    assert(listed_part(items, m, items.len() as int) =~= m);
}

} // verus!
