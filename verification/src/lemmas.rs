use vstd::prelude::*;

verus! {

/// The map reached after performing a sequence of insertions in order; this
/// is the fold of the per-call view transformation that `RHMap::insert`
/// guarantees.
pub open spec fn table_after_inserts<V>(pairs: Seq<(usize, V)>) -> Map<usize, V>
    decreases pairs.len(),
{
    if pairs.len() == 0 {
        Map::empty()
    } else {
        table_after_inserts(pairs.drop_last()).insert(pairs.last().0, pairs.last().1)
    }
}

/// The value of the last pair of the sequence holding the given key.
pub open spec fn latest_value_for<V>(pairs: Seq<(usize, V)>, k: usize) -> V
    recommends
        exists|idx: int| 0 <= idx < pairs.len() && (#[trigger] pairs[idx]).0 == k,
    decreases pairs.len(),
{
    if pairs.len() == 0 {
        arbitrary()
    } else if pairs.last().0 == k {
        pairs.last().1
    } else {
        latest_value_for(pairs.drop_last(), k)
    }
}

/// Round trip: after any sequence of insertions, looking up a key that was
/// inserted yields the most recently inserted value for it.
pub proof fn lemma_insert_round_trip<V>(pairs: Seq<(usize, V)>, k: usize)
    requires
        exists|idx: int| 0 <= idx < pairs.len() && (#[trigger] pairs[idx]).0 == k,
    ensures
        table_after_inserts(pairs).dom().contains(k),
        table_after_inserts(pairs)[k] == latest_value_for(pairs, k),
    decreases pairs.len(),
{
    let last = pairs.last();
    if last.0 == k {
    } else {
        let idx = choose|idx: int| 0 <= idx < pairs.len() && (#[trigger] pairs[idx]).0 == k;
        assert(pairs.drop_last()[idx] == pairs[idx]);
        lemma_insert_round_trip(pairs.drop_last(), k);
    }
}

/// With pairwise distinct keys, every inserted pair survives the whole
/// sequence of insertions — however many grow-and-rehash passes they force —
/// and stays retrievable with its value.
pub proof fn lemma_unique_inserts_retrievable<V>(pairs: Seq<(usize, V)>, idx: int)
    requires
        0 <= idx < pairs.len(),
        forall|a: int, b: int|
            0 <= a < b < pairs.len() ==> (#[trigger] pairs[a]).0 != (#[trigger] pairs[b]).0,
    ensures
        table_after_inserts(pairs).dom().contains(pairs[idx].0),
        table_after_inserts(pairs)[pairs[idx].0] == pairs[idx].1,
    decreases pairs.len(),
{
    if idx < pairs.len() - 1 {
        assert(pairs.drop_last()[idx] == pairs[idx]);
        lemma_unique_inserts_retrievable(pairs.drop_last(), idx);
        assert(pairs.last().0 != pairs[idx].0);
    }
}

/// Growth preserves content: inserting a key (which may force the table to
/// grow and rehash) binds that key and leaves every other key's entry
/// unchanged; `RHMap::insert` guarantees exactly this view transformation.
pub proof fn lemma_insert_preserves_others<V>(m: Map<usize, V>, k: usize, v: V, other: usize)
    requires
        other != k,
    ensures
        m.insert(k, v).dom().contains(k) && m.insert(k, v)[k] == v,
        m.insert(k, v).dom().contains(other) == m.dom().contains(other),
        m.dom().contains(other) ==> m.insert(k, v)[other] == m[other],
{
}

/// Deletion correctness: after a removal the key is gone and every other
/// key's entry is unchanged; `RHMap::remove` guarantees exactly this view
/// transformation on a present key.
pub proof fn lemma_remove_correct<V>(m: Map<usize, V>, k: usize, other: usize)
    requires
        other != k,
    ensures
        !m.remove(k).dom().contains(k),
        m.remove(k).dom().contains(other) == m.dom().contains(other),
        m.dom().contains(other) ==> m.remove(k)[other] == m[other],
{
}

/// One operation applied to a table.
pub enum TableOp<V> {
    Insert(usize, V),
    Remove(usize),
}

/// The map reached after a sequence of operations, each one the view
/// transformation that `RHMap::insert` or `RHMap::remove` guarantees (a
/// removal of an absent key fails and leaves the table unchanged).
pub open spec fn table_after_ops<V>(ops: Seq<TableOp<V>>) -> Map<usize, V>
    decreases ops.len(),
{
    if ops.len() == 0 {
        Map::empty()
    } else {
        let m = table_after_ops(ops.drop_last());
        match ops.last() {
            TableOp::Insert(k, v) => m.insert(k, v),
            TableOp::Remove(k) => m.remove(k),
        }
    }
}

/// The distinct keys the operations ever insert.
pub open spec fn inserted_keys<V>(ops: Seq<TableOp<V>>) -> Set<usize>
    decreases ops.len(),
{
    if ops.len() == 0 {
        Set::empty()
    } else {
        let s = inserted_keys(ops.drop_last());
        match ops.last() {
            TableOp::Insert(k, _) => s.insert(k),
            TableOp::Remove(_) => s,
        }
    }
}

/// The keys whose removal succeeds: those present when their removal runs.
pub open spec fn removed_keys<V>(ops: Seq<TableOp<V>>) -> Set<usize>
    decreases ops.len(),
{
    if ops.len() == 0 {
        Set::empty()
    } else {
        let s = removed_keys(ops.drop_last());
        match ops.last() {
            TableOp::Insert(_, _) => s,
            TableOp::Remove(k) => if table_after_ops(ops.drop_last()).dom().contains(k) {
                s.insert(k)
            } else {
                s
            },
        }
    }
}

/// No key is inserted again after one of its removals.
pub open spec fn no_reinsert_after_remove<V>(ops: Seq<TableOp<V>>) -> bool {
    forall|a: int, b: int|
        0 <= a < b < ops.len() && ops[a] is Remove && ops[b] is Insert ==> (#[trigger] ops[a])->Remove_0
            != (#[trigger] ops[b])->Insert_0
}

/// A key counted as removed really had a removal among the operations.
pub proof fn lemma_removed_has_remove_op<V>(ops: Seq<TableOp<V>>, k: usize)
    requires
        removed_keys(ops).contains(k),
    ensures
        exists|idx: int|
            0 <= idx < ops.len() && (#[trigger] ops[idx]) is Remove && ops[idx]->Remove_0 == k,
    decreases ops.len(),
{
    if ops.len() > 0 {
        if ops.last() is Remove && ops.last()->Remove_0 == k && table_after_ops(
            ops.drop_last(),
        ).dom().contains(k) {
            assert(ops[ops.len() - 1] is Remove && ops[ops.len() - 1]->Remove_0 == k);
        } else {
            lemma_removed_has_remove_op(ops.drop_last(), k);
            let idx = choose|idx: int|
                0 <= idx < ops.drop_last().len() && (#[trigger] ops.drop_last()[idx]) is Remove
                    && ops.drop_last()[idx]->Remove_0 == k;
            assert(ops[idx] == ops.drop_last()[idx]);
            assert(ops[idx] is Remove && ops[idx]->Remove_0 == k);
        }
    }
}

/// Count accuracy: as long as no key is inserted again after a removal, the
/// table holds exactly as many entries as there are distinct keys ever
/// inserted, less those successfully removed.
pub proof fn lemma_count_accuracy<V>(ops: Seq<TableOp<V>>)
    requires
        no_reinsert_after_remove(ops),
    ensures
        table_after_ops(ops).dom().finite(),
        inserted_keys(ops).finite(),
        removed_keys(ops).finite(),
        removed_keys(ops).subset_of(inserted_keys(ops)),
        table_after_ops(ops).dom() == inserted_keys(ops).difference(removed_keys(ops)),
        table_after_ops(ops).dom().len() == inserted_keys(ops).len() - removed_keys(ops).len(),
    decreases ops.len(),
{
    if ops.len() == 0 {
        assert(table_after_ops(ops) == Map::<usize, V>::empty());
        assert(Map::<usize, V>::empty().dom() =~= Set::<usize>::empty().difference(
            Set::<usize>::empty(),
        ));
    } else {
        let dl = ops.drop_last();
        assert(no_reinsert_after_remove(dl)) by {
            assert forall|a: int, b: int|
                0 <= a < b < dl.len() && dl[a] is Remove && dl[b] is Insert implies (
            #[trigger] dl[a])->Remove_0 != (#[trigger] dl[b])->Insert_0 by {
                assert(dl[a] == ops[a] && dl[b] == ops[b]);
                assert(ops[a]->Remove_0 != ops[b]->Insert_0);
            }
        }
        lemma_count_accuracy(dl);
        let m = table_after_ops(dl);
        let ins = inserted_keys(dl);
        let rem = removed_keys(dl);
        match ops.last() {
            TableOp::Insert(k, v) => {
                if rem.contains(k) {
                    lemma_removed_has_remove_op(dl, k);
                    let idx = choose|idx: int|
                        0 <= idx < dl.len() && (#[trigger] dl[idx]) is Remove && dl[idx]->Remove_0
                            == k;
                    assert(ops[idx] == dl[idx]);
                    assert(ops[ops.len() - 1] is Insert && ops[ops.len() - 1]->Insert_0 == k);
                    assert(false);
                }
                assert(table_after_ops(ops).dom() =~= ins.insert(k).difference(rem));
                if ins.contains(k) {
                    assert(ins.insert(k) =~= ins);
                    assert(m.dom().contains(k));
                    assert(m.insert(k, v).dom() =~= m.dom());
                } else {
                    assert(m.insert(k, v).dom() =~= m.dom().insert(k));
                    assert(!m.dom().contains(k));
                }
            },
            TableOp::Remove(k) => {
                if m.dom().contains(k) {
                    assert(!rem.contains(k));
                    assert(ins.contains(k));
                    assert(m.remove(k).dom() =~= m.dom().remove(k));
                    assert(table_after_ops(ops).dom() =~= ins.difference(rem.insert(k)));
                } else {
                    assert(m.remove(k).dom() =~= m.dom());
                    assert(table_after_ops(ops).dom() =~= ins.difference(rem));
                }
            },
        }
    }
}

} // verus!
