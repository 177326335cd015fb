use vstd::prelude::*;

use crate::catalog::{Item, ItemModel};

verus! {

#[verifier::external_type_specification]
#[verifier::external_body]
#[verifier::reject_recursive_types(T)]
#[verifier::reject_recursive_types(S)]
pub struct ExIndexSet<T, S>(indexmap::IndexSet<T, S>);

/// The elements an id set holds, in insertion order.
pub uninterp spec fn id_set_elems(s: indexmap::IndexSet<i64>) -> Seq<i64>;

/// Relies on IndexSet::new: a new set holds nothing.
#[verifier::external_body]
fn id_set_new() -> (s: indexmap::IndexSet<i64>)
    ensures
        id_set_elems(s) == Seq::<i64>::empty(),
{
    indexmap::IndexSet::new()
}

/// Relies on IndexSet::insert: a missing value is appended at the end and
/// true is reported; a present value leaves the set and its order unchanged
/// and false is reported.
#[verifier::external_body]
fn id_set_insert(s: &mut indexmap::IndexSet<i64>, v: i64) -> (r: bool)
    ensures
        r == !id_set_elems(*old(s)).contains(v),
        id_set_elems(*final(s)) == if id_set_elems(*old(s)).contains(v) {
            id_set_elems(*old(s))
        } else {
            id_set_elems(*old(s)).push(v)
        },
{
    s.insert(v)
}

/// Membership of a pushed id sequence.
proof fn lemma_id_contains_push(s: Seq<i64>, x: i64, y: i64)
    ensures
        s.push(x).contains(y) <==> (s.contains(y) || y == x),
{
    if s.contains(y) {
        let i = choose|i: int| 0 <= i < s.len() && s[i] == y;
        assert(s.push(x)[i] == y);
    }
    if y == x {
        assert(s.push(x)[s.len() as int] == y);
    }
    if s.push(x).contains(y) {
        let i = choose|i: int| 0 <= i < s.push(x).len() && s.push(x)[i] == y;
        if i < s.len() {
            assert(s[i] == y);
        }
    }
}

/// The first-seen deduplication of a sequence of query results by item id.
pub open spec fn spec_dedup_items(s: Seq<ItemModel>) -> Seq<ItemModel>
    decreases s.len(),
{
    if s.len() == 0 {
        Seq::empty()
    } else {
        let d = spec_dedup_items(s.drop_last());
        if exists|j: int| 0 <= j < d.len() && (#[trigger] d[j]).id == s.last().id {
            d
        } else {
            d.push(s.last())
        }
    }
}

fn clone_item(it: &Item) -> (c: Item)
    ensures
        c@ == it@,
{
    Item {
        id: it.id,
        name: match &it.name {
            Some(n) => Some(n.clone()),
            None => None,
        },
        path: it.path.clone(),
        base_label: it.base_label.clone(),
        note: it.note.clone(),
    }
}

/// Removes duplicate items by id, keeping the first occurrence and the
/// order of first appearance.
pub fn dedup_items_by_id(items: &Vec<Item>) -> (r: Vec<Item>)
    ensures
        r@.map_values(|it: Item| it@) == spec_dedup_items(items@.map_values(|it: Item| it@)),
{
    let ghost sm = items@.map_values(|it: Item| it@);
    let n = items.len();
    let mut out: Vec<Item> = Vec::new();
    let mut seen = id_set_new();
    let mut i: usize = 0;
    proof {
        assert(sm.take(0) =~= Seq::<ItemModel>::empty());
        assert(out@.map_values(|it: Item| it@) =~= Seq::<ItemModel>::empty());
    }
    while i < n
        invariant
            i <= n,
            n == sm.len(),
            sm == items@.map_values(|it: Item| it@),
            out@.map_values(|it: Item| it@) == spec_dedup_items(sm.take(i as int)),
            forall|x: i64|
                id_set_elems(seen).contains(x) <==> exists|j: int|
                    0 <= j < out@.len() && (#[trigger] out@[j])@.id == x,
        decreases n - i,
    {
        let ghost out_pre = out@;
        let ghost om = out@.map_values(|it: Item| it@);
        let ghost e0 = id_set_elems(seen);
        let fresh = id_set_insert(&mut seen, items[i].id);
        if fresh {
            out.push(clone_item(&items[i]));
        }
        proof {
            assert(sm.take(i + 1 as int).drop_last() =~= sm.take(i as int));
            assert(sm.take(i + 1 as int).last() == sm[i as int]);
            let x = items@[i as int].id;
            assert(om.len() == out_pre.len());
            assert forall|j: int| 0 <= j < om.len() implies #[trigger] om[j] == out_pre[j]@ by {}
            if fresh {
                assert(!(exists|j: int| 0 <= j < om.len() && (#[trigger] om[j]).id == x)) by {
                    if exists|j: int| 0 <= j < om.len() && (#[trigger] om[j]).id == x {
                        let j = choose|j: int| 0 <= j < om.len() && (#[trigger] om[j]).id == x;
                        assert(out_pre[j]@.id == x);
                        assert(e0.contains(x));
                    }
                }
                assert(out@.map_values(|it: Item| it@) =~= om.push(sm[i as int]));
                assert(out@.map_values(|it: Item| it@) == spec_dedup_items(sm.take(i + 1 as int)));
                assert forall|y: i64| id_set_elems(seen).contains(y) implies exists|j: int|
                    0 <= j < out@.len() && (#[trigger] out@[j])@.id == y by {
                    lemma_id_contains_push(e0, x, y);
                    if e0.contains(y) {
                        let j = choose|j: int|
                            0 <= j < out_pre.len() && (#[trigger] out_pre[j])@.id == y;
                        assert(out@[j] == out_pre[j]);
                        assert(out@[j]@.id == y);
                    } else {
                        assert(out@[out_pre.len() as int]@.id == y);
                    }
                }
                assert forall|y: i64|
                    (exists|j: int| 0 <= j < out@.len() && (#[trigger] out@[j])@.id == y) implies
                    id_set_elems(seen).contains(y) by {
                    lemma_id_contains_push(e0, x, y);
                    let j = choose|j: int| 0 <= j < out@.len() && (#[trigger] out@[j])@.id == y;
                    if j < out_pre.len() {
                        assert(out@[j] == out_pre[j]);
                        assert(out_pre[j]@.id == y);
                        assert(e0.contains(y));
                    }
                }
            } else {
                assert(id_set_elems(seen) == e0);
                assert(e0.contains(x));
                assert(exists|j: int| 0 <= j < om.len() && (#[trigger] om[j]).id == x) by {
                    let j = choose|j: int|
                        0 <= j < out_pre.len() && (#[trigger] out_pre[j])@.id == x;
                    assert(om[j].id == x);
                }
                assert(out@.map_values(|it: Item| it@) == spec_dedup_items(sm.take(i + 1 as int)));
            }
        }
        i = i + 1;
    }
    proof {
        assert(sm.take(n as int) =~= sm);
    }
    out
}

} // verus!
