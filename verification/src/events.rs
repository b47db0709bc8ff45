use vstd::prelude::*;
use crate::arena::{UiArena, Widget, WidgetId};
use crate::walk::{lemma_all_bounded_index, lemma_depth_bound};

verus! {

/// `id` is marked in `hits`: its frame contains the point being tested.
pub open spec fn is_hit(id: WidgetId, hits: Seq<bool>) -> bool {
    id.0 < hits.len() && hits[id.0 as int]
}

/// The ids of `s` that are marked in `hits`, in the order of `s`.
pub open spec fn hit_ids(s: Seq<WidgetId>, hits: Seq<bool>) -> Seq<WidgetId> {
    s.filter(|id: WidgetId| is_hit(id, hits))
}

/// `hit_ids` of a concatenation is the concatenation of the parts'.
pub proof fn lemma_hit_ids_concat(x: Seq<WidgetId>, y: Seq<WidgetId>, hits: Seq<bool>)
    ensures
        hit_ids(x + y, hits) == hit_ids(x, hits) + hit_ids(y, hits),
{
    Seq::filter_distributes_over_add(x, y, |id: WidgetId| is_hit(id, hits));
}

/// `hit_ids` of a single id: the id when it is hit, else nothing.
pub proof fn lemma_hit_ids_single(id: WidgetId, hits: Seq<bool>)
    ensures
        hit_ids(seq![id], hits) == if is_hit(id, hits) { seq![id] } else { Seq::<WidgetId>::empty() },
{
    reveal_with_fuel(Seq::filter, 2);
    assert(seq![id].drop_last() =~= Seq::<WidgetId>::empty());
    assert(hit_ids(seq![id], hits) =~= if is_hit(id, hits) { seq![id] } else { Seq::<WidgetId>::empty() });
}

/// Appends to `out` the hit widgets of the post-order walk of the subtree
/// at `id`.
fn collect_hits<W: Widget>(
    arena: &UiArena<W>,
    id: WidgetId,
    hits: &Vec<bool>,
    out: &mut Vec<WidgetId>,
    Ghost(fuel): Ghost<nat>,
)
    requires
        arena@.bounded(id, fuel),
    ensures
        final(out)@ == old(out)@ + hit_ids(arena@.post(id, fuel), hits@),
    decreases fuel,
{
    let ghost a = arena@;
    let ghost out0 = out@;
    match arena.get(id) {
        None => {
            proof {
                reveal(Seq::filter);
                assert(a.post(id, fuel) =~= Seq::<WidgetId>::empty());
                assert(out@ =~= out0 + hit_ids(a.post(id, fuel), hits@));
            }
        },
        Some(w) => {
            let children = w.children();
            let ghost f1 = (fuel - 1) as nat;
            proof {
                reveal(Seq::filter);
                lemma_all_bounded_index(a, children@, f1);
                assert(children@.take(0) =~= Seq::<WidgetId>::empty());
                assert(a.post_list(Seq::<WidgetId>::empty(), f1) =~= Seq::<WidgetId>::empty());
                assert(out@ =~= out0 + hit_ids(a.post_list(children@.take(0), f1), hits@));
            }
            let mut i: usize = 0;
            while i < children.len()
                invariant
                    arena@ == a,
                    fuel > 0,
                    f1 == fuel - 1,
                    i <= children@.len(),
                    children@ == a.kids(id),
                    forall|j: int| 0 <= j < children@.len() ==> a.bounded(#[trigger] children@[j], f1),
                    out@ == out0 + hit_ids(a.post_list(children@.take(i as int), f1), hits@),
                decreases children@.len() - i,
            {
                collect_hits(arena, children[i], hits, out, Ghost(f1));
                proof {
                    assert(children@.take(i + 1).drop_last() =~= children@.take(i as int));
                    assert(children@.take(i + 1).last() == children@[i as int]);
                    lemma_hit_ids_concat(
                        a.post_list(children@.take(i as int), f1),
                        a.post(children@[i as int], f1),
                        hits@,
                    );
                    assert(out@ =~= out0 + hit_ids(a.post_list(children@.take(i + 1), f1), hits@));
                }
                i = i + 1;
            }
            proof {
                assert(children@.take(i as int) =~= children@);
                assert(a.post(id, fuel) =~= a.post_list(children@, f1) + seq![id]);
                lemma_hit_ids_concat(a.post_list(children@, f1), seq![id], hits@);
                lemma_hit_ids_single(id, hits@);
            }
            if id.0 < hits.len() && hits[id.0] {
                out.push(id);
            }
            proof {
                assert(out@ =~= out0 + hit_ids(a.post(id, fuel), hits@));
            }
        },
    }
}

/// Top-down, front-to-back hit test: the widgets a click may be delivered
/// to, in the order they are offered it.
///
/// `hits[i]` tells whether the frame of the widget with index `i` contains
/// the click position (missing entries count as `false`).  Children come
/// before their parent (they are drawn on top of it) and earlier children
/// before later ones: the result is the post-order walk from `root`, kept
/// to the widgets whose frame contains the click.
pub fn hit_candidates<W: Widget>(arena: &UiArena<W>, root: WidgetId, hits: &Vec<bool>) -> (r: Vec<WidgetId>)
    requires
        arena@.walk_terminates(root),
    ensures
        r@ == hit_ids(arena@.postorder(root), hits@),
{
    proof {
        lemma_depth_bound(arena@, root);
    }
    let mut out: Vec<WidgetId> = Vec::new();
    collect_hits(arena, root, hits, &mut out, Ghost(arena@.depth_bound(root)));
    assert(out@ =~= hit_ids(arena@.postorder(root), hits@));
    out
}

/// Every one of the first `i` candidates has declined the click.
pub open spec fn declined_before<F: Fn(WidgetId) -> bool>(handle: F, candidates: Seq<WidgetId>, i: int) -> bool {
    forall|j: int| 0 <= j < i ==> call_ensures(handle, (#[trigger] candidates[j],), false)
}

/// `handle` may be offered candidate `i` only once every earlier candidate
/// has declined the click, and may be offered nothing else: a candidate
/// after one that handled the click is never offered it.
pub open spec fn offered_in_order<F: Fn(WidgetId) -> bool>(handle: F, candidates: Seq<WidgetId>) -> bool {
    forall|i: int|
        0 <= i < candidates.len() && #[trigger] declined_before(handle, candidates, i) ==> call_requires(
            handle,
            (candidates[i],),
        )
}

/// Offers a click to `candidates` in order, calling `handle` on each until
/// one handles it (returns `true`); propagation stops there.  Returns the
/// position of the candidate that handled the click, or `None` when none
/// did.
pub fn deliver_click<F: Fn(WidgetId) -> bool>(candidates: &Vec<WidgetId>, handle: F) -> (r: Option<usize>)
    requires
        offered_in_order(handle, candidates@),
    ensures
        match r {
            Some(k) => {
                &&& k < candidates@.len()
                &&& call_ensures(handle, (candidates@[k as int],), true)
                &&& forall|j: int| 0 <= j < k ==> call_ensures(handle, (#[trigger] candidates@[j],), false)
            },
            None => forall|j: int|
                0 <= j < candidates@.len() ==> call_ensures(handle, (#[trigger] candidates@[j],), false),
        },
{
    let mut i: usize = 0;
    while i < candidates.len()
        invariant
            i <= candidates@.len(),
            offered_in_order(handle, candidates@),
            declined_before(handle, candidates@, i as int),
        decreases candidates@.len() - i,
    {
        let c = candidates[i];
        assert(declined_before(handle, candidates@, i as int));
        let handled = handle(c);
        if handled {
            return Some(i);
        }
        i = i + 1;
    }
    None
}

} // verus!
