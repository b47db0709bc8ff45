use vstd::prelude::*;
use crate::arena::{ArenaView, Widget, WidgetId};

verus! {

/// `all_bounded` is `bounded` of every element.
pub proof fn lemma_all_bounded_index<W: Widget>(a: ArenaView<W>, s: Seq<WidgetId>, fuel: nat)
    ensures
        a.all_bounded(s, fuel) <==> (forall|i: int| 0 <= i < s.len() ==> a.bounded(#[trigger] s[i], fuel)),
    decreases s.len(),
{
    if s.len() > 0 {
        lemma_all_bounded_index(a, s.drop_last(), fuel);
        assert forall|i: int| 0 <= i < s.len() - 1 implies s.drop_last()[i] == s[i] by {}
    }
}

/// Splitting a sequence splits `all_bounded`, `pre_list`, `post_list`,
/// `flat_kids` and `live_ids` along it.
pub proof fn lemma_concat<W: Widget>(a: ArenaView<W>, x: Seq<WidgetId>, y: Seq<WidgetId>, fuel: nat)
    ensures
        a.all_bounded(x + y, fuel) == (a.all_bounded(x, fuel) && a.all_bounded(y, fuel)),
        a.pre_list(x + y, fuel) == a.pre_list(x, fuel) + a.pre_list(y, fuel),
        a.post_list(x + y, fuel) == a.post_list(x, fuel) + a.post_list(y, fuel),
        a.flat_kids(x + y) == a.flat_kids(x) + a.flat_kids(y),
        a.live_ids(x + y) == a.live_ids(x) + a.live_ids(y),
    decreases y.len(),
{
    if y.len() == 0 {
        assert(x + y =~= x);
    } else {
        let y0 = y.drop_last();
        assert((x + y).drop_last() =~= x + y0);
        assert((x + y).last() == y.last());
        lemma_concat(a, x, y0, fuel);
        assert(a.pre_list(x + y, fuel) =~= a.pre_list(x, fuel) + a.pre_list(y, fuel));
        assert(a.post_list(x + y, fuel) =~= a.post_list(x, fuel) + a.post_list(y, fuel));
        assert(a.flat_kids(x + y) =~= a.flat_kids(x) + a.flat_kids(y));
        assert(a.live_ids(x + y) =~= a.live_ids(x) + a.live_ids(y));
    }
}

/// More fuel than a bound needs changes nothing.
pub proof fn lemma_mono<W: Widget>(a: ArenaView<W>, id: WidgetId, f: nat, g: nat)
    requires
        a.bounded(id, f),
        f <= g,
    ensures
        a.bounded(id, g),
        a.pre(id, f) == a.pre(id, g),
        a.post(id, f) == a.post(id, g),
    decreases f, 0nat,
{
    if a.is_live(id) {
        lemma_mono_list(a, a.kids(id), (f - 1) as nat, (g - 1) as nat);
    }
}

/// `lemma_mono` for each id of a sequence.
pub proof fn lemma_mono_list<W: Widget>(a: ArenaView<W>, s: Seq<WidgetId>, f: nat, g: nat)
    requires
        a.all_bounded(s, f),
        f <= g,
    ensures
        a.all_bounded(s, g),
        a.pre_list(s, f) == a.pre_list(s, g),
        a.post_list(s, f) == a.post_list(s, g),
    decreases f, s.len(),
{
    if s.len() > 0 {
        lemma_mono_list(a, s.drop_last(), f, g);
        lemma_mono(a, s.last(), f, g);
    }
}

/// A single id as a list.
pub proof fn lemma_single<W: Widget>(a: ArenaView<W>, id: WidgetId, fuel: nat)
    ensures
        a.all_bounded(seq![id], fuel) == a.bounded(id, fuel),
        a.pre_list(seq![id], fuel) == a.pre(id, fuel),
        a.post_list(seq![id], fuel) == a.post(id, fuel),
        a.flat_kids(seq![id]) == a.kids(id),
        a.live_ids(seq![id]) == if a.is_live(id) { seq![id] } else { Seq::<WidgetId>::empty() },
{
    let s = seq![id];
    assert(s.drop_last() =~= Seq::<WidgetId>::empty());
    assert(s.last() == id);
    assert(a.pre_list(s.drop_last(), fuel) =~= Seq::<WidgetId>::empty());
    assert(a.post_list(s.drop_last(), fuel) =~= Seq::<WidgetId>::empty());
    assert(a.flat_kids(s.drop_last()) =~= Seq::<WidgetId>::empty());
    assert(a.live_ids(s.drop_last()) =~= Seq::<WidgetId>::empty());
    assert(a.all_bounded(s.drop_last(), fuel));
    assert(a.pre_list(s, fuel) =~= a.pre(id, fuel));
    assert(a.post_list(s, fuel) =~= a.post(id, fuel));
    assert(a.flat_kids(s) =~= a.kids(id));
    assert(a.live_ids(s) =~= if a.is_live(id) { seq![id] } else { Seq::<WidgetId>::empty() });
}

/// The fuel chosen for a terminating walk bounds it.
pub proof fn lemma_depth_bound<W: Widget>(a: ArenaView<W>, start: WidgetId)
    requires
        a.walk_terminates(start),
    ensures
        a.bounded(start, a.depth_bound(start)),
{
}


/// The pre-order walks of a stack's entries, top (last) entry first: what a
/// depth-first walk that works off this stack still has to visit.
pub open spec fn pre_stack<W: Widget>(a: ArenaView<W>, st: Seq<WidgetId>, fuel: nat) -> Seq<WidgetId>
    decreases st.len(),
{
    if st.len() == 0 {
        Seq::empty()
    } else {
        a.pre(st.last(), fuel) + pre_stack(a, st.drop_last(), fuel)
    }
}

/// Pushing `x` on a stack puts its walk first.
pub proof fn lemma_pre_stack_push<W: Widget>(a: ArenaView<W>, st: Seq<WidgetId>, x: WidgetId, fuel: nat)
    ensures
        pre_stack(a, st.push(x), fuel) == a.pre(x, fuel) + pre_stack(a, st, fuel),
        a.all_bounded(st.push(x), fuel) == (a.all_bounded(st, fuel) && a.bounded(x, fuel)),
{
    assert(st.push(x).drop_last() =~= st);
    assert(st.push(x).last() == x);
}

/// Putting `c` in front of `s` puts its walk in front.
pub proof fn lemma_pre_list_cons<W: Widget>(a: ArenaView<W>, c: WidgetId, s: Seq<WidgetId>, fuel: nat)
    ensures
        a.pre_list(seq![c] + s, fuel) == a.pre(c, fuel) + a.pre_list(s, fuel),
        a.post_list(seq![c] + s, fuel) == a.post(c, fuel) + a.post_list(s, fuel),
        a.all_bounded(seq![c] + s, fuel) == (a.bounded(c, fuel) && a.all_bounded(s, fuel)),
{
    lemma_concat(a, seq![c], s, fuel);
    lemma_single(a, c, fuel);
}


/// One more level: `levels` grows by the live ids of level `n`, and level
/// `n + 1` holds the children of level `n`.
pub proof fn lemma_levels_step<W: Widget>(a: ArenaView<W>, s: Seq<WidgetId>, n: nat)
    ensures
        a.levels(s, n + 1) == a.levels(s, n) + a.live_ids(a.level(s, n)),
        a.level(s, n + 1) == a.flat_kids(a.level(s, n)),
    decreases n,
{
    if n == 0 {
        assert(a.levels(a.flat_kids(s), 0) =~= Seq::<WidgetId>::empty());
        assert(a.level(a.flat_kids(s), 0) == a.flat_kids(s));
        assert(a.level(s, 0) == s);
        assert(a.levels(s, 1) =~= a.levels(s, 0) + a.live_ids(a.level(s, 0)));
    } else {
        lemma_levels_step(a, a.flat_kids(s), (n - 1) as nat);
        assert(a.levels(s, n + 1) =~= a.levels(s, n) + a.live_ids(a.level(s, n)));
    }
}

/// Ids bounded by `fuel + 1` have children bounded by `fuel`; ids bounded
/// by 0 are all not live.
pub proof fn lemma_flat_bounded<W: Widget>(a: ArenaView<W>, s: Seq<WidgetId>, fuel: nat)
    requires
        a.all_bounded(s, fuel),
    ensures
        fuel > 0 ==> a.all_bounded(a.flat_kids(s), (fuel - 1) as nat),
        fuel == 0 ==> a.flat_kids(s) == Seq::<WidgetId>::empty(),
        fuel == 0 ==> a.live_ids(s) == Seq::<WidgetId>::empty(),
    decreases s.len(),
{
    if s.len() > 0 {
        let s0 = s.drop_last();
        let x = s.last();
        lemma_flat_bounded(a, s0, fuel);
        assert(a.all_bounded(s0, fuel) && a.bounded(x, fuel));
        assert(a.flat_kids(s) == a.flat_kids(s0) + a.kids(x));
        if !a.is_live(x) {
            assert(a.kids(x) =~= Seq::<WidgetId>::empty());
            assert(a.all_bounded(a.kids(x), (fuel - 1) as nat));
        }
        if fuel > 0 {
            lemma_concat(a, a.flat_kids(s0), a.kids(x), (fuel - 1) as nat);
        } else {
            assert(a.flat_kids(s) =~= Seq::<WidgetId>::empty());
            assert(a.live_ids(s) =~= Seq::<WidgetId>::empty());
        }
    }
}

/// Level `k` below ids bounded by `fuel` (with `k <= fuel`) is bounded by
/// `fuel - k`; level `fuel + 1` is empty.
pub proof fn lemma_level_bounded<W: Widget>(a: ArenaView<W>, s: Seq<WidgetId>, fuel: nat, k: nat)
    requires
        a.all_bounded(s, fuel),
        k <= fuel + 1,
    ensures
        k <= fuel ==> a.all_bounded(a.level(s, k), (fuel - k) as nat),
        k == fuel + 1 ==> a.level(s, k) == Seq::<WidgetId>::empty(),
    decreases k,
{
    if k > 0 {
        lemma_flat_bounded(a, s, fuel);
        if fuel > 0 {
            lemma_level_bounded(a, a.flat_kids(s), (fuel - 1) as nat, (k - 1) as nat);
        } else {
            assert(k == 1);
            assert(a.level(s, 1) == a.level(a.flat_kids(s), 0));
        }
    }
}

/// Below an empty sequence there is nothing.
pub proof fn lemma_levels_empty<W: Widget>(a: ArenaView<W>, n: nat)
    ensures
        a.levels(Seq::<WidgetId>::empty(), n) == Seq::<WidgetId>::empty(),
    decreases n,
{
    if n > 0 {
        assert(a.flat_kids(Seq::<WidgetId>::empty()) =~= Seq::<WidgetId>::empty());
        assert(a.live_ids(Seq::<WidgetId>::empty()) =~= Seq::<WidgetId>::empty());
        lemma_levels_empty(a, (n - 1) as nat);
        assert(a.levels(Seq::<WidgetId>::empty(), n) =~= Seq::<WidgetId>::empty());
    }
}

/// Once a level is empty, further levels add nothing.
pub proof fn lemma_levels_stable<W: Widget>(a: ArenaView<W>, s: Seq<WidgetId>, m: nat, n: nat)
    requires
        m <= n,
        a.level(s, m) == Seq::<WidgetId>::empty(),
    ensures
        a.levels(s, n) == a.levels(s, m),
    decreases m,
{
    if m == 0 {
        assert(s == Seq::<WidgetId>::empty());
        lemma_levels_empty(a, n);
        lemma_levels_empty(a, m);
    } else {
        lemma_levels_stable(a, a.flat_kids(s), (m - 1) as nat, (n - 1) as nat);
    }
}


/// The number of `true` entries.
pub open spec fn trues(s: Seq<bool>) -> nat
    decreases s.len(),
{
    if s.len() == 0 {
        0
    } else {
        trues(s.drop_last()) + if s.last() { 1nat } else { 0nat }
    }
}

/// Turning entries from `false` to `true`, and at least one, adds to the
/// count; the count never exceeds the length.
pub proof fn lemma_trues_grow(s: Seq<bool>, t: Seq<bool>)
    requires
        s.len() == t.len(),
        forall|i: int| 0 <= i < s.len() && #[trigger] s[i] ==> t[i],
    ensures
        trues(s) <= trues(t),
        s != t ==> trues(s) < trues(t),
        trues(t) <= t.len(),
    decreases s.len(),
{
    if s.len() == 0 {
        assert(s =~= t);
    } else {
        let s0 = s.drop_last();
        let t0 = t.drop_last();
        assert forall|i: int| 0 <= i < s0.len() && #[trigger] s0[i] implies t0[i] by {
            assert(s[i]);
        }
        lemma_trues_grow(s0, t0);
        assert(s.last() ==> t.last());
        if s0 == t0 && s.last() == t.last() {
            assert forall|i: int| 0 <= i < s.len() implies s[i] == t[i] by {
                if i < s0.len() {
                    assert(s[i] == s0[i]);
                    assert(t[i] == t0[i]);
                }
            }
            assert(s =~= t);
        }
    }
}

/// Once every id is bounded by `k + 1` exactly when it is bounded by `k`,
/// more fuel changes nothing.
pub proof fn lemma_bounded_fixpoint<W: Widget>(a: ArenaView<W>, k: nat, f: nat)
    requires
        forall|x: WidgetId| #[trigger] a.bounded(x, k) == a.bounded(x, k + 1),
        k <= f,
    ensures
        forall|x: WidgetId| #[trigger] a.bounded(x, f) == a.bounded(x, k),
    decreases f,
{
    if f > k {
        lemma_bounded_fixpoint(a, k, (f - 1) as nat);
        assert forall|x: WidgetId| #[trigger] a.bounded(x, f) == a.bounded(x, k) by {
            let g = (f - 1) as nat;
            let s = a.kids(x);
            lemma_all_bounded_index(a, s, g);
            lemma_all_bounded_index(a, s, k);
            assert(forall|i: int| 0 <= i < s.len() ==> a.bounded(#[trigger] s[i], g) == a.bounded(s[i], k));
            assert(a.bounded(x, k + 1) == a.bounded(x, k));
        }
    }
}


/// Every id of a pre-order walk is live.
pub proof fn lemma_pre_live<W: Widget>(a: ArenaView<W>, id: WidgetId, fuel: nat)
    ensures
        forall|i: int| 0 <= i < a.pre(id, fuel).len() ==> a.is_live(#[trigger] a.pre(id, fuel)[i]),
    decreases fuel, 0nat,
{
    if a.is_live(id) && fuel > 0 {
        let f1 = (fuel - 1) as nat;
        lemma_pre_list_live(a, a.kids(id), f1);
        let rest = a.pre_list(a.kids(id), f1);
        assert forall|i: int| 0 <= i < a.pre(id, fuel).len() implies a.is_live(#[trigger] a.pre(id, fuel)[i]) by {
            if i > 0 {
                assert(a.pre(id, fuel)[i] == rest[i - 1]);
            }
        }
    }
}

/// Every id of the pre-order walks of a sequence is live.
pub proof fn lemma_pre_list_live<W: Widget>(a: ArenaView<W>, s: Seq<WidgetId>, fuel: nat)
    ensures
        forall|i: int| 0 <= i < a.pre_list(s, fuel).len() ==> a.is_live(#[trigger] a.pre_list(s, fuel)[i]),
    decreases fuel, s.len(),
{
    if s.len() > 0 {
        lemma_pre_list_live(a, s.drop_last(), fuel);
        lemma_pre_live(a, s.last(), fuel);
        let l = a.pre_list(s.drop_last(), fuel);
        let r = a.pre(s.last(), fuel);
        assert forall|i: int| 0 <= i < a.pre_list(s, fuel).len() implies a.is_live(#[trigger] a.pre_list(s, fuel)[i]) by {
            if i < l.len() {
                assert(a.pre_list(s, fuel)[i] == l[i]);
            } else {
                assert(a.pre_list(s, fuel)[i] == r[i - l.len()]);
            }
        }
    }
}

/// Every id of `live_ids` is live.
pub proof fn lemma_live_ids_live<W: Widget>(a: ArenaView<W>, s: Seq<WidgetId>)
    ensures
        forall|i: int| 0 <= i < a.live_ids(s).len() ==> a.is_live(#[trigger] a.live_ids(s)[i]),
    decreases s.len(),
{
    if s.len() > 0 {
        lemma_live_ids_live(a, s.drop_last());
        let l = a.live_ids(s.drop_last());
        assert forall|i: int| 0 <= i < a.live_ids(s).len() implies a.is_live(#[trigger] a.live_ids(s)[i]) by {
            if i < l.len() {
                assert(a.live_ids(s)[i] == l[i]);
            }
        }
    }
}

/// Every id of a level-order walk is live.
pub proof fn lemma_levels_live<W: Widget>(a: ArenaView<W>, s: Seq<WidgetId>, n: nat)
    ensures
        forall|i: int| 0 <= i < a.levels(s, n).len() ==> a.is_live(#[trigger] a.levels(s, n)[i]),
    decreases n,
{
    if n > 0 {
        lemma_live_ids_live(a, s);
        lemma_levels_live(a, a.flat_kids(s), (n - 1) as nat);
        let l = a.live_ids(s);
        let r = a.levels(a.flat_kids(s), (n - 1) as nat);
        assert forall|i: int| 0 <= i < a.levels(s, n).len() implies a.is_live(#[trigger] a.levels(s, n)[i]) by {
            if i < l.len() {
                assert(a.levels(s, n)[i] == l[i]);
            } else {
                assert(a.levels(s, n)[i] == r[i - l.len()]);
            }
        }
    }
}

} // verus!
