use vstd::prelude::*;
use std::collections::VecDeque;
use crate::walk::{
    lemma_all_bounded_index, lemma_concat, lemma_level_bounded, lemma_levels_stable, lemma_levels_step,
    lemma_bounded_fixpoint, lemma_mono, lemma_mono_list, lemma_pre_list_cons, lemma_pre_stack_push,
    lemma_levels_live, lemma_pre_live, lemma_single, lemma_trues_grow, pre_stack, trues,
};

verus! {

/// Lightweight, copyable handle that refers to a widget inside a [`UiArena`].
///
/// A `WidgetId` is an index into the arena's flat storage.
#[derive(Debug, Clone, Copy, PartialEq, Eq, Hash, Structural)]
pub struct WidgetId(pub usize);

impl WidgetId {
    /// The handle of the slot at `index`.
    pub fn new(index: usize) -> (id: WidgetId)
        ensures
            id.0 == index,
    {
        WidgetId(index)
    }

    /// The slot index this handle refers to.
    pub fn index(&self) -> (i: usize)
        ensures
            i == self.0,
    {
        self.0
    }
}


/// The children of a widget as the proofs see them: a sequence of ids.
pub type ChildIds = Seq<WidgetId>;

/// The structural side of a widget: its name and the ids of its children.
///
/// Every widget stored in a [`UiArena`] implements this trait.  Widgets own
/// their children by [`WidgetId`], never by pointer, so the arena stays flat.
pub trait Widget {
    /// The ids of the immediate children, in order: the model that
    /// [`children`](Widget::children) returns.  It is read only in proofs
    /// and never executed, so an implementation written outside `verus!`
    /// may give it any body, such as `unreachable!()`.
    spec fn child_ids(&self) -> ChildIds;

    /// A human-readable name for this widget type (e.g. `"Button"`).
    fn name(&self) -> &'static str;

    /// Returns the ids of the immediate children, in order.
    fn children(&self) -> (ids: Vec<WidgetId>)
        ensures
            ids@ == self.child_ids(),
    ;

    /// Adds a child to this widget.  Only meaningful for container widgets;
    /// the default implementation leaves the widget, and so its children,
    /// as they are.
    fn add_child(&mut self, child: WidgetId)
        default_ensures
            final(self).child_ids() == old(self).child_ids(),
    {
    }
}

/// The mathematical content of a [`UiArena`]: one slot per spawned widget
/// and the designated root.
pub struct ArenaView<W> {
    pub slots: Seq<Option<W>>,
    pub root: Option<WidgetId>,
}

/// Central, flat storage for the widget tree.
///
/// Widgets live in a `Vec<Option<W>>`; a live slot is `Some(widget)` and a
/// widget's [`WidgetId`] is the index of its slot.
pub struct UiArena<W> {
    nodes: Vec<Option<W>>,
    root: Option<WidgetId>,
}

impl<W> View for UiArena<W> {
    type V = ArenaView<W>;

    closed spec fn view(&self) -> ArenaView<W> {
        ArenaView { slots: self.nodes@, root: self.root }
    }
}

impl<W> ArenaView<W> {
    /// The widget stored under `id`, if `id` names a live slot.
    pub open spec fn widget_at(self, id: WidgetId) -> Option<W> {
        if id.0 < self.slots.len() {
            self.slots[id.0 as int]
        } else {
            None
        }
    }

    /// `id` names a live widget.
    pub open spec fn is_live(self, id: WidgetId) -> bool {
        self.widget_at(id) is Some
    }

    /// The number of live widgets among `s`.
    pub open spec fn live_count(s: Seq<Option<W>>) -> nat
        decreases s.len(),
    {
        if s.len() == 0 {
            0
        } else {
            Self::live_count(s.drop_last()) + if s.last() is Some { 1nat } else { 0nat }
        }
    }
}

impl<W: Widget> UiArena<W> {
    /// Creates an empty arena.
    pub fn new() -> (arena: Self)
        ensures
            arena@.slots == Seq::<Option<W>>::empty(),
            arena@.root == None::<WidgetId>,
    {
        UiArena { nodes: Vec::new(), root: None }
    }

    /// Allocates a widget into the arena and returns its unique id, the
    /// index of the new slot.
    pub fn spawn(&mut self, widget: W) -> (id: WidgetId)
        ensures
            id.0 == old(self)@.slots.len(),
            final(self)@.slots == old(self)@.slots.push(Some(widget)),
            final(self)@.root == old(self)@.root,
    {
        let id = WidgetId(self.nodes.len());
        self.nodes.push(Some(widget));
        id
    }

    /// Returns a read-only reference to the widget, if the id is live.
    pub fn get(&self, id: WidgetId) -> (r: Option<&W>)
        ensures
            match r {
                Some(w) => self@.widget_at(id) == Some(*w),
                None => self@.widget_at(id) is None,
            },
    {
        if id.0 < self.nodes.len() {
            self.nodes[id.0].as_ref()
        } else {
            None
        }
    }

    /// Returns a mutable reference to the widget, if the id is live.  What
    /// is written through the reference becomes the slot's new widget.
    pub fn get_mut(&mut self, id: WidgetId) -> (r: Option<&mut W>)
        ensures
            match r {
                Some(w) => {
                    &&& old(self)@.widget_at(id) == Some(*w)
                    &&& final(self)@.slots == old(self)@.slots.update(id.0 as int, Some(*final(w)))
                    &&& final(self)@.root == old(self)@.root
                },
                None => {
                    &&& old(self)@.widget_at(id) is None
                    &&& final(self)@ == old(self)@
                },
            },
    {
        if id.0 < self.nodes.len() && self.nodes[id.0].is_some() {
            self.nodes[id.0].as_mut()
        } else {
            None
        }
    }

    /// Designates the given widget as the root of the tree.
    pub fn set_root(&mut self, id: WidgetId)
        requires
            old(self)@.is_live(id),
        ensures
            final(self)@.root == Some(id),
            final(self)@.slots == old(self)@.slots,
    {
        self.root = Some(id);
    }

    /// Returns the current root widget, if one has been set.
    pub fn root(&self) -> (r: Option<WidgetId>)
        ensures
            r == self@.root,
    {
        self.root
    }

    /// Returns the total number of live widgets in the arena.
    pub fn len(&self) -> (n: usize)
        ensures
            n == ArenaView::<W>::live_count(self@.slots),
    {
        let mut n: usize = 0;
        let mut i: usize = 0;
        while i < self.nodes.len()
            invariant
                i <= self.nodes@.len(),
                n == ArenaView::<W>::live_count(self.nodes@.take(i as int)),
                n <= i,
            decreases self.nodes@.len() - i,
        {
            assert(self.nodes@.take(i as int + 1).drop_last() == self.nodes@.take(i as int));
            if self.nodes[i].is_some() {
                n = n + 1;
            }
            i = i + 1;
        }
        assert(self.nodes@.take(i as int) == self.nodes@);
        n
    }

    /// The number of slots, live or not: every id below it has been handed
    /// out by [`spawn`](Self::spawn).
    pub fn slot_count(&self) -> (n: usize)
        ensures
            n == self@.slots.len(),
    {
        self.nodes.len()
    }

    /// Returns `true` if the arena contains no live widgets.
    pub fn is_empty(&self) -> (b: bool)
        ensures
            b == (ArenaView::<W>::live_count(self@.slots) == 0),
    {
        self.len() == 0
    }
}


impl<W: Widget> ArenaView<W> {
    /// The children of `id`; a slot that is not live has none.
    pub open spec fn kids(self, id: WidgetId) -> Seq<WidgetId> {
        match self.widget_at(id) {
            Some(w) => w.child_ids(),
            None => Seq::empty(),
        }
    }

    /// Every path of live widgets that starts at `id` has fewer than `fuel`
    /// live widgets on it.
    pub open spec fn bounded(self, id: WidgetId, fuel: nat) -> bool
        decreases fuel, 0nat,
    {
        !self.is_live(id) || (fuel > 0 && self.all_bounded(self.kids(id), (fuel - 1) as nat))
    }

    /// `bounded` holds of every id in `s`.
    pub open spec fn all_bounded(self, s: Seq<WidgetId>, fuel: nat) -> bool
        decreases fuel, s.len(),
    {
        s.len() == 0 || (self.all_bounded(s.drop_last(), fuel) && self.bounded(s.last(), fuel))
    }

    /// Pre-order walk of the subtree at `id`: the widget, then the walks of
    /// its children in order.  Ids that are not live are left out.
    pub open spec fn pre(self, id: WidgetId, fuel: nat) -> Seq<WidgetId>
        decreases fuel, 0nat,
    {
        if !self.is_live(id) || fuel == 0 {
            Seq::empty()
        } else {
            seq![id] + self.pre_list(self.kids(id), (fuel - 1) as nat)
        }
    }

    /// The pre-order walks of the ids in `s`, one after the other.
    pub open spec fn pre_list(self, s: Seq<WidgetId>, fuel: nat) -> Seq<WidgetId>
        decreases fuel, s.len(),
    {
        if s.len() == 0 {
            Seq::empty()
        } else {
            self.pre_list(s.drop_last(), fuel) + self.pre(s.last(), fuel)
        }
    }

    /// Post-order walk of the subtree at `id`: the walks of its children in
    /// order, then the widget itself.  Ids that are not live are left out.
    pub open spec fn post(self, id: WidgetId, fuel: nat) -> Seq<WidgetId>
        decreases fuel, 0nat,
    {
        if !self.is_live(id) || fuel == 0 {
            Seq::empty()
        } else {
            self.post_list(self.kids(id), (fuel - 1) as nat).push(id)
        }
    }

    /// The post-order walks of the ids in `s`, one after the other.
    pub open spec fn post_list(self, s: Seq<WidgetId>, fuel: nat) -> Seq<WidgetId>
        decreases fuel, s.len(),
    {
        if s.len() == 0 {
            Seq::empty()
        } else {
            self.post_list(s.drop_last(), fuel) + self.post(s.last(), fuel)
        }
    }

    /// A walk from `start` ends: no path of live widgets from `start` runs
    /// forever (the subtree below `start` has no cycle).
    pub open spec fn walk_terminates(self, start: WidgetId) -> bool {
        exists|fuel: nat| self.bounded(start, fuel)
    }

    /// A fuel that bounds the subtree at `start`, if there is one.
    pub open spec fn depth_bound(self, start: WidgetId) -> nat {
        choose|fuel: nat| self.bounded(start, fuel)
    }

    /// Pre-order (depth-first) sequence of the live widgets below `start`.
    pub open spec fn preorder(self, start: WidgetId) -> Seq<WidgetId> {
        self.pre(start, self.depth_bound(start))
    }

    /// Post-order sequence of the live widgets below `start`.
    pub open spec fn postorder(self, start: WidgetId) -> Seq<WidgetId> {
        self.post(start, self.depth_bound(start))
    }

    /// The children of all ids in `s`, in order.
    pub open spec fn flat_kids(self, s: Seq<WidgetId>) -> Seq<WidgetId>
        decreases s.len(),
    {
        if s.len() == 0 {
            Seq::empty()
        } else {
            self.flat_kids(s.drop_last()) + self.kids(s.last())
        }
    }

    /// The ids of `s` that are live, in order.
    pub open spec fn live_ids(self, s: Seq<WidgetId>) -> Seq<WidgetId>
        decreases s.len(),
    {
        if s.len() == 0 {
            Seq::empty()
        } else {
            self.live_ids(s.drop_last()) + if self.is_live(s.last()) {
                seq![s.last()]
            } else {
                Seq::empty()
            }
        }
    }

    /// Level `k` below the ids in `s`: `s` itself for `k == 0`, else level
    /// `k - 1` below the children of `s`.
    pub open spec fn level(self, s: Seq<WidgetId>, k: nat) -> Seq<WidgetId>
        decreases k,
    {
        if k == 0 {
            s
        } else {
            self.level(self.flat_kids(s), (k - 1) as nat)
        }
    }

    /// The live ids of the first `n` levels below `s`, level after level.
    pub open spec fn levels(self, s: Seq<WidgetId>, n: nat) -> Seq<WidgetId>
        decreases n,
    {
        if n == 0 {
            Seq::empty()
        } else {
            self.live_ids(s) + self.levels(self.flat_kids(s), (n - 1) as nat)
        }
    }

    /// `f` has been called on each of the first `i` entries of `s`, with the
    /// entry and the widget it names.
    pub open spec fn visited_before<F: FnMut(WidgetId, &W)>(self, f: F, s: Seq<WidgetId>, i: int) -> bool {
        forall|j: int| 0 <= j < i ==> call_ensures(f, (#[trigger] s[j], &self.widget_at(s[j])->Some_0), ())
    }

    /// `f` may be called on entry `i` of `s` (with the widget it names) once
    /// it has been called on every earlier entry, and on nothing else: the
    /// visitor accepts the entries of `s` one after the other, in order.
    pub open spec fn visits_in_order<F: FnMut(WidgetId, &W)>(self, f: F, s: Seq<WidgetId>) -> bool {
        forall|i: int|
            0 <= i < s.len() && #[trigger] self.visited_before(f, s, i) ==> call_requires(
                f,
                (s[i], &self.widget_at(s[i])->Some_0),
            )
    }

    /// Level-order (breadth-first) sequence of the live widgets below `start`.
    pub open spec fn levelorder(self, start: WidgetId) -> Seq<WidgetId> {
        self.levels(seq![start], self.depth_bound(start) + 1)
    }
}


impl<W: Widget> UiArena<W> {
    /// The ids of the live widgets below `start` in depth-first, top-down
    /// order: each widget comes before its children, and the subtree of a
    /// child comes before the subtree of the next child.
    pub fn preorder_ids(&self, start: WidgetId) -> (order: Vec<WidgetId>)
        requires
            self@.walk_terminates(start),
        ensures
            order@ == self@.preorder(start),
    {
        let ghost a = self@;
        let ghost fuel = a.depth_bound(start);
        let mut order: Vec<WidgetId> = Vec::new();
        let mut stack: Vec<WidgetId> = Vec::new();
        stack.push(start);
        proof {
            lemma_pre_stack_push(a, Seq::empty(), start, fuel);
            assert(pre_stack(a, Seq::<WidgetId>::empty(), fuel) =~= Seq::<WidgetId>::empty());
            assert(a.all_bounded(Seq::<WidgetId>::empty(), fuel));
            assert(stack@ == Seq::<WidgetId>::empty().push(start));
            assert(order@ + pre_stack(a, stack@, fuel) =~= a.pre(start, fuel));
        }
        while stack.len() > 0
            invariant
                self@ == a,
                a.all_bounded(stack@, fuel),
                order@ + pre_stack(a, stack@, fuel) == a.pre(start, fuel),
            decreases pre_stack(a, stack@, fuel).len(), stack@.len(),
        {
            let ghost before = stack@;
            let id = stack.pop().unwrap();
            let ghost rest = stack@;
            proof {
                assert(before == rest.push(id));
                lemma_pre_stack_push(a, rest, id, fuel);
            }
            match self.get(id) {
                Some(w) => {
                    order.push(id);
                    let children = w.children();
                    proof {
                        lemma_mono_list(a, children@, (fuel - 1) as nat, fuel);
                        assert(children@.skip(children@.len() as int) =~= Seq::<WidgetId>::empty());
                    }
                    let mut k = children.len();
                    while k > 0
                        invariant
                            self@ == a,
                            k <= children@.len(),
                            children@ == a.kids(id),
                            a.all_bounded(children@, fuel),
                            a.all_bounded(stack@, fuel),
                            pre_stack(a, stack@, fuel) == a.pre_list(children@.skip(k as int), fuel)
                                + pre_stack(a, rest, fuel),
                        decreases k,
                    {
                        k = k - 1;
                        let ghost prev = stack@;
                        let c = children[k];
                        stack.push(c);
                        proof {
                            lemma_all_bounded_index(a, children@, fuel);
                            lemma_pre_stack_push(a, prev, c, fuel);
                            assert(children@.skip(k as int) =~= seq![c] + children@.skip(k + 1));
                            lemma_pre_list_cons(a, c, children@.skip(k + 1), fuel);
                        }
                    }
                    proof {
                        assert(children@.skip(0) =~= children@);
                        assert(order@ + pre_stack(a, stack@, fuel) =~= a.pre(start, fuel));
                    }
                },
                None => {},
            }
        }
        proof {
            assert(order@ =~= order@ + pre_stack(a, stack@, fuel));
        }
        order
    }
}


impl<W: Widget> UiArena<W> {
    /// The ids of the live widgets below `start` in breadth-first
    /// (level) order: `start`, then its children, then their children, and
    /// so on, each level from the first child to the last.
    pub fn levelorder_ids(&self, start: WidgetId) -> (order: Vec<WidgetId>)
        requires
            self@.walk_terminates(start),
        ensures
            order@ == self@.levelorder(start),
    {
        let ghost a = self@;
        let ghost fuel = a.depth_bound(start);
        let ghost roots = seq![start];
        let ghost mut k: nat = 0;
        let ghost mut j: int = 0;
        let mut order: Vec<WidgetId> = Vec::new();
        let mut queue: VecDeque<WidgetId> = VecDeque::new();
        queue.push_back(start);
        proof {
            lemma_single(a, start, fuel);
            lemma_level_bounded(a, roots, fuel, 0);
            assert(a.level(roots, 0) == roots);
            assert(roots.take(0) =~= Seq::<WidgetId>::empty());
            assert(a.flat_kids(Seq::<WidgetId>::empty()) =~= Seq::<WidgetId>::empty());
            assert(a.live_ids(Seq::<WidgetId>::empty()) =~= Seq::<WidgetId>::empty());
            assert(a.levels(roots, 0) =~= Seq::<WidgetId>::empty());
            assert(queue@ =~= roots.skip(0) + a.flat_kids(roots.take(0)));
            assert(order@ =~= a.levels(roots, 0) + a.live_ids(roots.take(0)));
        }
        while queue.len() > 0
            invariant
                self@ == a,
                a.bounded(start, fuel),
                roots == seq![start],
                a.all_bounded(roots, fuel),
                k <= fuel + 1,
                k <= fuel ==> a.all_bounded(a.level(roots, k), (fuel - k) as nat),
                k == fuel + 1 ==> a.level(roots, k).len() == 0,
                0 <= j <= a.level(roots, k).len(),
                j < a.level(roots, k).len() || (j == 0 && a.level(roots, k).len() == 0),
                queue@ == a.level(roots, k).skip(j) + a.flat_kids(a.level(roots, k).take(j)),
                order@ == a.levels(roots, k) + a.live_ids(a.level(roots, k).take(j)),
            decreases fuel + 1 - k, a.level(roots, k).len() - j,
        {
            let ghost cur = a.level(roots, k);
            let id = queue.pop_front().unwrap();
            proof {
                assert(cur.skip(j)[0] == cur[j]);
                assert(id == cur[j]);
                assert(cur.take(j + 1) =~= cur.take(j).push(id));
                assert(cur.take(j + 1).drop_last() =~= cur.take(j));
                assert(queue@ =~= cur.skip(j + 1) + a.flat_kids(cur.take(j)));
            }
            match self.get(id) {
                Some(w) => {
                    order.push(id);
                    let children = w.children();
                    let ghost base = queue@;
                    let mut i: usize = 0;
                    while i < children.len()
                        invariant
                            i <= children@.len(),
                            queue@ == base + children@.take(i as int),
                        decreases children@.len() - i,
                    {
                        queue.push_back(children[i]);
                        proof {
                            assert(children@.take(i + 1) =~= children@.take(i as int).push(children@[i as int]));
                        }
                        i = i + 1;
                    }
                    proof {
                        assert(children@.take(i as int) =~= children@);
                    }
                },
                None => {},
            }
            proof {
                assert(a.flat_kids(cur.take(j + 1)) == a.flat_kids(cur.take(j)) + a.kids(id));
                assert(queue@ =~= cur.skip(j + 1) + a.flat_kids(cur.take(j + 1)));
                assert(order@ =~= a.levels(roots, k) + a.live_ids(cur.take(j + 1)));
                j = j + 1;
                if j == cur.len() {
                    lemma_levels_step(a, roots, k);
                    assert(cur.take(j) =~= cur);
                    assert(cur.skip(j) =~= Seq::<WidgetId>::empty());
                    if k < fuel {
                        lemma_level_bounded(a, roots, fuel, k + 1);
                    } else {
                        lemma_level_bounded(a, roots, fuel, fuel + 1);
                    }
                    k = k + 1;
                    j = 0;
                    let nxt = a.level(roots, k);
                    assert(nxt.take(0) =~= Seq::<WidgetId>::empty());
                    assert(nxt.skip(0) =~= nxt);
                    assert(a.flat_kids(Seq::<WidgetId>::empty()) =~= Seq::<WidgetId>::empty());
                    assert(a.live_ids(Seq::<WidgetId>::empty()) =~= Seq::<WidgetId>::empty());
                    assert(queue@ =~= nxt.skip(0) + a.flat_kids(nxt.take(0)));
                    assert(order@ =~= a.levels(roots, k) + a.live_ids(nxt.take(0)));
                }
            }
        }
        proof {
            let cur = a.level(roots, k);
            assert(cur.len() == 0);
            assert(cur =~= Seq::<WidgetId>::empty());
            assert(cur.take(j) =~= Seq::<WidgetId>::empty());
            assert(a.live_ids(Seq::<WidgetId>::empty()) =~= Seq::<WidgetId>::empty());
            lemma_levels_stable(a, roots, k, fuel + 1);
            assert(order@ =~= a.levels(roots, k));
        }
        order
    }
}


impl<W: Widget> UiArena<W> {
    /// Depth-first, top-down traversal starting at `start`: the visitor is
    /// called with each widget's id and the widget, on the entries of
    /// [`preorder_ids`](Self::preorder_ids) (each widget before its
    /// children) in that order: the visitor is required to accept an entry
    /// only after every earlier one, and the contract states that every
    /// entry was passed to it.
    pub fn traverse<F: FnMut(WidgetId, &W)>(&self, start: WidgetId, mut f: F)
        requires
            self@.walk_terminates(start),
            self@.visits_in_order(f, self@.preorder(start)),
        ensures
            forall|i: int|
                0 <= i < self@.preorder(start).len() ==> call_ensures(
                    f,
                    (#[trigger] self@.preorder(start)[i], &self@.widget_at(self@.preorder(start)[i])->Some_0),
                    (),
                ),
    {
        let order = self.preorder_ids(start);
        proof {
            lemma_pre_live(self@, start, self@.depth_bound(start));
        }
        self.visit_in_order(&order, f);
    }

    /// Breadth-first, top-down traversal starting at `start`: the visitor
    /// is called with each widget's id and the widget, on the entries of
    /// [`levelorder_ids`](Self::levelorder_ids) (level after level) in that
    /// order: the visitor is required to accept an entry only after every
    /// earlier one, and the contract states that every entry was passed to
    /// it.
    pub fn traverse_bfs<F: FnMut(WidgetId, &W)>(&self, start: WidgetId, mut f: F)
        requires
            self@.walk_terminates(start),
            self@.visits_in_order(f, self@.levelorder(start)),
        ensures
            forall|i: int|
                0 <= i < self@.levelorder(start).len() ==> call_ensures(
                    f,
                    (#[trigger] self@.levelorder(start)[i], &self@.widget_at(self@.levelorder(start)[i])->Some_0),
                    (),
                ),
    {
        let order = self.levelorder_ids(start);
        proof {
            lemma_levels_live(self@, seq![start], self@.depth_bound(start) + 1);
        }
        self.visit_in_order(&order, f);
    }

    /// Calls `f` on each id of `order` and the widget it names, in order:
    /// `f` accepts entry `i` only after entries `0..i`.
    fn visit_in_order<F: FnMut(WidgetId, &W)>(&self, order: &Vec<WidgetId>, mut f: F)
        requires
            forall|i: int| 0 <= i < order@.len() ==> self@.is_live(#[trigger] order@[i]),
            self@.visits_in_order(f, order@),
        ensures
            forall|i: int|
                0 <= i < order@.len() ==> call_ensures(
                    f,
                    (#[trigger] order@[i], &self@.widget_at(order@[i])->Some_0),
                    (),
                ),
    {
        let ghost f0 = f;
        let mut i: usize = 0;
        while i < order.len()
            invariant
                i <= order@.len(),
                f == f0,
                forall|j: int| 0 <= j < order@.len() ==> self@.is_live(#[trigger] order@[j]),
                self@.visits_in_order(f, order@),
                self@.visited_before(f, order@, i as int),
            decreases order@.len() - i,
        {
            let id = order[i];
            assert(self@.visited_before(f, order@, i as int));
            match self.get(id) {
                Some(w) => f(id, w),
                None => {},
            }
            i = i + 1;
        }
    }
}

impl<W: Widget> Default for UiArena<W> {
    /// An empty arena, as [`UiArena::new`].
    fn default() -> (arena: Self)
        ensures
            arena@.slots == Seq::<Option<W>>::empty(),
            arena@.root == None::<WidgetId>,
    {
        Self::new()
    }
}


impl<W: Widget> UiArena<W> {
    /// For every slot, whether its walk is bounded by `fuel + 1`, given the
    /// same flags for `fuel`.
    fn bounded_flags_step(&self, prev: &Vec<bool>, Ghost(fuel): Ghost<nat>) -> (next: Vec<bool>)
        requires
            prev@.len() == self@.slots.len(),
            forall|x: int| 0 <= x < prev@.len() ==> #[trigger] prev@[x] == self@.bounded(WidgetId(x as usize), fuel),
        ensures
            next@.len() == prev@.len(),
            forall|x: int| 0 <= x < next@.len() ==> #[trigger] next@[x] == self@.bounded(WidgetId(x as usize), fuel + 1),
    {
        let ghost a = self@;
        let n = self.nodes.len();
        let mut next: Vec<bool> = Vec::new();
        let mut x: usize = 0;
        while x < n
            invariant
                self@ == a,
                n == a.slots.len(),
                prev@.len() == n,
                forall|y: int| 0 <= y < n ==> #[trigger] prev@[y] == a.bounded(WidgetId(y as usize), fuel),
                x <= n,
                next@.len() == x,
                forall|y: int| 0 <= y < x ==> #[trigger] next@[y] == a.bounded(WidgetId(y as usize), fuel + 1),
            decreases n - x,
        {
            let flag = match self.get(WidgetId(x)) {
                None => true,
                Some(w) => {
                    let kids = w.children();
                    let mut ok = true;
                    let mut j: usize = 0;
                    while j < kids.len()
                        invariant
                            self@ == a,
                            n == a.slots.len(),
                            prev@.len() == n,
                            forall|y: int| 0 <= y < n ==> #[trigger] prev@[y] == a.bounded(WidgetId(y as usize), fuel),
                            j <= kids@.len(),
                            ok == (forall|i: int| 0 <= i < j ==> a.bounded(#[trigger] kids@[i], fuel)),
                        decreases kids@.len() - j,
                    {
                        let c = kids[j];
                        let c_ok = if c.0 < n {
                            proof {
                                assert(prev@[c.0 as int] == a.bounded(WidgetId(c.0), fuel));
                                assert(WidgetId(c.0) == c);
                            }
                            prev[c.0]
                        } else {
                            true
                        };
                        ok = ok && c_ok;
                        j = j + 1;
                    }
                    proof {
                        lemma_all_bounded_index(a, kids@, fuel);
                    }
                    ok
                },
            };
            next.push(flag);
            x = x + 1;
        }
        next
    }

    /// Returns `true` exactly when a walk from `start` ends: no path of
    /// live widgets from `start` runs forever.  The traversals and the hit
    /// test ask this of their start.
    pub fn walk_ends(&self, start: WidgetId) -> (b: bool)
        ensures
            b == self@.walk_terminates(start),
    {
        let ghost a = self@;
        let n = self.nodes.len();
        if start.0 >= n {
            assert(a.bounded(start, 0));
            return true;
        }
        let mut cur: Vec<bool> = Vec::new();
        let mut x: usize = 0;
        while x < n
            invariant
                self@ == a,
                n == a.slots.len(),
                x <= n,
                cur@.len() == x,
                forall|y: int| 0 <= y < x ==> #[trigger] cur@[y] == a.bounded(WidgetId(y as usize), 0),
            decreases n - x,
        {
            cur.push(self.nodes[x].is_none());
            x = x + 1;
        }
        let ghost mut fuel: nat = 0;
        loop
            invariant
                self@ == a,
                n == a.slots.len(),
                start.0 < n,
                cur@.len() == n,
                forall|y: int| 0 <= y < n ==> #[trigger] cur@[y] == a.bounded(WidgetId(y as usize), fuel),
            decreases n - trues(cur@),
        {
            let next = self.bounded_flags_step(&cur, Ghost(fuel));
            proof {
                assert forall|y: int| 0 <= y < n && #[trigger] cur@[y] implies next@[y] by {
                    lemma_mono(a, WidgetId(y as usize), fuel, fuel + 1);
                }
                lemma_trues_grow(cur@, next@);
            }
            let mut same = true;
            let mut i: usize = 0;
            while i < n
                invariant
                    i <= n,
                    cur@.len() == n,
                    next@.len() == n,
                    same == (forall|y: int| 0 <= y < i ==> cur@[y] == next@[y]),
                decreases n - i,
            {
                same = same && cur[i] == next[i];
                i = i + 1;
            }
            if same {
                proof {
                    assert forall|y: WidgetId| #[trigger] a.bounded(y, fuel) == a.bounded(y, fuel + 1) by {
                        if y.0 < n {
                            assert(WidgetId(y.0) == y);
                            assert(cur@[y.0 as int] == next@[y.0 as int]);
                        }
                    }
                    assert(WidgetId(start.0) == start);
                    if a.walk_terminates(start) {
                        let f = a.depth_bound(start);
                        if f <= fuel {
                            lemma_mono(a, start, f, fuel);
                        } else {
                            lemma_bounded_fixpoint(a, fuel, f);
                        }
                    }
                }
                return cur[start.0];
            }
            proof {
                assert(cur@ != next@);
                fuel = fuel + 1;
            }
            cur = next;
        }
    }
}

} // verus!
