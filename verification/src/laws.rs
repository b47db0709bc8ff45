use vstd::prelude::*;
use vstd::multiset::Multiset;
use vstd::seq_lib::lemma_multiset_commutative;
use crate::arena::{ArenaView, Widget, WidgetId};
use crate::events::{hit_ids, is_hit, lemma_hit_ids_concat, lemma_hit_ids_single};
use crate::shell::{native_pixel, wheat_byte, MouseButton, PlatformEvent, ShellAction, ShellNotice, ShellStateView};
use crate::walk::{lemma_concat, lemma_depth_bound, lemma_flat_bounded, lemma_single};

verus! {

broadcast use {vstd::multiset::group_multiset_axioms, vstd::seq_lib::group_to_multiset_ensures};

/// The walks of a sequence, as a multiset: its live ids plus the walks of
/// all their children.
proof fn lemma_pre_list_split<W: Widget>(a: ArenaView<W>, s: Seq<WidgetId>, fuel: nat)
    requires
        fuel > 0,
    ensures
        a.pre_list(s, fuel).to_multiset() == a.live_ids(s).to_multiset().add(
            a.pre_list(a.flat_kids(s), (fuel - 1) as nat).to_multiset(),
        ),
    decreases s.len(),
{
    let f1 = (fuel - 1) as nat;
    if s.len() == 0 {
        assert(a.flat_kids(s) =~= Seq::<WidgetId>::empty());
        assert(a.pre_list(s, fuel) =~= Seq::<WidgetId>::empty());
        assert(a.live_ids(s) =~= Seq::<WidgetId>::empty());
        assert(a.pre_list(Seq::<WidgetId>::empty(), f1) =~= Seq::<WidgetId>::empty());
        assert(a.pre_list(s, fuel).to_multiset() =~= a.live_ids(s).to_multiset().add(
            a.pre_list(a.flat_kids(s), f1).to_multiset(),
        ));
    } else {
        let s0 = s.drop_last();
        let x = s.last();
        lemma_pre_list_split(a, s0, fuel);
        lemma_concat(a, a.flat_kids(s0), a.kids(x), f1);
        let own = if a.is_live(x) { seq![x] } else { Seq::<WidgetId>::empty() };
        lemma_multiset_commutative(a.pre_list(s0, fuel), a.pre(x, fuel));
        lemma_multiset_commutative(a.live_ids(s0), own);
        lemma_multiset_commutative(a.pre_list(a.flat_kids(s0), f1), a.pre_list(a.kids(x), f1));
        if a.is_live(x) {
            lemma_multiset_commutative(own, a.pre_list(a.kids(x), f1));
            assert(a.pre(x, fuel) == own + a.pre_list(a.kids(x), f1));
        } else {
            assert(a.kids(x) =~= Seq::<WidgetId>::empty());
            assert(a.pre_list(a.kids(x), f1) =~= Seq::<WidgetId>::empty());
            assert(a.pre(x, fuel) =~= Seq::<WidgetId>::empty());
            assert(own.to_multiset() =~= Multiset::<WidgetId>::empty());
        }
        assert(a.pre_list(s, fuel).to_multiset() =~= a.live_ids(s).to_multiset().add(
            a.pre_list(a.flat_kids(s), f1).to_multiset(),
        ));
    }
}

/// Depth-first walks of bounded ids hold the same ids as their levels.
proof fn lemma_pre_list_levels<W: Widget>(a: ArenaView<W>, s: Seq<WidgetId>, fuel: nat)
    requires
        a.all_bounded(s, fuel),
    ensures
        a.pre_list(s, fuel).to_multiset() == a.levels(s, fuel + 1).to_multiset(),
    decreases fuel,
{
    lemma_flat_bounded(a, s, fuel);
    if fuel == 0 {
        lemma_pre_list_zero(a, s);
        assert(a.levels(a.flat_kids(s), 0) =~= Seq::<WidgetId>::empty());
        assert(a.levels(s, 1) =~= Seq::<WidgetId>::empty());
    } else {
        let f1 = (fuel - 1) as nat;
        lemma_pre_list_split(a, s, fuel);
        lemma_pre_list_levels(a, a.flat_kids(s), f1);
        lemma_multiset_commutative(a.live_ids(s), a.levels(a.flat_kids(s), fuel));
        assert(a.levels(s, fuel + 1) == a.live_ids(s) + a.levels(a.flat_kids(s), fuel));
    }
}

/// With no fuel a walk visits nothing.
proof fn lemma_pre_list_zero<W: Widget>(a: ArenaView<W>, s: Seq<WidgetId>)
    ensures
        a.pre_list(s, 0) == Seq::<WidgetId>::empty(),
    decreases s.len(),
{
    if s.len() > 0 {
        lemma_pre_list_zero(a, s.drop_last());
        assert(a.pre(s.last(), 0) =~= Seq::<WidgetId>::empty());
        assert(a.pre_list(s, 0) =~= Seq::<WidgetId>::empty());
    }
}

/// The depth-first and the breadth-first traversal from `start` visit the
/// same widgets, each as often: they differ only in order.
pub proof fn law_traversals_visit_same_widgets<W: Widget>(a: ArenaView<W>, start: WidgetId)
    requires
        a.walk_terminates(start),
    ensures
        a.preorder(start).to_multiset() == a.levelorder(start).to_multiset(),
{
    let fuel = a.depth_bound(start);
    lemma_depth_bound(a, start);
    lemma_single(a, start, fuel);
    lemma_pre_list_levels(a, seq![start], fuel);
}


/// What `spawn` stores, `get` gives back: the new id names the new widget,
/// it named nothing before, every other id keeps its widget, and the arena
/// holds one more live widget.
pub proof fn law_spawn_then_get<W: Widget>(
    before: ArenaView<W>,
    after: ArenaView<W>,
    widget: W,
    id: WidgetId,
    other: WidgetId,
)
    requires
        id.0 == before.slots.len(),
        after.slots == before.slots.push(Some(widget)),
        other != id,
    ensures
        before.widget_at(id) is None,
        after.widget_at(id) == Some(widget),
        after.widget_at(other) == before.widget_at(other),
        ArenaView::<W>::live_count(after.slots) == ArenaView::<W>::live_count(before.slots) + 1,
{
    assert(after.slots.drop_last() =~= before.slots);
}

/// What is written through `get_mut`, `get` gives back; every other id
/// keeps its widget and the number of live widgets stays the same.
pub proof fn law_get_mut_then_get<W: Widget>(
    before: ArenaView<W>,
    after: ArenaView<W>,
    id: WidgetId,
    written: W,
    other: WidgetId,
)
    requires
        before.is_live(id),
        after.slots == before.slots.update(id.0 as int, Some(written)),
        other != id,
    ensures
        after.widget_at(id) == Some(written),
        after.widget_at(other) == before.widget_at(other),
        ArenaView::<W>::live_count(after.slots) == ArenaView::<W>::live_count(before.slots),
{
    lemma_live_count_update(before.slots, id.0 as int, Some(written));
}

/// Replacing a live slot by a live slot keeps the live count.
proof fn lemma_live_count_update<W>(s: Seq<Option<W>>, i: int, v: Option<W>)
    requires
        0 <= i < s.len(),
        s[i] is Some,
        v is Some,
    ensures
        ArenaView::<W>::live_count(s.update(i, v)) == ArenaView::<W>::live_count(s),
    decreases s.len(),
{
    if i == s.len() - 1 {
        assert(s.update(i, v).drop_last() =~= s.drop_last());
    } else {
        lemma_live_count_update(s.drop_last(), i, v);
        assert(s.update(i, v).drop_last() =~= s.drop_last().update(i, v));
    }
}

/// Both traversals start at `start` when it is live, and visit nothing
/// when it is not; the post-order walk ends at `start`.
pub proof fn law_traversals_start_at_start<W: Widget>(a: ArenaView<W>, start: WidgetId)
    requires
        a.walk_terminates(start),
    ensures
        a.is_live(start) ==> a.preorder(start).len() > 0 && a.preorder(start)[0] == start,
        a.is_live(start) ==> a.levelorder(start).len() > 0 && a.levelorder(start)[0] == start,
        a.is_live(start) ==> a.postorder(start).len() > 0 && a.postorder(start).last() == start,
        !a.is_live(start) ==> a.preorder(start).len() == 0 && a.levelorder(start).len() == 0
            && a.postorder(start).len() == 0,
{
    let fuel = a.depth_bound(start);
    lemma_depth_bound(a, start);
    lemma_single(a, start, fuel);
    let roots = seq![start];
    assert(a.levelorder(start) == a.live_ids(roots) + a.levels(a.flat_kids(roots), fuel));
    if !a.is_live(start) {
        assert(a.kids(start) =~= Seq::<WidgetId>::empty());
        crate::walk::lemma_levels_empty(a, fuel);
    }
}


/// The click candidates of a walk are exactly its widgets whose frame
/// contains the click: each candidate is a hit widget of the walk, and each
/// hit widget of the walk is a candidate.
pub proof fn law_candidates_are_the_hits(s: Seq<WidgetId>, hits: Seq<bool>)
    ensures
        forall|i: int|
            0 <= i < hit_ids(s, hits).len() ==> is_hit(#[trigger] hit_ids(s, hits)[i], hits) && s.contains(
                hit_ids(s, hits)[i],
            ),
        forall|i: int| 0 <= i < s.len() && is_hit(#[trigger] s[i], hits) ==> hit_ids(s, hits).contains(s[i]),
{
    let pred = |id: WidgetId| is_hit(id, hits);
    assert forall|i: int| 0 <= i < hit_ids(s, hits).len() implies is_hit(
        #[trigger] hit_ids(s, hits)[i],
        hits,
    ) && s.contains(hit_ids(s, hits)[i]) by {
        s.lemma_filter_pred(pred, i);
        s.lemma_filter_contains_rev(pred, hit_ids(s, hits)[i]);
        s.filter_lemma(pred);
    }
    assert forall|i: int| 0 <= i < s.len() && is_hit(#[trigger] s[i], hits) implies hit_ids(s, hits).contains(s[i]) by {
        s.lemma_filter_contains(pred, i);
    }
}

/// Children are offered the click before their parent: when the start
/// widget's frame contains the click, it is the last candidate, after every
/// hit widget below it.
pub proof fn law_children_before_parent<W: Widget>(a: ArenaView<W>, start: WidgetId, hits: Seq<bool>)
    requires
        a.walk_terminates(start),
        a.is_live(start),
        is_hit(start, hits),
    ensures
        a.postorder(start).last() == start,
        hit_ids(a.postorder(start), hits) == hit_ids(a.postorder(start).drop_last(), hits).push(start),
{
    let fuel = a.depth_bound(start);
    lemma_depth_bound(a, start);
    law_traversals_start_at_start(a, start);
    let p = a.postorder(start);
    let below = a.post_list(a.kids(start), (fuel - 1) as nat);
    assert(p =~= below + seq![start]);
    assert(p.drop_last() =~= below);
    lemma_hit_ids_concat(below, seq![start], hits);
    lemma_hit_ids_single(start, hits);
    assert(hit_ids(p, hits) =~= hit_ids(below, hits).push(start));
}

/// What `insert` records, `get` gives back; the frames of other widgets
/// stay as they were, and after `clear` no widget has a frame.
pub proof fn law_layout_insert_then_get<R>(before: Map<WidgetId, R>, id: WidgetId, frame: R, other: WidgetId)
    requires
        other != id,
    ensures
        before.insert(id, frame).contains_key(id),
        before.insert(id, frame)[id] == frame,
        before.insert(id, frame).contains_key(other) == before.contains_key(other),
        before.contains_key(other) ==> before.insert(id, frame)[other] == before[other],
        !Map::<WidgetId, R>::empty().contains_key(id),
{
}


/// Before the window exists every event but `Resumed` is ignored, and once
/// it exists a second `Resumed` is ignored: the window is opened once.
pub proof fn law_window_opens_once(s: ShellStateView, event: PlatformEvent)
    ensures
        !s.window_open && event != PlatformEvent::Resumed ==> s.actions(event).len() == 0 && s.next(event)
            == s,
        s.next(PlatformEvent::Resumed).window_open,
        s.next(PlatformEvent::Resumed).actions(PlatformEvent::Resumed).len() == 0,
{
}

/// Every handled resize and every reported mouse button ends with a
/// redraw request; every redraw notifies the handler before the frame is
/// shown.
pub proof fn law_input_requests_redraw(s: ShellStateView, event: PlatformEvent)
    requires
        s.window_open,
    ensures
        (event is Resized || (event matches PlatformEvent::MouseInput { button: Some(_), .. }))
            ==> s.actions(event).last() == ShellAction::RequestRedraw,
        event == PlatformEvent::RedrawRequested ==> s.actions(event) == seq![
            ShellAction::ClearFrame { width: s.width, height: s.height },
            ShellAction::Notify(ShellNotice::Redraw),
            ShellAction::Present,
        ],
{
}

/// A cleared frame is shown as native wheat pixels, `0x00F5DEB3`.
pub proof fn law_cleared_frame_presents_wheat(frame: Seq<u8>, p: int)
    requires
        forall|i: int| 0 <= i < frame.len() ==> #[trigger] frame[i] == wheat_byte(i % 4),
        0 <= p,
        4 * p + 4 <= frame.len(),
    ensures
        native_pixel(frame[4 * p], frame[4 * p + 1], frame[4 * p + 2]) == 0x00F5_DEB3,
{
    assert((4 * p) % 4 == 0);
    assert((4 * p + 1) % 4 == 1);
    assert((4 * p + 2) % 4 == 2);
    assert(frame[4 * p] == 0xF5u8);
    assert(frame[4 * p + 1] == 0xDEu8);
    assert(frame[4 * p + 2] == 0xB3u8);
}


/// A mouse button event on an open window is reported with the same button
/// it came with, as a press when it was pressed and a release when it was
/// released, followed by one redraw request; the state does not change.
pub proof fn law_mouse_notice_names_the_button(s: ShellStateView, event: PlatformEvent, pressed: bool, b: MouseButton)
    requires
        s.window_open,
        event == (PlatformEvent::MouseInput { pressed, button: Some(b) }),
    ensures
        s.actions(event).len() == 2,
        match s.actions(event)[0] {
            ShellAction::Notify(ShellNotice::MouseButtonPressed(x)) => pressed && x == b,
            ShellAction::Notify(ShellNotice::MouseButtonReleased(x)) => !pressed && x == b,
            _ => false,
        },
        s.actions(event)[1] == ShellAction::RequestRedraw,
        s.next(event) == s,
{
}

/// A resize of an open window makes the new size current, sizes the
/// surface and the buffer (four bytes a pixel) to it, and reports that
/// same size to the handler, with a scale-factor notice exactly when the
/// scale factor changed.
pub proof fn law_resize_reports_the_new_size(
    s: ShellStateView,
    event: PlatformEvent,
    width: u32,
    height: u32,
    scale_changed: bool,
)
    requires
        s.window_open,
        width * height * 4 <= u32::MAX,
        event == (PlatformEvent::Resized { width, height, scale_changed }),
    ensures
        s.next(event).width == width,
        s.next(event).height == height,
        s.actions(event)[0] == (ShellAction::ResizeSurface { width, height }),
        s.actions(event)[1] == (ShellAction::ResizeBuffer { len: (width * height * 4) as usize }),
        s.actions(event).contains(ShellAction::Notify(ShellNotice::Resized { width, height })),
        s.actions(event).contains(ShellAction::Notify(ShellNotice::ScaleFactorChanged)) == scale_changed,
{
    let acts = s.actions(event);
    let notice = ShellAction::Notify(ShellNotice::Resized { width, height });
    let scale = ShellAction::Notify(ShellNotice::ScaleFactorChanged);
    if scale_changed {
        assert(acts[3] == notice);
        assert(acts[2] == scale);
    } else {
        assert(acts[2] == notice);
        assert(acts.len() == 4);
        assert forall|i: int| 0 <= i < acts.len() implies acts[i] != scale by {}
    }
}

/// A native pixel holds the red, green and blue bytes, in that order from
/// the high byte down, and nothing else: its value is
/// `r * 65536 + g * 256 + b`, and each byte can be read back from it.
pub proof fn law_native_pixel_holds_the_colour(r: u8, g: u8, b: u8)
    ensures
        native_pixel(r, g, b) as int == r * 65536 + g * 256 + b,
        native_pixel(r, g, b) / 65536 == r,
        (native_pixel(r, g, b) / 256) % 256 == g,
        native_pixel(r, g, b) % 256 == b,
{
    assert(r * 65536 + g * 256 + b < 0x1000000) by (nonlinear_arith)
        requires
            r < 256,
            g < 256,
            b < 256,
    ;
    let v = r * 65536 + g * 256 + b;
    assert(v / 65536 == r && (v / 256) % 256 == g && v % 256 == b) by (nonlinear_arith)
        requires
            v == r * 65536 + g * 256 + b,
            0 <= r < 256,
            0 <= g < 256,
            0 <= b < 256,
    ;
}

} // verus!
