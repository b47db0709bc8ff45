use lath::arena::{ChildIds, UiArena, Widget, WidgetId};
use lath::events::{deliver_click, hit_candidates};
use lath::layout::LayoutState;

struct Boxed {
    children: Vec<WidgetId>,
}

impl Widget for Boxed {
    // Ghost model of `children`, read only in proofs; never executed.
    fn child_ids(&self) -> ChildIds {
        unreachable!()
    }

    fn name(&self) -> &'static str {
        "Boxed"
    }

    fn children(&self) -> Vec<WidgetId> {
        self.children.clone()
    }

    fn add_child(&mut self, child: WidgetId) {
        self.children.push(child);
    }
}

fn boxed() -> Boxed {
    Boxed { children: Vec::new() }
}

#[test]
fn layout_state_records_frames() {
    let mut state = LayoutState::<(i32, i32)>::new();
    let a = WidgetId::new(0);
    let b = WidgetId::new(3);
    assert!(!state.contains(a));
    assert_eq!(state.get(a), None);

    state.insert(a, (1, 2));
    state.insert(b, (5, 6));
    assert!(state.contains(a));
    assert_eq!(state.get(a), Some(&(1, 2)));
    assert_eq!(state.get(b), Some(&(5, 6)));

    // A later frame replaces the earlier one.
    state.insert(a, (7, 8));
    assert_eq!(state.get(a), Some(&(7, 8)));
    assert_eq!(state.get(b), Some(&(5, 6)));

    state.clear();
    assert!(!state.contains(a));
    assert!(!state.contains(b));
    assert!(LayoutState::<u8>::default().get(a).is_none());
}

fn hits_for(n: usize, marked: &[usize]) -> Vec<bool> {
    (0..n).map(|i| marked.contains(&i)).collect()
}

#[test]
fn hit_candidates_children_before_parent() {
    let mut arena = UiArena::<Boxed>::new();
    let inner = arena.spawn(boxed());
    let child = arena.spawn(boxed());
    let parent = arena.spawn(boxed());
    arena.get_mut(child).unwrap().add_child(inner);
    arena.get_mut(parent).unwrap().add_child(child);

    // The click lies inside all three frames: the deepest widget first.
    assert_eq!(
        hit_candidates(&arena, parent, &hits_for(3, &[0, 1, 2])),
        vec![inner, child, parent]
    );
    assert_eq!(hit_candidates(&arena, parent, &hits_for(3, &[1, 2])), vec![child, parent]);
    assert_eq!(hit_candidates(&arena, parent, &hits_for(3, &[2])), vec![parent]);
}

#[test]
fn hit_candidates_earlier_sibling_first() {
    let mut arena = UiArena::<Boxed>::new();
    let first = arena.spawn(boxed());
    let second = arena.spawn(boxed());
    let root = arena.spawn(boxed());
    arena.get_mut(root).unwrap().add_child(first);
    arena.get_mut(root).unwrap().add_child(second);
    assert_eq!(
        hit_candidates(&arena, root, &hits_for(3, &[0, 1, 2])),
        vec![first, second, root]
    );
    assert_eq!(hit_candidates(&arena, root, &hits_for(3, &[1, 2])), vec![second, root]);
}

#[test]
fn hit_outside_gives_nothing() {
    let mut arena = UiArena::<Boxed>::new();
    let child = arena.spawn(boxed());
    let root = arena.spawn(boxed());
    arena.get_mut(root).unwrap().add_child(child);
    assert!(hit_candidates(&arena, root, &hits_for(2, &[])).is_empty());
    // Missing entries count as misses.
    assert!(hit_candidates(&arena, root, &Vec::new()).is_empty());
    // A widget outside the walked subtree is never offered the click.
    let stray = arena.spawn(boxed());
    assert!(hit_candidates(&arena, root, &hits_for(3, &[stray.index()])).is_empty());
    // A root that names nothing offers nothing.
    assert!(hit_candidates(&arena, WidgetId::new(50), &hits_for(3, &[0, 1, 2])).is_empty());
    assert_eq!(deliver_click(&Vec::new(), |_| true), None);
}

/// A button wrapping a label, both under the click: the label does not
/// handle clicks, so the click passes on to the button.
#[test]
fn click_passes_over_non_interactive_child() {
    let mut arena = UiArena::<Boxed>::new();
    let label = arena.spawn(boxed());
    let button = arena.spawn(boxed());
    arena.get_mut(button).unwrap().add_child(label);
    let candidates = hit_candidates(&arena, button, &hits_for(2, &[0, 1]));
    assert_eq!(candidates, vec![label, button]);

    let mut offered = Vec::new();
    let handled = {
        let offered = std::cell::RefCell::new(&mut offered);
        deliver_click(&candidates, |id| {
            offered.borrow_mut().push(id);
            id == button
        })
    };
    assert_eq!(handled, Some(1));
    assert_eq!(offered, vec![label, button]);
}

/// A button inside a button: the inner one handles the click and the
/// outer one is never offered it.
#[test]
fn click_inner_button_stops_propagation() {
    let mut arena = UiArena::<Boxed>::new();
    let inner_label = arena.spawn(boxed());
    let child_btn = arena.spawn(boxed());
    let parent_btn = arena.spawn(boxed());
    arena.get_mut(child_btn).unwrap().add_child(inner_label);
    arena.get_mut(parent_btn).unwrap().add_child(child_btn);
    let candidates = hit_candidates(&arena, parent_btn, &hits_for(3, &[0, 1, 2]));
    assert_eq!(candidates, vec![inner_label, child_btn, parent_btn]);

    let buttons = [child_btn, parent_btn];
    let handled = deliver_click(&candidates, |id| buttons.contains(&id));
    assert_eq!(handled, Some(1));
    assert_eq!(candidates[1], child_btn);
}

/// Only the parent handles clicks; its child, hit too, does not.
#[test]
fn click_reaches_handling_parent() {
    let mut arena = UiArena::<Boxed>::new();
    let child = arena.spawn(boxed());
    let parent = arena.spawn(boxed());
    arena.get_mut(parent).unwrap().add_child(child);
    let candidates = hit_candidates(&arena, parent, &hits_for(2, &[0, 1]));
    let handled = deliver_click(&candidates, |id| id == parent);
    assert_eq!(handled.map(|k| candidates[k]), Some(parent));
    // When nobody handles it, nothing does.
    assert_eq!(deliver_click(&candidates, |_| false), None);
}
