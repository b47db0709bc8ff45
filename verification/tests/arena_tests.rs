use lath::arena::{ChildIds, UiArena, Widget, WidgetId};

// -- Mock widgets for testing ------------------------------------------

struct Label {
    label: &'static str,
    children: Vec<WidgetId>,
}

impl Label {
    fn new(label: &'static str) -> Self {
        Self {
            label,
            children: Vec::new(),
        }
    }
}

impl Widget for Label {
    // Ghost model of `children`, read only in proofs; never executed.
    fn child_ids(&self) -> ChildIds {
        unreachable!()
    }

    fn name(&self) -> &'static str {
        self.label
    }

    fn children(&self) -> Vec<WidgetId> {
        self.children.clone()
    }

    fn add_child(&mut self, child: WidgetId) {
        self.children.push(child);
    }
}

struct Container {
    label: &'static str,
    children: Vec<WidgetId>,
}

impl Container {
    fn new(label: &'static str) -> Self {
        Self {
            label,
            children: Vec::new(),
        }
    }
}

impl Widget for Container {
    // Ghost model of `children`, read only in proofs; never executed.
    fn child_ids(&self) -> ChildIds {
        unreachable!()
    }

    fn name(&self) -> &'static str {
        self.label
    }

    fn children(&self) -> Vec<WidgetId> {
        self.children.clone()
    }

    fn add_child(&mut self, child: WidgetId) {
        self.children.push(child);
    }
}

/// A widget that keeps the default `add_child`, which adds nothing.
struct Leaf;

impl Widget for Leaf {
    // Ghost model of `children`, read only in proofs; never executed.
    fn child_ids(&self) -> ChildIds {
        unreachable!()
    }

    fn name(&self) -> &'static str {
        "Leaf"
    }

    fn children(&self) -> Vec<WidgetId> {
        Vec::new()
    }
}

/// Either kind of mock, so one arena can hold both.
enum Node {
    L(Label),
    C(Container),
}

impl Widget for Node {
    // Ghost model of `children`, read only in proofs; never executed.
    fn child_ids(&self) -> ChildIds {
        unreachable!()
    }

    fn name(&self) -> &'static str {
        match self {
            Node::L(w) => w.name(),
            Node::C(w) => w.name(),
        }
    }

    fn children(&self) -> Vec<WidgetId> {
        match self {
            Node::L(w) => w.children(),
            Node::C(w) => w.children(),
        }
    }

    fn add_child(&mut self, child: WidgetId) {
        match self {
            Node::L(w) => w.add_child(child),
            Node::C(w) => w.add_child(child),
        }
    }
}

fn tree() -> (UiArena<Node>, WidgetId, WidgetId, WidgetId, WidgetId) {
    //   Root (Container)
    //   ├── A (Label)
    //   │   └── A1 (Label)
    //   └── B (Label)
    let mut arena = UiArena::<Node>::new();

    let a1 = arena.spawn(Node::L(Label::new("A1")));
    let a = arena.spawn(Node::L(Label::new("A")));
    let b = arena.spawn(Node::L(Label::new("B")));
    let root = arena.spawn(Node::C(Container::new("Root")));

    arena.get_mut(a).unwrap().add_child(a1);
    arena.get_mut(root).unwrap().add_child(a);
    arena.get_mut(root).unwrap().add_child(b);
    (arena, root, a, a1, b)
}

// -- Tests -------------------------------------------------------------

#[test]
fn spawn_and_get() {
    let mut arena = UiArena::<Label>::new();
    let id = arena.spawn(Label::new("hello"));

    let widget = arena.get(id).expect("widget should exist");
    assert_eq!(widget.name(), "hello");
}

#[test]
fn get_mut_and_modify() {
    let mut arena = UiArena::<Node>::new();
    let child = arena.spawn(Node::L(Label::new("child")));
    let parent = arena.spawn(Node::C(Container::new("Parent")));

    // Mutate through the widget: add_child is a mut method.
    arena.get_mut(parent).unwrap().add_child(child);
    let children = arena.get(parent).unwrap().children();
    assert_eq!(children, vec![child]);
}

#[test]
fn root_tracking() {
    let mut arena = UiArena::<Container>::new();
    assert_eq!(arena.root(), None);

    let id = arena.spawn(Container::new("Root"));
    arena.set_root(id);
    assert_eq!(arena.root(), Some(id));
}

#[test]
fn traverse_dfs_pre_order() {
    let (mut arena, root, _, _, _) = tree();
    arena.set_root(root);

    let mut visited = Vec::new();
    arena.traverse(root, |id, widget| {
        visited.push((id, widget.name().to_string()));
    });

    assert_eq!(visited.len(), 4);
    assert_eq!(visited[0].1, "Root");
    // Children are pushed in reverse onto the stack, so A is popped first.
    assert_eq!(visited[1].1, "A");
    assert_eq!(visited[2].1, "A1");
    assert_eq!(visited[3].1, "B");
}

#[test]
fn traverse_bfs_level_order() {
    // Same tree as above, but BFS should visit level by level.
    let (arena, root, _, _, _) = tree();

    let mut visited = Vec::new();
    arena.traverse_bfs(root, |_, widget| {
        visited.push(widget.name().to_string());
    });

    assert_eq!(visited, vec!["Root", "A", "B", "A1"]);
}

#[test]
fn len_and_is_empty() {
    let mut arena = UiArena::<Label>::new();
    assert!(arena.is_empty());

    arena.spawn(Label::new("x"));
    assert_eq!(arena.len(), 1);
    assert!(!arena.is_empty());
}

// -- Further cases -----------------------------------------------------

#[test]
fn spawn_hands_out_consecutive_indices() {
    let mut arena = UiArena::<Label>::new();
    let a = arena.spawn(Label::new("a"));
    let b = arena.spawn(Label::new("b"));
    let c = arena.spawn(Label::new("c"));
    assert_eq!(a.index(), 0);
    assert_eq!(b.index(), 1);
    assert_eq!(c, WidgetId::new(2));
    assert_eq!(arena.len(), 3);
    assert_eq!(arena.get(b).unwrap().name(), "b");
}

#[test]
fn get_of_unknown_id_is_none() {
    let mut arena = UiArena::<Label>::new();
    arena.spawn(Label::new("only"));
    assert!(arena.get(WidgetId::new(1)).is_none());
    assert!(arena.get_mut(WidgetId::new(7)).is_none());
    assert_eq!(arena.len(), 1);
}

#[test]
fn get_mut_write_is_read_back() {
    let mut arena = UiArena::<Label>::new();
    let a = arena.spawn(Label::new("a"));
    let b = arena.spawn(Label::new("b"));
    *arena.get_mut(a).unwrap() = Label::new("z");
    assert_eq!(arena.get(a).unwrap().name(), "z");
    assert_eq!(arena.get(b).unwrap().name(), "b");
    assert_eq!(arena.len(), 2);
}

#[test]
fn default_add_child_adds_nothing() {
    let mut arena = UiArena::<Leaf>::default();
    let a = arena.spawn(Leaf);
    let b = arena.spawn(Leaf);
    arena.get_mut(a).unwrap().add_child(b);
    assert!(arena.get(a).unwrap().children().is_empty());
    assert_eq!(arena.preorder_ids(a), vec![a]);
}

#[test]
fn preorder_and_levelorder_ids() {
    let (arena, root, a, a1, b) = tree();
    assert_eq!(arena.preorder_ids(root), vec![root, a, a1, b]);
    assert_eq!(arena.levelorder_ids(root), vec![root, a, b, a1]);
    // From an inner widget only its subtree is walked.
    assert_eq!(arena.preorder_ids(a), vec![a, a1]);
    assert_eq!(arena.levelorder_ids(b), vec![b]);
}

#[test]
fn traversals_visit_the_same_widgets() {
    let (mut arena, root, a, _, b) = tree();
    // A shared child is visited once per parent by both walks.
    let shared = arena.spawn(Node::L(Label::new("S")));
    arena.get_mut(a).unwrap().add_child(shared);
    arena.get_mut(b).unwrap().add_child(shared);
    let mut dfs = arena.preorder_ids(root);
    let mut bfs = arena.levelorder_ids(root);
    assert_eq!(dfs.len(), 6);
    dfs.sort_by_key(|id| id.index());
    bfs.sort_by_key(|id| id.index());
    assert_eq!(dfs, bfs);
}

#[test]
fn traversal_skips_missing_children() {
    let mut arena = UiArena::<Node>::new();
    let root = arena.spawn(Node::C(Container::new("Root")));
    let a = arena.spawn(Node::L(Label::new("A")));
    arena.get_mut(root).unwrap().add_child(WidgetId::new(99));
    arena.get_mut(root).unwrap().add_child(a);
    assert_eq!(arena.preorder_ids(root), vec![root, a]);
    assert_eq!(arena.levelorder_ids(root), vec![root, a]);
    // Starting at an id that names nothing visits nothing.
    let mut count = 0;
    arena.traverse(WidgetId::new(42), |_, _| count += 1);
    arena.traverse_bfs(WidgetId::new(42), |_, _| count += 1);
    assert_eq!(count, 0);
}

#[test]
fn walk_ends_detects_cycles() {
    let (mut arena, root, a, a1, b) = tree();
    assert!(arena.walk_ends(root));
    assert!(arena.walk_ends(a1));
    assert!(arena.walk_ends(WidgetId::new(1000)));
    // A -> A1 -> A closes a cycle below the root; B stays clear of it.
    arena.get_mut(a1).unwrap().add_child(a);
    assert!(!arena.walk_ends(root));
    assert!(!arena.walk_ends(a));
    assert!(arena.walk_ends(b));
    // A self loop.
    let s = arena.spawn(Node::C(Container::new("S")));
    arena.get_mut(s).unwrap().add_child(s);
    assert!(!arena.walk_ends(s));
}

#[test]
fn walk_ends_on_shared_children() {
    // A diamond is not a cycle.
    let mut arena = UiArena::<Node>::new();
    let d = arena.spawn(Node::L(Label::new("D")));
    let l = arena.spawn(Node::C(Container::new("L")));
    let r = arena.spawn(Node::C(Container::new("R")));
    let top = arena.spawn(Node::C(Container::new("T")));
    arena.get_mut(l).unwrap().add_child(d);
    arena.get_mut(r).unwrap().add_child(d);
    arena.get_mut(top).unwrap().add_child(l);
    arena.get_mut(top).unwrap().add_child(r);
    assert!(arena.walk_ends(top));
    assert_eq!(arena.preorder_ids(top), vec![top, l, d, r, d]);
    assert_eq!(arena.levelorder_ids(top), vec![top, l, r, d, d]);
}

#[test]
fn traversals_visit_each_widget_once_per_walk_entry() {
    let (arena, root, a, a1, b) = tree();
    let mut dfs = Vec::new();
    arena.traverse(root, |id, widget| dfs.push((id, widget.name())));
    assert_eq!(dfs, vec![(root, "Root"), (a, "A"), (a1, "A1"), (b, "B")]);
    let mut bfs = Vec::new();
    arena.traverse_bfs(root, |id, widget| bfs.push((id, widget.name())));
    assert_eq!(bfs, vec![(root, "Root"), (a, "A"), (b, "B"), (a1, "A1")]);
}
