use std::collections::HashMap;
use vstd::prelude::*;
use crate::arena::WidgetId;

verus! {

broadcast use vstd::std_specs::hash::group_hash_axioms;

/// Stores the final computed frame of every widget that took part in a
/// layout pass, keyed by the widget's id.
///
/// The frame type `R` is left open; a layout pass records one `R` per
/// widget it places.
#[derive(Debug, Clone)]
pub struct LayoutState<R> {
    frames: HashMap<usize, R>,
}

impl<R> View for LayoutState<R> {
    type V = Map<WidgetId, R>;

    closed spec fn view(&self) -> Map<WidgetId, R> {
        Map::new(|id: WidgetId| self.frames@.contains_key(id.0), |id: WidgetId| self.frames@[id.0])
    }
}

impl<R> LayoutState<R> {
    /// Creates a state with no frames.
    pub fn new() -> (state: Self)
        ensures
            state@ == Map::<WidgetId, R>::empty(),
    {
        let state = LayoutState { frames: HashMap::new() };
        assert(state@ =~= Map::<WidgetId, R>::empty());
        state
    }

    /// Returns the recorded frame of the given widget, if it was laid out.
    pub fn get(&self, id: WidgetId) -> (r: Option<&R>)
        ensures
            match r {
                Some(frame) => self@.contains_key(id) && self@[id] == *frame,
                None => !self@.contains_key(id),
            },
    {
        self.frames.get(&id.0)
    }

    /// Returns `true` if the widget has a recorded frame.
    pub fn contains(&self, id: WidgetId) -> (b: bool)
        ensures
            b == self@.contains_key(id),
    {
        self.frames.contains_key(&id.0)
    }

    /// Records `frame` as the frame of `id`, replacing any earlier one.
    pub fn insert(&mut self, id: WidgetId, frame: R)
        ensures
            final(self)@ == old(self)@.insert(id, frame),
    {
        self.frames.insert(id.0, frame);
        assert(self@ =~= old(self)@.insert(id, frame));
    }

    /// Removes all recorded frames.
    pub fn clear(&mut self)
        ensures
            final(self)@ == Map::<WidgetId, R>::empty(),
    {
        self.frames.clear();
        assert(self@ =~= Map::<WidgetId, R>::empty());
    }
}


impl<R> Default for LayoutState<R> {
    /// A state with no frames, as [`LayoutState::new`].
    fn default() -> (state: Self)
        ensures
            state@ == Map::<WidgetId, R>::empty(),
    {
        Self::new()
    }
}

} // verus!
