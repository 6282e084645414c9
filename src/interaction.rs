use vstd::prelude::*;

use crate::point::{is_nearest, vivid, Point};
use crate::store::{same_positions, PointStore};

verus! {

/// A pointer button.
#[derive(Clone, Copy, Debug, PartialEq, Eq, Structural)]
pub enum Button {
    Primary,
    Secondary,
}

/// The keyboard modifier held when a button is pressed.
#[derive(Clone, Copy, Debug, PartialEq, Eq, Structural)]
pub enum Modifier {
    Plain,
    Shift,
    Ctrl,
}

/// `r` is what a nearest-point query on `points` at `pos` answers.
pub open spec fn nearest_answer(points: Seq<Point>, pos: [i32; 2], r: Option<usize>) -> bool {
    match r {
        None => points.len() == 0,
        Some(i) => is_nearest(points, pos, i as int),
    }
}

/// Turns pointer events into changes of the point store, and remembers which point,
/// if any, is being dragged.
pub struct Interaction {
    pub dragging: Option<usize>,
}

impl Interaction {
    pub fn new() -> (r: Self)
        ensures
            r.dragging is None,
    {
        Interaction { dragging: None }
    }

    /// A button press at `cursor` (logical coordinates). When `captured` holds, the
    /// control panel owns the pointer and nothing changes. Otherwise:
    /// - primary, no modifier: the nearest point becomes the dragged one;
    /// - primary with shift: the nearest point gets a new random color;
    /// - primary with ctrl: a point is added at `cursor` and dragged;
    /// - secondary, no modifier: dragging stops and the nearest point is removed.
    pub fn press(
        &mut self,
        store: &mut PointStore,
        cursor: [i32; 2],
        button: Button,
        modifier: Modifier,
        captured: bool,
    )
        ensures
            captured ==> final(self).dragging == old(self).dragging && final(store)@ == old(store)@,
            !captured ==> match (button, modifier) {
                (Button::Primary, Modifier::Plain) => {
                    &&& nearest_answer(old(store)@, cursor, final(self).dragging)
                    &&& final(store)@ == old(store)@
                },
                (Button::Primary, Modifier::Shift) => {
                    &&& final(self).dragging == old(self).dragging
                    &&& same_positions(old(store)@, final(store)@)
                    &&& old(store)@.len() > 0 ==> exists|i: int|
                        #[trigger] is_nearest(old(store)@, cursor, i) && vivid(final(store)@[i].color)
                            && forall|j: int|
                            0 <= j < old(store)@.len() && j != i ==> #[trigger] final(store)@[j]
                                == old(store)@[j]
                },
                (Button::Primary, Modifier::Ctrl) => {
                    &&& final(store)@.len() == old(store)@.len() + 1
                    &&& final(store)@.take(old(store)@.len() as int) == old(store)@
                    &&& final(store)@.last().pos == cursor
                    &&& vivid(final(store)@.last().color)
                    &&& final(self).dragging == Some(old(store)@.len() as usize)
                },
                (Button::Secondary, Modifier::Plain) => {
                    &&& final(self).dragging is None
                    &&& old(store)@.len() == 0 ==> final(store)@ == old(store)@
                    &&& old(store)@.len() > 0 ==> exists|i: int|
                        #[trigger] is_nearest(old(store)@, cursor, i) && final(store)@ == old(
                            store,
                        )@.remove(i)
                },
                _ => final(self).dragging == old(self).dragging && final(store)@ == old(store)@,
            },
    {
        if captured {
            return ;
        }
        match (button, modifier) {
            (Button::Primary, Modifier::Plain) => {
                self.dragging = store.nearest(cursor);
            },
            (Button::Primary, Modifier::Shift) => {
                let near = store.nearest(cursor);
                if let Some(i) = near {
                    store.set_random_color(i);
                    assert(is_nearest(old(store)@, cursor, i as int));
                }
            },
            (Button::Primary, Modifier::Ctrl) => {
                let i = store.add(cursor);
                self.dragging = Some(i);
            },
            (Button::Secondary, Modifier::Plain) => {
                self.dragging = None;
                let near = store.nearest(cursor);
                if let Some(i) = near {
                    store.remove(i);
                    assert(is_nearest(old(store)@, cursor, i as int));
                }
            },
            _ => {},
        }
    }

    /// A button release: dragging stops, unless the control panel owns the pointer.
    pub fn release(&mut self, captured: bool)
        ensures
            captured ==> final(self).dragging == old(self).dragging,
            !captured ==> final(self).dragging is None,
    {
        if !captured {
            self.dragging = None;
        }
    }

    /// The pointer is at `cursor` this frame: the dragged point, if any, moves there.
    pub fn drag_to(&self, store: &mut PointStore, cursor: [i32; 2], captured: bool)
        ensures
            match self.dragging {
                Some(i) if !captured && i < old(store)@.len() => final(store)@ == old(store)@.update(
                    i as int,
                    Point { pos: cursor, color: old(store)@[i as int].color },
                ),
                _ => final(store)@ == old(store)@,
            },
    {
        if captured {
            return ;
        }
        if let Some(i) = self.dragging {
            store.move_to(i, cursor);
        }
    }
}

} // verus!
