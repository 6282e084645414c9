use vstd::prelude::*;

use crate::codec::{deserialize_points, list_spelled, points_text, remove_ws, serialize_points};
use crate::point::{is_nearest, nearest_point_idx, vivid, Point};

verus! {

/// A point list that could not be read.
#[derive(Clone, Debug, PartialEq, Eq)]
pub struct DeserializeError {
    pub message: String,
}

/// The ordered collection of seed points; a point is known by its index.
pub struct PointStore {
    pub points: Vec<Point>,
}

/// Every point of `b` has the position of the point of `a` at the same index.
pub open spec fn same_positions(a: Seq<Point>, b: Seq<Point>) -> bool {
    &&& a.len() == b.len()
    &&& forall|i: int| 0 <= i < a.len() ==> (#[trigger] b[i]).pos == a[i].pos
}

impl PointStore {
    pub open spec fn view(&self) -> Seq<Point> {
        self.points@
    }

    pub fn new(points: Vec<Point>) -> (r: Self)
        ensures
            r@ == points@,
    {
        PointStore { points }
    }

    /// The points to start with: the bundled list where it could be read, else a
    /// point with a fresh vivid color at each of the five fallback positions.
    pub fn startup(read: Result<Vec<Point>, DeserializeError>, fallback: [[i32; 2]; 5]) -> (r: Self)
        ensures
            match read {
                Ok(pts) => r@ == pts@,
                Err(_) => {
                    &&& r@.len() == 5
                    &&& forall|i: int|
                        0 <= i < 5 ==> (#[trigger] r@[i]).pos == fallback[i] && vivid(r@[i].color)
                },
            },
    {
        match read {
            Ok(pts) => PointStore { points: pts },
            Err(_) => {
                let mut points: Vec<Point> = Vec::new();
                let mut i: usize = 0;
                while i < 5
                    invariant
                        i <= 5,
                        points@.len() == i,
                        forall|j: int|
                            0 <= j < i ==> (#[trigger] points@[j]).pos == fallback[j] && vivid(
                                points@[j].color,
                            ),
                    decreases 5 - i,
                {
                    points.push(Point::new(fallback[i]));
                    i = i + 1;
                }
                PointStore { points }
            },
        }
    }

    pub fn len(&self) -> (r: usize)
        ensures
            r == self@.len(),
    {
        self.points.len()
    }

    /// Appends a point at `pos` with a fresh random color and returns its index.
    pub fn add(&mut self, pos: [i32; 2]) -> (r: usize)
        ensures
            final(self)@.len() == old(self)@.len() + 1,
            r == old(self)@.len(),
            final(self)@[r as int].pos == pos,
            vivid(final(self)@[r as int].color),
            final(self)@.take(r as int) == old(self)@,
    {
        self.points.push(Point::new(pos));
        assert(self.points@.take(self.points@.len() - 1) =~= old(self)@);
        self.points.len() - 1
    }

    /// Removes the point at `index`, shifting later points down; does nothing when
    /// `index` is out of range.
    pub fn remove(&mut self, index: usize)
        ensures
            index < old(self)@.len() ==> final(self)@ == old(self)@.remove(index as int),
            index >= old(self)@.len() ==> final(self)@ == old(self)@,
    {
        if index < self.points.len() {
            self.points.remove(index);
        }
    }

    /// Moves the point at `index` to `pos`, keeping its color; does nothing when
    /// `index` is out of range.
    pub fn move_to(&mut self, index: usize, pos: [i32; 2])
        ensures
            index < old(self)@.len() ==> final(self)@ == old(self)@.update(
                index as int,
                Point { pos, color: old(self)@[index as int].color },
            ),
            index >= old(self)@.len() ==> final(self)@ == old(self)@,
    {
        if index < self.points.len() {
            let color = self.points[index].color;
            self.points.set(index, Point { pos, color });
        }
    }

    /// Gives the point at `index` a fresh random color; positions and the other points
    /// stay. Does nothing when `index` is out of range.
    pub fn set_random_color(&mut self, index: usize)
        ensures
            same_positions(old(self)@, final(self)@),
            forall|j: int| 0 <= j < old(self)@.len() && j != index ==> #[trigger] final(self)@[j] == old(self)@[j],
            index < old(self)@.len() ==> vivid(final(self)@[index as int].color),
    {
        if index < self.points.len() {
            let mut p = self.points[index];
            p.set_random_color();
            self.points.set(index, p);
        }
    }

    /// Gives every point a fresh random color; positions and order stay.
    pub fn randomize_all_colors(&mut self)
        ensures
            same_positions(old(self)@, final(self)@),
            forall|j: int| 0 <= j < final(self)@.len() ==> vivid(#[trigger] final(self)@[j].color),
    {
        let mut i: usize = 0;
        while i < self.points.len()
            invariant
                same_positions(old(self)@, self@),
                forall|j: int| 0 <= j < i ==> vivid(#[trigger] self@[j].color),
            decreases self@.len() - i,
        {
            let mut p = self.points[i];
            p.set_random_color();
            self.points.set(i, p);
            i = i + 1;
        }
    }

    /// Index of the point closest to `pos` in squared Euclidean distance (lowest index
    /// on ties); `None` exactly when the store is empty.
    pub fn nearest(&self, pos: [i32; 2]) -> (r: Option<usize>)
        ensures
            r is None <==> self@.len() == 0,
            r matches Some(i) ==> is_nearest(self@, pos, i as int),
    {
        nearest_point_idx(self.points.as_slice(), pos)
    }

    /// The text of the whole store, as `serialize_points` writes it.
    pub fn export_text(&self) -> (r: Vec<u8>)
        ensures
            r@ == points_text(self@),
    {
        serialize_points(self.points.as_slice())
    }

    /// Replaces the whole store by the point list that `text` holds (read as
    /// `deserialize_points` reads it). A text that cannot be read is a
    /// `DeserializeError`, and the store then stays as it was.
    pub fn import_text(&mut self, text: &[u8]) -> (r: Result<(), DeserializeError>)
        ensures
            forall|ps: Seq<Point>| #[trigger] points_text(ps) == text@ ==> (r is Ok && final(self)@ == ps),
            forall|ps: Seq<Point>|
                #[trigger] points_text(ps) == remove_ws(text@) ==> (r is Ok && final(self)@ == ps),
            r is Ok ==> list_spelled(remove_ws(text@), final(self)@),
            r is Err ==> final(self)@ == old(self)@,
    {
        self.import(deserialize_points(text))
    }

    /// Takes the outcome of reading a point list: on success it replaces the whole
    /// store, on failure the store stays as it was and the error is handed back.
    pub fn import(&mut self, read: Result<Vec<Point>, DeserializeError>) -> (r: Result<
        (),
        DeserializeError,
    >)
        ensures
            match read {
                Ok(pts) => r is Ok && final(self)@ == pts@,
                Err(e) => r == Err::<(), DeserializeError>(e) && final(self)@ == old(self)@,
            },
    {
        match read {
            Ok(pts) => {
                self.points = pts;
                Ok(())
            },
            Err(e) => Err(e),
        }
    }
}

} // verus!
