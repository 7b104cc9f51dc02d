//! Paths drawn in a geometry: sequences of moves, lines and cubic Bézier curves between points
//! given in the geometry's own coordinates.
use vstd::prelude::*;

verus! {

/// A way of placing points, by the type of their coordinates.
pub trait Geometry {
    type Coords;
}

/// One step of a path: a move to a point, a line to it, or a curve to it through two control
/// points.
pub enum PathTo<G: Geometry> {
    Move(G::Coords),
    Line(G::Coords),
    BezierCurve(G::Coords, G::Coords, G::Coords),
}

/// A path, with the class that styles it.
pub struct Path<G: Geometry> {
    pub class: String,
    pub ops: Vec<PathTo<G>>,
}

impl<G: Geometry> Path<G> {
    /// An empty path with no class.
    pub fn begin_path() -> (p: Self)
        ensures
            p.class@ == Seq::<char>::empty(),
            p.ops@ == Seq::<PathTo<G>>::empty(),
    {
        Path { class: String::new(), ops: Vec::new() }
    }

    /// Sets the class of the path.
    pub fn set_class(&mut self, class: String)
        ensures
            final(self).class == class,
            final(self).ops@ == old(self).ops@,
    {
        self.class = class;
    }

    /// Adds a move to the point.
    pub fn move_to(&mut self, coords: G::Coords)
        ensures
            final(self).class == old(self).class,
            final(self).ops@ == old(self).ops@.push(PathTo::Move(coords)),
    {
        self.ops.push(PathTo::Move(coords));
    }

    /// Adds a line to the point.
    pub fn line_to(&mut self, coords: G::Coords)
        ensures
            final(self).class == old(self).class,
            final(self).ops@ == old(self).ops@.push(PathTo::Line(coords)),
    {
        self.ops.push(PathTo::Line(coords));
    }

    /// Adds a curve to the point `to` through the control points `cp1` and `cp2`.
    pub fn bezier_curve_to(&mut self, cp1: G::Coords, cp2: G::Coords, to: G::Coords)
        ensures
            final(self).class == old(self).class,
            final(self).ops@ == old(self).ops@.push(PathTo::BezierCurve(cp1, cp2, to)),
    {
        self.ops.push(PathTo::BezierCurve(cp1, cp2, to));
    }
}

} // verus!
