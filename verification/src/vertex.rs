use vstd::prelude::*;

verus! {

/// A 2D point on the pixel grid. Rasterization happens on integer cells, so a
/// vertex carries integer coordinates; callers working in real coordinates
/// round to the nearest grid cell before building a vertex.
#[derive(Clone, Copy, Debug, PartialEq, Eq, Structural)]
pub struct Vertex {
    pub x: i32,
    pub y: i32,
}

impl Vertex {
    pub fn new(x: i32, y: i32) -> (v: Vertex)
        ensures
            v == (Vertex { x, y }),
    {
        Vertex { x, y }
    }
}

} // verus!
