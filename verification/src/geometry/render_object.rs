use vstd::prelude::*;
use crate::geometry::triangulation::TriangulateError;

verus! {

/// Why a render object could not be turned into a mesh.
#[derive(Debug, Clone, Copy, PartialEq, Eq, Structural)]
pub enum RenderError {
    /// Triangulating an outline failed.
    Triangulate(TriangulateError),
    /// Joining the meshes would move a triangle index past the `u32` range.
    IndexOverflow,
}

/// Something that can be drawn: it turns itself into a list of vertices and
/// the indices of its triangles into that list.
pub trait RenderObject {
    type Vertex;

    fn render(&self) -> Result<(Vec<Self::Vertex>, Vec<u32>), RenderError>;
}

/// A render object that a layer can hold: it also hands out a boxed copy
/// of itself.
pub trait InLayerRenderObject: RenderObject {
    fn box_clone(&self) -> Box<Self>;
}

impl<T: RenderObject + Clone> InLayerRenderObject for T {
    /// A box holding what `clone` gives of the object.
    fn box_clone(&self) -> (res: Box<Self>)
        ensures
            cloned(*self, *res),
    {
        Box::new(self.clone())
    }
}

} // verus!
