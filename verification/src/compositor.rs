//! The side of the compositor that the core cares about: the pixel formats
//! of surfaces and the sizes of the layers it asked for.

use vstd::prelude::*;

verus! {

/// Pixel format of a drawable surface.
#[derive(Copy, Clone, Debug, PartialEq, Eq, Hash, PartialOrd, Ord, Structural)]
pub enum ColorType {
    Alpha8,
    RGBA8888,
    BGRA8888,
    RGBA1010102,
    BGRA1010102,
    RGB101010x,
    BGR101010x,
    BGR101010xXR,
    Gray8,
    RGBAF16,
    RGBAF32,
    A16Float,
    A16UNorm,
    R16G16B16A16UNorm,
    SRGBA8888,
    R8UNorm,
}

/// What is known of one layer.
#[derive(Copy, Clone, Debug, PartialEq, Eq, Structural)]
pub struct LayerInfo {
    /// The size of the surface in pixels.
    pub width: u32,
    pub height: u32,
    pub format: ColorType,
}

/// Handle of a compositor layer.
#[derive(Copy, Clone, Debug, PartialEq, Eq, Structural)]
pub struct Layer {
    pub id: usize,
}

/// The layers that were asked of the system compositor.
pub struct Compositor {
    pub layers: Vec<LayerInfo>,
}

impl Compositor {
    /// A compositor that was asked for no layer yet.
    pub fn new() -> (r: Compositor)
        ensures
            r.layers@.len() == 0,
    {
        Compositor { layers: Vec::new() }
    }

    /// Records a new surface layer of the given size in pixels and pixel
    /// format, and gives its handle.
    pub fn create_surface_layer(&mut self, width: u32, height: u32, format: ColorType) -> (r: Layer)
        ensures
            r.id == old(self).layers@.len(),
            final(self).layers@ == old(self).layers@.push(LayerInfo { width, height, format }),
    {
        let id = self.layers.len();
        self.layers.push(LayerInfo { width, height, format });
        Layer { id }
    }
}

impl Layer {
    /// Records the new size of the surface of this layer. The other layers
    /// stay as they are, and so does the format of this one.
    pub fn set_surface_size(&self, compositor: &mut Compositor, width: u32, height: u32)
        requires
            self.id < old(compositor).layers@.len(),
        ensures
            final(compositor).layers@ == old(compositor).layers@.update(
                self.id as int,
                LayerInfo { width, height, format: old(compositor).layers@[self.id as int].format },
            ),
    {
        let format = compositor.layers[self.id].format;
        compositor.layers.set(self.id, LayerInfo { width, height, format });
    }
}

} // verus!
