//! A small software rasterizer's integer core: vector and matrix storage,
//! colors, line drawing, the TGA raster image with its file codec, and the
//! integer part of the OBJ mesh format.

pub mod base;
pub mod color;
pub mod geometry;
pub mod obj;
pub mod raster;
pub mod tga_image;
