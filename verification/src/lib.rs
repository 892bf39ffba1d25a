//! Bookkeeping for a shared texture atlas.
//!
//! The library decides where the pixels of each image live inside a stack of
//! square texture layers, remembers that decision per image, turns it into a
//! sampling region, and reclaims the space of images that went a whole cycle
//! without being used. It holds no pixels and talks to no graphics API: the
//! host decodes, rasterizes and copies, following the commands recorded here.

pub mod geometry;
pub mod entry;
pub mod atlas;
pub mod table;
pub mod encoder;
pub mod raster;
pub mod vector;
pub mod cache;
pub mod lifecycle;
