//! Text extraction helpers for PDF pages: the chunking strategy, the
//! library's error values, file naming for rendered pages, and the
//! rectangle drawing used for debug images of bounding boxes.

pub mod decimal;
pub mod image_utils;
pub mod models;
pub mod pdf;
pub mod raster;
