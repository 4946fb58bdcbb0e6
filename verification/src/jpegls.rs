//! Lossless image prediction in the manner of JPEG-LS: the planes of an
//! uncompressed Truevision image, and the residuals that eight predictors
//! leave of them.
pub mod tga;
pub mod coder;
