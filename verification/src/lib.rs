//! Extraction of UI element trees from screenshots: contour hierarchy to layout
//! tree, OCR word attachment, icon candidate selection, the embedding index file
//! format, and the HTML wireframe renderer.

pub mod types;
pub mod layout;
pub mod imaging;
pub mod sorting;
pub mod pipeline;
pub mod embedding;
pub mod icon;
pub mod mask;
pub mod skeleton;
pub mod text;
pub mod runtime;
pub mod ocr;
pub mod raster;
pub mod manifest;
pub mod config;
pub mod templates;
pub mod annotate;
