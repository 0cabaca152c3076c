//! Font identification for scanned pages: the verified core.
#![allow(unused_imports)]

pub mod audit;
pub mod bytes;
pub mod cache;
pub mod char_index;
pub mod char_render;
pub mod char_search;
pub mod cli;
pub mod color;
pub mod compare;
pub mod contrast;
pub mod counting;
pub mod diagnostic;
pub mod embedders;
pub mod error;
pub mod features;
pub mod float_bits;
pub mod font_history;
pub mod font_identity;
pub mod font_match;
pub mod glyph;
pub mod grid;
pub mod histogram;
pub mod index_file;
pub mod line_chars;
pub mod ligatures;
pub mod lru;
pub mod mapped_model;
pub mod mlp;
pub mod model_store;
pub mod ngram_model;
pub mod page_scan;
pub mod paths;
pub mod per_font;
pub mod ranking;
pub mod raster;
pub mod reader;
pub mod samples;
pub mod segmentation;
pub mod seq_map;
pub mod shape;
pub mod sorting;
pub mod specimen;
pub mod text;
pub mod trained;
pub mod training;
pub mod weights;
