//! Minarrow's n-dimensional containers: a dense column-major `NdArray`,
//! strided views that share one parent buffer, chunked and labelled arrays, windowed
//! matrices, dictionary-encoded categorical arrays, and the ISO 8601
//! wire-format timestamp parser.

pub mod layout;
mod shared;

pub use layout::{buffer_len, col_major_strides, offset_of_impl};
pub mod error;
pub mod ndarray;
pub mod selection;
pub mod ndarray_view;
pub mod text;
pub mod coords;
pub mod xarray;
pub mod parse;
pub mod super_ndarray;
pub mod super_ndarray_view;
pub mod matrix;
pub mod matrix_view;
pub mod rows;
pub mod lanes;
pub mod permute;
pub mod chunk_select;
pub mod categorical;
pub mod dictionary;
pub mod consolidate;
pub mod lmask;
pub mod append;
