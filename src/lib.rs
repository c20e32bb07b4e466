//! Extraction of a data object embedded in a self-invoking function literal:
//! `function(a, b){return {key:{x:a, y:b}}}(1, "s")` gives, for the anchor
//! `key:`, the bytes `{"x":1,"y":"s"}`.
pub mod binder;
pub mod common;
pub mod convert;
pub mod search;
pub mod ssg_ifn;
pub mod ssg_nuxt;
pub mod table;
