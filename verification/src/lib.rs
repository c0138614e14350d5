use vstd::prelude::*;

pub mod config;
pub mod entity;
pub mod fetch;
pub mod raster;
pub mod text;
pub mod tile;
pub mod url_list;
pub mod url_template;

verus! {

} // verus!
