//! Acquisition, decoding, spatial indexing and rasterization of aerial LiDAR
//! point clouds over a bounding box.
use vstd::prelude::*;

pub mod cache;
pub mod decode;
pub mod filter;
pub mod geometry;
pub mod ign;
pub mod land_cover;
pub mod las_format;
pub mod lidar;
pub mod quadtree;
pub mod raster;
pub mod spatial_grid;
pub mod transfer;

verus! {

/// Directory where outputs go when no other is given.
pub const TEMP_PATH: &'static str = "./temp";

/// A filesystem path.
#[verifier::external_type_specification]
#[verifier::external_body]
pub struct ExPathBuf(std::path::PathBuf);

/// The path that `PathBuf::from` builds from the text `s`.
pub uninterp spec fn path_buf_of(s: Seq<char>) -> std::path::PathBuf;

/// Relies on `From<&str> for PathBuf`: the path spelled by `s`, a function of
/// the text alone.
#[verifier::external_body]
fn path_from_str(s: &str) -> (r: std::path::PathBuf)
    ensures
        r == path_buf_of(s@),
{
    std::path::PathBuf::from(s)
}

/// The default output directory as a path.
pub fn get_temp_path() -> (r: std::path::PathBuf)
    ensures
        r == path_buf_of(TEMP_PATH@),
{
    path_from_str(TEMP_PATH)
}

/// Hook for normalising date and time fields of a dataset; values currently
/// pass through unchanged.
pub fn process_datetime<T>(data: T) -> (r: T)
    ensures
        r == data,
{
    data
}

} // verus!
