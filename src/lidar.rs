//! The state of one acquisition run: where outputs go, the area, the tiles
//! that cover it and the points loaded from them.
use vstd::prelude::*;
use crate::cache::{join_path, path_join};
use crate::geometry::{BoundingBox, LidarPoint};
use crate::raster::{ProcessedRasters, RasterError, process_lidar_points, raster_error_for, rasterized, opt_view};
use crate::TEMP_PATH;

verus! {

/// Name of the raster file when the caller gives none.
pub const DEFAULT_OUTPUT_NAME: &'static str = "lidar_cdsm.tif";

pub struct Lidar {
    output_path: String,
    classification: Option<u8>,
    bbox: Option<BoundingBox>,
    list_path_laz: Option<Vec<String>>,
    loaded_points: Option<Vec<LidarPoint>>,
}

/// Why a run cannot produce rasters.
#[derive(Clone, Copy, Debug, PartialEq, Eq, Structural)]
pub enum RunError {
    /// No bounding box was set.
    NoBoundingBox,
    /// The tiles of the area were never resolved.
    NoUrls,
    /// No tile covers the area.
    NoFilesFound,
    /// No points were loaded.
    NoPointsLoaded,
    Raster(RasterError),
}

impl Lidar {
    pub closed spec fn spec_output_path(self) -> Seq<char> {
        self.output_path@
    }

    pub closed spec fn spec_classification(self) -> Option<u8> {
        self.classification
    }

    pub closed spec fn spec_bbox(self) -> Option<BoundingBox> {
        self.bbox
    }

    pub closed spec fn spec_urls(self) -> Option<Seq<String>> {
        match self.list_path_laz {
            Some(v) => Some(v@),
            None => None,
        }
    }

    pub closed spec fn spec_points(self) -> Option<Seq<LidarPoint>> {
        match self.loaded_points {
            Some(v) => Some(v@),
            None => None,
        }
    }

    /// A run writing under `output_path`, or under [`TEMP_PATH`], with nothing
    /// resolved or loaded yet.
    pub fn new(output_path: Option<String>, classification: Option<u8>) -> (r: Lidar)
        ensures
            r.spec_output_path() == match output_path {
                Some(p) => p@,
                None => TEMP_PATH@,
            },
            r.spec_classification() == classification,
            r.spec_bbox() is None,
            r.spec_urls() is None,
            r.spec_points() is None,
    {
        let output_path = match output_path {
            Some(p) => p,
            None => TEMP_PATH.to_owned(),
        };
        Lidar { output_path, classification, bbox: None, list_path_laz: None, loaded_points: None }
    }

    pub fn set_classification(&mut self, classification: Option<u8>)
        ensures
            final(self).spec_classification() == classification,
            final(self).spec_output_path() == old(self).spec_output_path(),
            final(self).spec_bbox() == old(self).spec_bbox(),
            final(self).spec_urls() == old(self).spec_urls(),
            final(self).spec_points() == old(self).spec_points(),
    {
        self.classification = classification;
    }

    pub fn get_output_path(&self) -> (r: &str)
        ensures
            r@ == self.spec_output_path(),
    {
        self.output_path.as_str()
    }

    pub fn get_classification(&self) -> (r: Option<u8>)
        ensures
            r == self.spec_classification(),
    {
        self.classification
    }

    /// Records the area, in projected centimetres, and the tiles that cover
    /// it; points loaded for an earlier area are dropped.
    pub fn set_bbox(&mut self, bbox: BoundingBox, urls: Vec<String>)
        ensures
            final(self).spec_bbox() == Some(bbox),
            final(self).spec_urls() == Some(urls@),
            final(self).spec_points() is None,
            final(self).spec_output_path() == old(self).spec_output_path(),
            final(self).spec_classification() == old(self).spec_classification(),
    {
        self.bbox = Some(bbox);
        self.list_path_laz = Some(urls);
        self.loaded_points = None;
    }

    pub fn get_bbox(&self) -> (r: Option<BoundingBox>)
        ensures
            r == self.spec_bbox(),
    {
        self.bbox
    }

    /// The tiles recorded by [`Lidar::set_bbox`].
    pub fn get_urls(&self) -> (r: Option<&Vec<String>>)
        ensures
            match r {
                Some(v) => self.spec_urls() == Some(v@),
                None => self.spec_urls() is None,
            },
    {
        match &self.list_path_laz {
            Some(v) => Some(v),
            None => None,
        }
    }

    /// Records the points loaded from the tiles.
    pub fn set_loaded_points(&mut self, points: Vec<LidarPoint>)
        ensures
            final(self).spec_points() == Some(points@),
            final(self).spec_bbox() == old(self).spec_bbox(),
            final(self).spec_urls() == old(self).spec_urls(),
            final(self).spec_output_path() == old(self).spec_output_path(),
            final(self).spec_classification() == old(self).spec_classification(),
    {
        self.loaded_points = Some(points);
    }

    /// The file the rasters of a run are written to: `file_name`, or
    /// [`DEFAULT_OUTPUT_NAME`], in the output directory.
    pub fn output_file(&self, file_name: Option<String>) -> (r: String)
        ensures
            r@ == path_join(
                self.spec_output_path(),
                match file_name {
                    Some(f) => f@,
                    None => DEFAULT_OUTPUT_NAME@,
                },
            ),
    {
        match file_name {
            Some(f) => join_path(self.output_path.as_str(), f.as_str()),
            None => join_path(self.output_path.as_str(), DEFAULT_OUTPUT_NAME),
        }
    }

    /// Rasterizes the loaded points over the recorded area at `resolution`
    /// centimetres, keeping the classes of `classification_list` when given.
    pub fn rasterize(&self, classification_list: Option<Vec<u8>>, resolution: u32) -> (r: Result<
        ProcessedRasters,
        RunError,
    >)
        ensures
            self.spec_urls() is None ==> r == Err::<ProcessedRasters, RunError>(RunError::NoUrls),
            self.spec_urls() matches Some(u) && u.len() == 0 ==> r == Err::<ProcessedRasters, RunError>(
                RunError::NoFilesFound,
            ),
            self.spec_urls() matches Some(u) && u.len() > 0 ==> match (self.spec_bbox(), self.spec_points()) {
                (None, _) => r == Err::<ProcessedRasters, RunError>(RunError::NoBoundingBox),
                (Some(_), None) => r == Err::<ProcessedRasters, RunError>(RunError::NoPointsLoaded),
                (Some(b), Some(pts)) => match raster_error_for(b, resolution as int) {
                    Some(e) => r == Err::<ProcessedRasters, RunError>(RunError::Raster(e)),
                    None => r is Ok && rasterized(
                        pts,
                        b,
                        opt_view(classification_list),
                        resolution as int,
                        r->Ok_0,
                    ),
                },
            },
    {
        match &self.list_path_laz {
            None => return Err(RunError::NoUrls),
            Some(urls) => {
                if urls.len() == 0 {
                    return Err(RunError::NoFilesFound);
                }
            },
        }
        let bbox = match self.bbox {
            Some(b) => b,
            None => return Err(RunError::NoBoundingBox),
        };
        match &self.loaded_points {
            None => Err(RunError::NoPointsLoaded),
            Some(points) => match process_lidar_points(
                points.as_slice(),
                bbox,
                classification_list,
                resolution,
            ) {
                Ok(r) => Ok(r),
                Err(e) => Err(RunError::Raster(e)),
            },
        }
    }
}

} // verus!
