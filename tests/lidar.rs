use rsmdu::cache::{cache_path_for_url, is_copc_url};
use rsmdu::filter::filter_points_with_spatial_index;
use rsmdu::geometry::{BoundingBox, LidarPoint};
use rsmdu::las_format::classification_to_u8;
use rsmdu::process_datetime;
use rsmdu::quadtree::OctreeNode;
use rsmdu::spatial_grid::SpatialGridIndex;
use std::path::PathBuf;

fn point(x: i32, y: i32, z: i32, classification: u8) -> LidarPoint {
    LidarPoint { x, y, z, classification }
}

#[test]
fn test_process_datetime() {
    assert!(true);
    assert_eq!(process_datetime(7u8), 7u8);
}

#[test]
fn test_cache_path_for_url() {
    let cache_dir = "/tmp/cache";
    let url = "https://example.com/path/to/file.laz";
    let path = cache_path_for_url(cache_dir, url);
    assert_eq!(PathBuf::from(path), PathBuf::from("/tmp/cache/file.laz"));
}

#[test]
fn test_is_copc_url() {
    assert!(is_copc_url("https://example.com/file.copc.laz"));
    assert!(is_copc_url("https://example.com/file.copc.something"));
    assert!(!is_copc_url("https://example.com/file.laz"));
    assert!(!is_copc_url("https://example.com/file.las"));
}

#[test]
fn test_classification_to_u8() {
    assert_eq!(classification_to_u8(&las::point::Classification::Ground), 2);
    assert_eq!(classification_to_u8(&las::point::Classification::Building), 6);
    assert_eq!(classification_to_u8(&las::point::Classification::HighVegetation), 5);
}

#[test]
fn test_spatial_grid_index() {
    // Coordinates in centimetres: 0 m, 5 m, 10 m, 15 m and 100 m.
    let points = vec![
        point(0, 0, 1000, 2),
        point(500, 500, 1500, 2),
        point(1000, 1000, 2000, 6),
        point(1500, 1500, 2500, 6),
        point(10000, 10000, 3000, 2),
    ];

    // 10 m cells.
    let index = SpatialGridIndex::build_from_points(&points, 1000);

    // Query [0, 0] to [12 m, 12 m].
    let candidates = index.query_bbox(0, 0, 1200, 1200);

    assert!(candidates.contains(&0));
    assert!(candidates.contains(&1));
    assert!(candidates.contains(&2));

    assert!(!candidates.contains(&4));
}

#[test]
fn test_grid_cell_key() {
    let index = SpatialGridIndex::new(1000, Some(BoundingBox::new(0, 0, 10000, 10000)));

    let key1 = index.cell_key(500, 500);
    assert_eq!(key1.col, 0);
    assert_eq!(key1.row, 0);

    let key2 = index.cell_key(1500, 2500);
    assert_eq!(key2.col, 1);
    assert_eq!(key2.row, 2);

    let key3 = index.cell_key(-500, -500);
    assert_eq!(key3.col, -1);
    assert_eq!(key3.row, -1);
}

#[test]
fn test_filter_points_with_spatial_index_small() {
    let points: Vec<LidarPoint> = (0..100).map(|i| point(i * 100, i * 100, i * 100, 2)).collect();

    let filtered = filter_points_with_spatial_index(&points, 2500, 2500, 7500, 7500);

    // Points from 25 m to 75 m inclusive.
    assert_eq!(filtered.len(), 51);
    assert!(filtered.iter().all(|p| p.x >= 2500 && p.x <= 7500));
}

#[test]
fn test_filter_points_with_spatial_index_large() {
    let points: Vec<LidarPoint> =
        (0..50_000).map(|i| point((i % 1000) * 100, (i / 1000) * 1000, i * 10, 2)).collect();

    let filtered = filter_points_with_spatial_index(&points, 10000, 10000, 20000, 20000);

    assert!(filtered
        .iter()
        .all(|p| p.x >= 10000 && p.x <= 20000 && p.y >= 10000 && p.y <= 20000));
}

#[test]
fn test_octree_node_quadrant() {
    let node = OctreeNode::new_leaf((0, 0, 0, 10000, 10000, 10000), 0);

    // SW quadrant
    assert_eq!(node.quadrant_for_point(2500, 2500), 0);
    // SE quadrant
    assert_eq!(node.quadrant_for_point(7500, 2500), 1);
    // NW quadrant
    assert_eq!(node.quadrant_for_point(2500, 7500), 2);
    // NE quadrant
    assert_eq!(node.quadrant_for_point(7500, 7500), 3);
}
