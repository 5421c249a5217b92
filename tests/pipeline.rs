use rsmdu::cache::{cache_file_name, is_copc_url};
use rsmdu::decode::{choose_decode_mode, decode_file_points, read_as_standard_laz, read_copc_entries,
    DecodeMode, EntryOutcome};
use rsmdu::filter::{choose_index, IndexChoice};
use rsmdu::geometry::{filter_points_linear, BoundingBox, LidarPoint};
use rsmdu::get_temp_path;
use rsmdu::ign::IgnServiceRow;
use rsmdu::land_cover::LandCoverType;
use rsmdu::las_format::{canonical_class, has_las_signature, parse_las_header_from_slice, verify_cached_bytes,
    HeaderError};
use rsmdu::lidar::{Lidar, RunError};
use rsmdu::quadtree::QuadtreeSpatialIndex;
use rsmdu::spatial_grid::SpatialGridIndex;
use rsmdu::transfer::{assemble_range_download, classify_range_status, merge_file_results, next_transfer_step,
    plan_range_download, ByteRange, LoadError, RangeError, RangeStatus, RetryState, TransferAction,
    TransferError, TransferEvent};
use std::path::PathBuf;

fn point(x: i32, y: i32, z: i32, classification: u8) -> LidarPoint {
    LidarPoint { x, y, z, classification }
}

fn header(offset: u32, count: u32) -> Vec<u8> {
    let mut h = vec![0u8; 227];
    h[0..4].copy_from_slice(b"LASF");
    h[94..98].copy_from_slice(&offset.to_le_bytes());
    h[107..111].copy_from_slice(&count.to_le_bytes());
    h
}

#[test]
fn header_fields_are_read() {
    let h = parse_las_header_from_slice(&header(1375, 123_456)).unwrap();
    assert_eq!(h.offset_to_point_data, 1375);
    assert_eq!(h.number_of_points, 123_456);
}

#[test]
fn header_errors() {
    assert_eq!(parse_las_header_from_slice(&header(0, 0)[..110]), Err(HeaderError::TooShort));
    let mut h = header(0, 0);
    h[3] = b'G';
    assert_eq!(parse_las_header_from_slice(&h), Err(HeaderError::BadSignature));
    assert!(!has_las_signature(b"LAS"));
    assert!(has_las_signature(b"LASF"));
}

#[test]
fn cached_bytes_need_header_and_signature() {
    assert!(verify_cached_bytes(&header(227, 0)));
    assert!(!verify_cached_bytes(b"LASF"));
    let mut h = header(227, 0);
    h[0] = 0;
    assert!(!verify_cached_bytes(&h));
}

#[test]
fn unknown_classes_become_unclassified() {
    assert_eq!(canonical_class(9), 9);
    assert_eq!(canonical_class(0), 0);
    assert_eq!(canonical_class(12), 1);
    assert_eq!(canonical_class(200), 1);
}

#[test]
fn flat_decode_keeps_every_parsed_record() {
    let records: Vec<Option<LidarPoint>> = (0..10).map(|i| Some(point(i, i, i, 2))).collect();
    let r = read_as_standard_laz(&records, None);
    assert_eq!(r.points.len(), 10);
    assert_eq!(r.errors, 0);
    let mut broken = records.clone();
    broken[3] = None;
    broken[7] = None;
    let r = read_as_standard_laz(&broken, None);
    assert_eq!(r.points.len(), 8);
    assert_eq!(r.errors, 2);
    let r = read_as_standard_laz(&records, Some(BoundingBox::new(2, 2, 5, 5)));
    assert_eq!(r.points, vec![point(2, 2, 2, 2), point(3, 3, 3, 2), point(4, 4, 4, 2), point(5, 5, 5, 2)]);
}

#[test]
fn hierarchical_entries_are_counted_and_filtered() {
    let entries = vec![
        EntryOutcome::Empty,
        EntryOutcome::Decoded(vec![point(1, 1, 1, 2), point(50, 50, 2, 2)]),
        EntryOutcome::Failed,
        EntryOutcome::Decoded(vec![point(3, 3, 3, 6)]),
    ];
    let r = read_copc_entries(&entries, Some(BoundingBox::new(0, 0, 10, 10)));
    assert_eq!(r.entries_processed, 3);
    assert_eq!(r.entries_success, 2);
    assert_eq!(r.entries_failed, 1);
    assert_eq!(r.points, vec![point(1, 1, 1, 2), point(3, 3, 3, 6)]);
    assert_eq!(choose_decode_mode(&r), DecodeMode::Hierarchical);
}

#[test]
fn mostly_failed_hierarchy_falls_back_to_flat() {
    let entries = vec![
        EntryOutcome::Failed,
        EntryOutcome::Decoded(vec![point(1, 1, 1, 2)]),
        EntryOutcome::Failed,
        EntryOutcome::Failed,
    ];
    let records: Vec<Option<LidarPoint>> = (0..5).map(|i| Some(point(i * 2, i * 2, i, 2))).collect();
    let filter = Some(BoundingBox::new(0, 0, 5, 5));
    let (points, mode) = decode_file_points(Some(&entries), &records, filter);
    assert_eq!(mode, DecodeMode::Flat);
    assert_eq!(points, read_as_standard_laz(&records, filter).points);
    assert_eq!(points.len(), 3);
}

#[test]
fn half_failed_hierarchy_is_kept() {
    let entries = vec![EntryOutcome::Failed, EntryOutcome::Decoded(vec![point(1, 1, 1, 2)])];
    let (points, mode) = decode_file_points(Some(&entries), &[], None);
    assert_eq!(mode, DecodeMode::Hierarchical);
    assert_eq!(points, vec![point(1, 1, 1, 2)]);
    let (points, mode) = decode_file_points(None, &[Some(point(4, 4, 4, 1)), None], None);
    assert_eq!(mode, DecodeMode::Flat);
    assert_eq!(points, vec![point(4, 4, 4, 1)]);
}

fn scattered(n: i32) -> Vec<LidarPoint> {
    (0..n as i64)
        .map(|i| point(((i * 7919) % 100_000) as i32, ((i * 104_729) % 100_000) as i32, (i % 5000) as i32, (i % 10) as u8))
        .collect()
}

#[test]
fn grid_query_misses_no_point() {
    let points = scattered(20_000);
    let index = SpatialGridIndex::build_from_points(&points, 1000);
    let candidates = index.query_bbox(20_000, 30_000, 24_500, 61_000);
    for (i, p) in points.iter().enumerate() {
        if p.x >= 20_000 && p.x <= 24_500 && p.y >= 30_000 && p.y <= 61_000 {
            assert!(candidates.contains(&i));
        }
    }
    assert!(candidates.iter().all(|c| *c < points.len()));
}

#[test]
fn quadtree_query_misses_no_point() {
    let points = scattered(20_000);
    let tree = QuadtreeSpatialIndex::build(&points);
    let candidates = tree.query_bbox(20_000, 30_000, 24_500, 61_000);
    for (i, p) in points.iter().enumerate() {
        if p.x >= 20_000 && p.x <= 24_500 && p.y >= 30_000 && p.y <= 61_000 {
            assert!(candidates.contains(&i));
        }
    }
    assert!(candidates.len() < points.len());
}

#[test]
fn test_quadtree_spatial_index() {
    // A 100 by 100 grid of points 10 m apart.
    let mut points = Vec::new();
    for i in 0..100 {
        for j in 0..100 {
            points.push(point(i * 1000, j * 1000, (i + j) * 100, 2));
        }
    }

    let quadtree = QuadtreeSpatialIndex::build(&points);

    // Query a small box around (50 m, 50 m).
    let candidates = quadtree.query_bbox(4500, 4500, 5500, 5500);

    assert!(!candidates.is_empty());
    assert!(candidates.contains(&(5 * 100 + 5)));
    // Leaves split above 1000 points, so the box falls in a leaf of 25 by 25
    // points: the candidates are that leaf's points.
    assert_eq!(candidates.len(), 625);
    for &idx in &candidates {
        let p = &points[idx];
        assert!(p.x >= 0 && p.x <= 24_000);
        assert!(p.y >= 0 && p.y <= 24_000);
    }
}

#[test]
fn index_choice_follows_size_and_selectivity() {
    let q = BoundingBox::new(0, 0, 1000, 1000);
    assert_eq!(choose_index(&scattered(9_999), &q), IndexChoice::LinearScan);
    match choose_index(&scattered(20_000), &q) {
        IndexChoice::Grid { cell_size } => assert!(cell_size >= 1000),
        other => panic!("expected a grid, got {:?}", other),
    }
    assert_eq!(choose_index(&scattered(150_000), &q), IndexChoice::Quadtree);
    let wide = BoundingBox::new(0, 0, 100_000, 100_000);
    assert!(matches!(choose_index(&scattered(150_000), &wide), IndexChoice::Grid { .. }));
}

#[test]
fn indexed_filter_equals_linear_filter() {
    let points = scattered(150_000);
    let q = BoundingBox::new(5_000, 5_000, 9_000, 12_000);
    let indexed = rsmdu::filter::filter_points_with_spatial_index(&points, 5_000, 5_000, 9_000, 12_000);
    assert_eq!(indexed, filter_points_linear(&points, &q));
}

#[test]
fn cache_names_are_sanitized() {
    assert_eq!(cache_file_name("https://example.com/a/my%20tile(1).laz"), "my_20tile_1_.laz");
    assert_eq!(cache_file_name("https://example.com/a/b.copc.laz"), "b.copc.laz");
    // Same URL, same name: concurrent requests share one cache entry.
    assert_eq!(cache_file_name("https://x.org/t.laz"), cache_file_name("https://x.org/t.laz"));
}

#[test]
fn unnamed_cache_entry() {
    let url = "https://example.com/dir/";
    assert_eq!(url.len(), 24);
    assert_eq!(cache_file_name(url), "unnamed_0000000000000018.laz");
    assert_eq!(cache_file_name("not a url"), "unnamed_0000000000000009.laz");
}

#[test]
fn copc_urls() {
    assert!(is_copc_url("x.copc.laz"));
    assert!(!is_copc_url("copc.laz"));
    assert!(!is_copc_url(""));
}

#[test]
fn retries_are_bounded() {
    let s = RetryState::new();
    assert_eq!(s.retries_left, 3);
    let (s, a) = next_transfer_step(s, TransferEvent::SendFailed);
    assert!(matches!(a, TransferAction::Retry));
    let (s, a) = next_transfer_step(s, TransferEvent::ReadFailed);
    assert!(matches!(a, TransferAction::Retry));
    let (s, a) = next_transfer_step(s, TransferEvent::Received { bytes: vec![], expected_len: None });
    assert!(matches!(a, TransferAction::Fail(TransferError::EmptyResponse)));
    assert_eq!(s.retries_left, 0);
}

#[test]
fn error_status_ends_the_download() {
    let (s, a) = next_transfer_step(RetryState::new(), TransferEvent::HttpError(404));
    assert!(matches!(a, TransferAction::Fail(TransferError::HttpStatus(404))));
    assert_eq!(s.retries_left, 3);
}

#[test]
fn bad_signature_is_never_accepted() {
    let body = b"PK\x03\x04 not a point cloud".to_vec();
    let (_, a) = next_transfer_step(RetryState::new(), TransferEvent::Received { bytes: body, expected_len: None });
    assert!(matches!(a, TransferAction::Fail(TransferError::BadSignature)));
}

#[test]
fn incomplete_body_is_retried_then_accepted() {
    let good = header(227, 0);
    let (s, a) = next_transfer_step(
        RetryState::new(),
        TransferEvent::Received { bytes: good[..100].to_vec(), expected_len: Some(227) },
    );
    assert!(matches!(a, TransferAction::Retry));
    let (_, a) = next_transfer_step(s, TransferEvent::Received { bytes: good.clone(), expected_len: Some(227) });
    match a {
        TransferAction::Accept(bytes) => assert_eq!(bytes, good),
        _ => panic!("expected the body to be kept"),
    }
}

#[test]
fn range_statuses() {
    assert_eq!(classify_range_status(206), RangeStatus::Partial);
    assert_eq!(classify_range_status(200), RangeStatus::NotSupported);
    assert_eq!(classify_range_status(416), RangeStatus::Unexpected(416));
}

#[test]
fn range_plans() {
    let p = plan_range_download(&header(1375, 10), Some(100_000)).unwrap();
    assert_eq!(p.offset, 1375);
    assert_eq!(p.header_tail, None);
    assert_eq!(p.point_data, ByteRange { first: 1375, last: 99_999 });
    let p = plan_range_download(&header(10_000, 10), Some(100_000)).unwrap();
    assert_eq!(p.header_tail, Some(ByteRange { first: 4096, last: 9_999 }));
    assert_eq!(plan_range_download(&header(1375, 10), None), Err(RangeError::NoContentLength));
    assert_eq!(
        plan_range_download(&header(1375, 10), Some(1375)),
        Err(RangeError::OffsetBeyondEnd { offset: 1375, content_length: 1375 })
    );
    assert_eq!(plan_range_download(&[0u8; 20], Some(10)), Err(RangeError::Header(HeaderError::TooShort)));
}

#[test]
fn range_parts_are_assembled() {
    let head: Vec<u8> = (0..20).collect();
    assert_eq!(assemble_range_download(head.clone(), None, vec![99, 98], 5), vec![0, 1, 2, 3, 4, 99, 98]);
    let big = vec![1u8; 4096];
    let out = assemble_range_download(big, Some(vec![2u8; 4]), vec![3u8], 4100);
    assert_eq!(out.len(), 4101);
    assert_eq!(out[4096..], [2, 2, 2, 2, 3]);
}

#[test]
fn failed_files_are_skipped() {
    let merged = merge_file_results(vec![
        Ok(vec![point(1, 1, 1, 2)]),
        Err("timeout".to_string()),
        Ok(vec![point(2, 2, 2, 2), point(3, 3, 3, 2)]),
    ]);
    assert_eq!(merged.unwrap().len(), 3);
    assert_eq!(
        merge_file_results(vec![Err("x".to_string()), Ok(vec![])]).err(),
        Some(LoadError::NoPointsLoaded)
    );
}

#[test]
fn run_state_errors() {
    let mut l = Lidar::new(None, Some(2));
    assert_eq!(l.get_output_path(), "./temp");
    assert_eq!(l.get_classification(), Some(2));
    assert_eq!(l.rasterize(None, 100).err(), Some(RunError::NoUrls));
    l.set_bbox(BoundingBox::new(0, 0, 1000, 1000), vec![]);
    assert_eq!(l.rasterize(None, 100).err(), Some(RunError::NoFilesFound));
    l.set_bbox(BoundingBox::new(0, 0, 1000, 1000), vec!["https://x.org/t.laz".to_string()]);
    assert_eq!(l.rasterize(None, 100).err(), Some(RunError::NoPointsLoaded));
    l.set_loaded_points(vec![point(50, 950, 700, 2)]);
    let r = l.rasterize(None, 100).unwrap();
    assert_eq!(r.dtm[0], 700);
    l.set_classification(None);
    assert_eq!(l.get_classification(), None);
}

#[test]
fn output_file_names() {
    let l = Lidar::new(Some("/data/out".to_string()), None);
    assert_eq!(PathBuf::from(l.output_file(None)), PathBuf::from("/data/out/lidar_cdsm.tif"));
    assert_eq!(PathBuf::from(l.output_file(Some("a.tif".to_string()))), PathBuf::from("/data/out/a.tif"));
    assert_eq!(get_temp_path(), PathBuf::from("./temp"));
}

#[test]
fn land_cover_codes() {
    assert_eq!(LandCoverType::from(7u8), LandCoverType::Water);
    assert_eq!(LandCoverType::from(99u8), LandCoverType::Walls);
    assert_eq!(LandCoverType::from(3u8), LandCoverType::DarkAsphalt);
    assert_eq!(LandCoverType::RoofsBuildings.code(), 2);
    assert_eq!(LandCoverType::from(LandCoverType::GrassUnmanaged.code()), LandCoverType::GrassUnmanaged);
}

#[test]
fn service_rows() {
    let r = IgnServiceRow::new("WFS".to_string(), "BDTOPO_V3:batiment".to_string(), "https://x".to_string());
    assert_eq!(r.nom_technique, "BDTOPO_V3:batiment");
}
