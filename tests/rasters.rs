use rsmdu::geometry::{BoundingBox, LidarPoint};
use rsmdu::raster::{canopy_heights, fill_terrain_gaps, process_lidar_points, RasterError};

fn point(x: i32, y: i32, z: i32, classification: u8) -> LidarPoint {
    LidarPoint { x, y, z, classification }
}

#[test]
fn surface_terrain_canopy_of_one_cell() {
    // 100 m box, 1 m cells, ground at 10 m and a roof at 15 m over (50.5 m, 50.5 m).
    let points = vec![point(5050, 5050, 1000, 2), point(5050, 5050, 1500, 6)];
    let r = process_lidar_points(&points, BoundingBox::new(0, 0, 10000, 10000), None, 100).unwrap();
    assert_eq!(r.width, 100);
    assert_eq!(r.height, 100);
    let k = 49 * r.width + 50;
    assert_eq!(r.dsm[k], Some(1500));
    assert_eq!(r.dtm[k], 1000);
    assert_eq!(r.chm[k], 500);
}

#[test]
fn gap_takes_lowest_neighbour() {
    // 3 by 3 terrain grid: the centre is empty, four neighbours are known.
    let g = vec![None, Some(1000), None, Some(1100), None, Some(900), None, Some(1200), None];
    let filled = fill_terrain_gaps(&g, 3, 3);
    assert_eq!(filled[4], 900);
    // A corner sees the centre's row and column neighbours: (0,1)=10 m and (1,0)=11 m.
    assert_eq!(filled[0], 1000);
}

#[test]
fn gap_without_known_neighbour_is_zero() {
    let g = vec![None, None, None, None, None, None, None, None, None, None, None, Some(700)];
    // 4 by 3 grid; the cell at row 0, column 0 has no known neighbour.
    let filled = fill_terrain_gaps(&g, 4, 3);
    assert_eq!(filled[0], 0);
    assert_eq!(filled[11], 700);
    // Row 1, column 2 touches the known cell at row 2, column 3.
    assert_eq!(filled[6], 700);
}

#[test]
fn gap_filling_through_rasterization() {
    // Ground points around the cell at row 1, column 1 of a 3 m square.
    let points = vec![
        point(150, 250, 1000, 2),
        point(150, 50, 1200, 2),
        point(50, 150, 1100, 2),
        point(250, 150, 900, 2),
    ];
    let r = process_lidar_points(&points, BoundingBox::new(0, 0, 300, 300), None, 100).unwrap();
    assert_eq!(r.width, 3);
    assert_eq!(r.dtm[1 * 3 + 1], 900);
    assert_eq!(r.dsm[1 * 3 + 1], None);
    assert_eq!(r.chm[1 * 3 + 1], 0);
}

#[test]
fn rasterization_is_repeatable() {
    let points: Vec<LidarPoint> =
        (0..200).map(|i| point((i * 37) % 1000, (i * 53) % 1000, (i * 7) % 300, (i % 7) as u8)).collect();
    let b = BoundingBox::new(0, 0, 1000, 1000);
    let a = process_lidar_points(&points, b, Some(vec![2, 3, 5]), 150).unwrap();
    let c = process_lidar_points(&points, b, Some(vec![2, 3, 5]), 150).unwrap();
    assert_eq!(a.dsm, c.dsm);
    assert_eq!(a.dtm, c.dtm);
    assert_eq!(a.chm, c.chm);
    assert_eq!(a.transform, c.transform);
}

#[test]
fn grid_dimensions_round_up() {
    let r = process_lidar_points(&[], BoundingBox::new(0, 0, 1050, 330), None, 100).unwrap();
    assert_eq!(r.width, 11);
    assert_eq!(r.height, 4);
    assert_eq!(r.dsm.len(), 44);
    assert_eq!(r.transform, [0, 100, 0, 330, 0, -100]);
    let r = process_lidar_points(&[], BoundingBox::new(-500, 200, 500, 200), None, 250).unwrap();
    assert_eq!(r.width, 4);
    assert_eq!(r.height, 0);
}

#[test]
fn canopy_never_negative() {
    // A low shrub at 5 m in a cell whose terrain is filled from a 10 m neighbour.
    let points = vec![point(50, 50, 500, 3), point(150, 50, 1000, 2)];
    let r = process_lidar_points(&points, BoundingBox::new(0, 0, 200, 100), None, 100).unwrap();
    assert_eq!(r.dsm[0], Some(500));
    assert_eq!(r.dtm[0], 1000);
    assert_eq!(r.chm[0], 0);
    assert!(r.chm.iter().all(|v| *v >= 0));
    assert_eq!(canopy_heights(&[Some(300), None, Some(100)], &[100, 50, 400]), vec![200, 0, 0]);
}

#[test]
fn allow_list_drops_other_classes() {
    let points = vec![point(50, 50, 900, 2), point(50, 50, 1500, 6)];
    let r = process_lidar_points(&points, BoundingBox::new(0, 0, 100, 100), Some(vec![2]), 100).unwrap();
    assert_eq!(r.dsm[0], Some(900));
    assert_eq!(r.chm[0], 0);
}

#[test]
fn points_outside_the_box_are_ignored() {
    let points = vec![point(-1, 50, 900, 2), point(50, 101, 900, 2), point(100, 100, 700, 2)];
    let r = process_lidar_points(&points, BoundingBox::new(0, 0, 100, 100), None, 100).unwrap();
    assert_eq!(r.width, 1);
    // (1 m, 1 m) lies on the box's edge and falls past the last column.
    assert_eq!(r.dsm[0], None);
    assert_eq!(r.dtm[0], 0);
}

#[test]
fn raster_errors() {
    assert_eq!(
        process_lidar_points(&[], BoundingBox::new(10, 0, 0, 10), None, 100).err(),
        Some(RasterError::InvalidBoundingBox)
    );
    assert_eq!(
        process_lidar_points(&[], BoundingBox::new(0, 0, 10, 10), None, 0).err(),
        Some(RasterError::InvalidResolution)
    );
}
