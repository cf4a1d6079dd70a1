use los_checker::tiles::{
    check_tile_availability, estimated_download_bytes, estimated_download_size, temp_filename,
    tile_filename, TileCoordinates, TileFiles, TileRegion,
};

#[test]
fn tile_filename_pads_coordinates_to_four_digits() {
    assert_eq!(
        tile_filename(TileCoordinates { x: 651, y: 6863 }),
        "LHD_FXX_0651_6863_MNS_O_0M50_LAMB93_IGN69.tif"
    );
    assert_eq!(
        tile_filename(TileCoordinates { x: 7, y: 12345 }),
        "LHD_FXX_0007_12345_MNS_O_0M50_LAMB93_IGN69.tif"
    );
}

#[test]
fn tile_filename_of_negative_coordinates() {
    assert_eq!(
        tile_filename(TileCoordinates { x: -5, y: 0 }),
        format!("LHD_FXX_{:0>4}_{:0>4}_MNS_O_0M50_LAMB93_IGN69.tif", -5, 0)
    );
    assert_eq!(
        tile_filename(TileCoordinates { x: i32::MIN, y: -1234 }),
        format!("LHD_FXX_{:0>4}_{:0>4}_MNS_O_0M50_LAMB93_IGN69.tif", i32::MIN, -1234)
    );
}

#[test]
fn temp_filename_prefixes_temp() {
    assert_eq!(temp_filename("tile.tif"), "temp_tile.tif");
}

#[test]
fn region_area_and_coordinates() {
    let region = TileRegion { x_min: 650, x_max: 651, y_min: 6860, y_max: 6862 };
    assert_eq!(region.area(), 6);
    let coordinates = region.coordinates();
    assert_eq!(coordinates.len(), region.area());
    assert_eq!(
        coordinates,
        vec![
            TileCoordinates { x: 650, y: 6860 },
            TileCoordinates { x: 650, y: 6861 },
            TileCoordinates { x: 650, y: 6862 },
            TileCoordinates { x: 651, y: 6860 },
            TileCoordinates { x: 651, y: 6861 },
            TileCoordinates { x: 651, y: 6862 },
        ]
    );
}

#[test]
fn empty_region_has_no_coordinates() {
    let region = TileRegion { x_min: 3, x_max: 2, y_min: 0, y_max: 5 };
    assert_eq!(region.area(), 0);
    assert!(region.coordinates().is_empty());
}

#[test]
fn availability_sorts_tiles_by_files_on_disk() {
    let region = TileRegion { x_min: 0, x_max: 1, y_min: 0, y_max: 1 };
    let files = vec![
        TileFiles { complete: true, partial: false },
        TileFiles { complete: false, partial: true },
        TileFiles { complete: false, partial: false },
        TileFiles { complete: true, partial: true },
    ];
    let availability = check_tile_availability(region, &files);
    assert_eq!(availability.total_tiles, 4);
    assert_eq!(
        availability.missing_tiles,
        vec![TileCoordinates { x: 0, y: 1 }, TileCoordinates { x: 1, y: 0 }]
    );
    assert_eq!(
        availability.partial_tiles,
        vec![TileCoordinates { x: 0, y: 1 }, TileCoordinates { x: 1, y: 1 }]
    );
}

#[test]
fn download_estimate() {
    assert_eq!(estimated_download_bytes(3), 48_000_000);
    assert_eq!(estimated_download_size(2), "32 MB");
    assert_eq!(estimated_download_size(0), "0 B");
    assert_eq!(estimated_download_size(100), "1.60 GB");
}
