use gdal_alt_core::cog::grid::{
    auto_overview_levels, overview_dimensions, overview_sizes, tile_jobs, TileJob,
};
use gdal_alt_core::crop::{
    scale_window, window_between, window_from_srcwin, WindowError, WriteWindow,
};
use gdal_alt_core::encode::plan::{encode_row_group_total, row_group_count, row_groups};
use gdal_alt_core::open::is_http_source;
use gdal_alt_core::path::ConvertPath;

#[test]
fn tiles_cover_every_pixel_once() {
    let jobs = tile_jobs(5, 3, 2);
    assert_eq!(jobs.len(), 6);
    assert_eq!(jobs[5], TileJob { col_off: 4, row_off: 2, cols: 1, rows: 1 });
    let mut seen = vec![0; 15];
    for job in &jobs {
        for row in job.row_off..job.row_off + job.rows {
            for col in job.col_off..job.col_off + job.cols {
                seen[row * 5 + col] += 1;
            }
        }
    }
    assert_eq!(seen, vec![1; 15]);
    assert!(tile_jobs(5, 0, 0).is_empty());
}

#[test]
fn automatic_levels_double() {
    assert_eq!(auto_overview_levels(4096, 3000, 512), vec![2, 4, 8]);
    assert_eq!(auto_overview_levels(4104, 1, 512), vec![2, 4, 8, 16]);
    assert!(auto_overview_levels(512, 512, 512).is_empty());
}

#[test]
fn overviews_are_rounded_down_to_one_pixel_at_least() {
    assert_eq!(overview_dimensions(5, 4, 2), (2, 2));
    assert_eq!(overview_dimensions(1, 1, 8), (1, 1));
    assert_eq!(overview_sizes(9, 5, &[2, 4]), vec![(4, 2), (2, 1)]);
}

#[test]
fn row_groups_count_rows_of_tiles() {
    assert_eq!(row_group_count(100, 1025, 512), 3);
    assert_eq!(encode_row_group_total(100, 1025, 512, &[2, 4]), 3 + 1 + 1);
    let groups = row_groups(1000, 1025, 512);
    assert_eq!(groups.len(), 3);
    assert_eq!(groups[2].first, 4);
    assert_eq!(groups[2].count, 2);
    assert_eq!(groups[2].row_off, 1024);
}

#[test]
fn windows_lie_within_the_image() {
    assert_eq!(
        window_from_srcwin(10, 8, 2, 3, 8, 5),
        Ok(WriteWindow { col_off: 2, row_off: 3, width: 8, height: 5 })
    );
    assert_eq!(window_from_srcwin(10, 8, 10, 0, 1, 1), Err(WindowError::OriginOutside));
    assert_eq!(window_from_srcwin(10, 8, 0, 0, 0, 1), Err(WindowError::NotPositive));
    assert_eq!(window_from_srcwin(10, 8, 5, 5, 1, 4), Err(WindowError::ExceedsImage));
    assert_eq!(window_between(3, 3, 3, 9), Err(WindowError::NoIntersection));
    assert_eq!(
        window_between(3, 4, 5, 9),
        Ok(WriteWindow { col_off: 3, row_off: 4, width: 2, height: 5 })
    );
}

#[test]
fn scaled_windows_stay_within_the_scaled_image() {
    let window = WriteWindow { col_off: 9, row_off: 5, width: 10, height: 3 };
    let scaled = scale_window(&window, 4);
    assert_eq!(scaled, WriteWindow { col_off: 2, row_off: 1, width: 2, height: 0 });
    assert_eq!(scale_window(&window, 0), window);
}

#[test]
fn sources_on_the_net_are_told_by_their_scheme() {
    assert!(is_http_source("HTTPS://host/a.tif"));
    assert!(is_http_source("http://host/a.tif"));
    assert!(!is_http_source("/data/http.tif"));
}

#[test]
fn strategies_have_names() {
    assert_eq!(ConvertPath::RemuxIdentity.label(), "remux-identity");
    assert_eq!(ConvertPath::TiledEncode.label(), "tiled-encode");
}
