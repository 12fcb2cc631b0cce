use sea_router::geo::Point;
use sea_router::raster::{
    build_raster_scanline, clear_bit, get_bit, ring_spans, row_of, toggle_bit, RASTER_COLS, RASTER_WORDS,
};
use sea_router::raster_cache::{load_raster_cache, save_raster_cache, CacheError};

fn deg(x: f64) -> i64 {
    (x * 1.28e9).round() as i64
}

fn ring(points: &[[f64; 2]]) -> Vec<Point> {
    points.iter().map(|p| Point { lon: deg(p[0]), lat: deg(p[1]) }).collect()
}

#[test]
fn bits_are_set_one_by_one() {
    let mut words = vec![0u64; 3];
    toggle_bit(&mut words, 64);
    toggle_bit(&mut words, 130);
    assert_eq!(words, vec![0, 1, 4]);
    assert!(get_bit(&words, 64));
    assert!(!get_bit(&words, 65));
    clear_bit(&mut words, 64);
    clear_bit(&mut words, 65);
    toggle_bit(&mut words, 130);
    assert_eq!(words, vec![0, 0, 0]);
}

#[test]
fn a_square_is_filled_row_by_row() {
    // Four cells wide and two high: the middles of rows 4500 and 4501.
    let spans = ring_spans(&ring(&[[0.001, 0.0], [0.079, 0.0], [0.079, 0.04], [0.001, 0.04]]));
    let found: Vec<(u32, u32, u32)> = spans.iter().map(|s| (s.row, s.start, s.end)).collect();
    assert_eq!(found, vec![(4500, 9000, 9004), (4501, 9000, 9004)]);
}

#[test]
fn the_cell_of_the_eastern_crossing_is_filled_too() {
    let spans = ring_spans(&ring(&[[0.0, 0.0], [0.08, 0.0], [0.08, 0.02], [0.0, 0.02]]));
    let found: Vec<(u32, u32, u32)> = spans.iter().map(|s| (s.row, s.start, s.end)).collect();
    assert_eq!(found, vec![(4500, 9000, 9005)]);
}

#[test]
fn rings_toggle_the_cells_they_fill() {
    let outer = ring(&[[0.001, 0.0], [0.079, 0.0], [0.079, 0.02], [0.001, 0.02]]);
    let inner = ring(&[[0.021, 0.0], [0.039, 0.0], [0.039, 0.02], [0.021, 0.02]]);
    let words = build_raster_scanline(&vec![outer, inner]);
    assert_eq!(words.len(), RASTER_WORDS);
    let set: Vec<usize> = (8990..9010).filter(|c| get_bit(&words, 4500 * RASTER_COLS + c)).collect();
    assert_eq!(set, vec![9000, 9002, 9003]);
    assert_eq!(words.iter().map(|w| w.count_ones()).sum::<u32>(), 3);
}

#[test]
fn rows_are_counted_from_the_south() {
    assert_eq!(row_of(deg(-90.0)), 0);
    assert_eq!(row_of(deg(-95.0)), 0);
    assert_eq!(row_of(deg(0.0)), 4500);
    assert_eq!(row_of(deg(89.99)), 8999);
    assert_eq!(row_of(deg(90.0)), 9000);
}

#[test]
fn cache_file_has_a_header_of_sixteen_bytes() {
    let buf = save_raster_cache(&vec![0x0102_0304_0506_0708, 1]);
    assert_eq!(
        buf,
        vec![
            0x54, 0x53, 0x41, 0x52, 0x5F, 0x41, 0x45, 0x53, 3, 0, 0, 0, 2, 0, 0, 0, 8, 7, 6, 5, 4, 3, 2, 1, 1,
            0, 0, 0, 0, 0, 0, 0,
        ]
    );
}

#[test]
fn cache_file_gives_back_what_was_saved() {
    let words = vec![0, u64::MAX, 42, 0x8000_0000_0000_0000];
    assert_eq!(load_raster_cache(&save_raster_cache(&words)), Ok(words));
    assert_eq!(load_raster_cache(&save_raster_cache(&vec![])), Ok(vec![]));
}

#[test]
fn short_cache_file_is_refused() {
    let mut buf = save_raster_cache(&vec![]);
    buf.pop();
    assert_eq!(load_raster_cache(&buf), Err(CacheError::TooSmall));
    assert_eq!(load_raster_cache(&vec![]), Err(CacheError::TooSmall));
}

#[test]
fn cache_file_of_another_kind_is_refused() {
    let mut buf = save_raster_cache(&vec![1]);
    buf[0] = 0x55;
    assert_eq!(load_raster_cache(&buf), Err(CacheError::MagicMismatch));
}

#[test]
fn cache_file_of_another_version_is_refused() {
    let mut buf = save_raster_cache(&vec![1]);
    buf[8] = 2;
    assert_eq!(load_raster_cache(&buf), Err(CacheError::VersionMismatch));
}

#[test]
fn cache_file_of_another_size_is_refused() {
    let mut buf = save_raster_cache(&vec![1]);
    buf.push(0);
    assert_eq!(load_raster_cache(&buf), Err(CacheError::SizeMismatch));
    let mut buf = save_raster_cache(&vec![1]);
    buf[12] = 2;
    assert_eq!(load_raster_cache(&buf), Err(CacheError::SizeMismatch));
}
