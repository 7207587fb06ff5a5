use raytracer::frame::Cursor;

#[test]
fn cursor_starts_at_the_first_pixel() {
    assert_eq!(Cursor::start(), Cursor { x: 0, y: 0 });
}

#[test]
fn advance_moves_along_the_row() {
    let mut cursor = Cursor { x: 5, y: 7 };
    let wrapped = cursor.advance(200, 100);
    assert!(!wrapped);
    assert_eq!(cursor, Cursor { x: 6, y: 7 });
}

#[test]
fn advance_starts_the_next_row_after_the_last_column() {
    let mut cursor = Cursor { x: 199, y: 7 };
    let wrapped = cursor.advance(200, 100);
    assert!(!wrapped);
    assert_eq!(cursor, Cursor { x: 0, y: 8 });
}

#[test]
fn advance_wraps_after_the_last_pixel() {
    let mut cursor = Cursor { x: 199, y: 99 };
    let wrapped = cursor.advance(200, 100);
    assert!(wrapped);
    assert_eq!(cursor, Cursor { x: 0, y: 0 });
}

#[test]
fn advance_on_a_single_pixel_image_always_wraps() {
    let mut cursor = Cursor::start();
    assert!(cursor.advance(1, 1));
    assert_eq!(cursor, Cursor { x: 0, y: 0 });
}

#[test]
fn advance_at_the_largest_image() {
    let mut cursor = Cursor { x: 65534, y: 65534 };
    assert!(cursor.advance(65535, 65535));
    assert_eq!(cursor, Cursor { x: 0, y: 0 });
}

#[test]
fn position_counts_rows_from_the_bottom() {
    assert_eq!(Cursor { x: 0, y: 0 }.position(100), (0, 100));
    assert_eq!(Cursor { x: 17, y: 40 }.position(100), (17, 60));
    assert_eq!(Cursor { x: 199, y: 99 }.position(100), (199, 1));
}

#[test]
fn a_frame_visits_every_pixel_exactly_once() {
    let (nx, ny): (u16, u16) = (7, 5);
    let mut seen = vec![0_u32; 35];
    let mut cursor = Cursor::start();
    for step in 0..35_u32 {
        assert_eq!(cursor.y as u32 * 7 + cursor.x as u32, step);
        seen[(cursor.y * nx + cursor.x) as usize] += 1;
        let wrapped = cursor.advance(nx, ny);
        assert_eq!(wrapped, step == 34);
    }
    assert_eq!(cursor, Cursor::start());
    assert!(seen.iter().all(|&count| count == 1));
}
