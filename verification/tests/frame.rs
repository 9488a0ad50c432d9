use workbook::frame::PixelBuffer;

#[test]
fn test_buffer_starts_filled() {
    let buf: PixelBuffer<u8> = PixelBuffer::new(3, 2, 7);
    assert_eq!(3, buf.width());
    assert_eq!(2, buf.height());
    for y in 0..2 {
        for x in 0..3 {
            assert_eq!(7, buf.get(x, y));
        }
    }
}

#[test]
fn test_buffer_set_touches_one_pixel() {
    let mut buf: PixelBuffer<i32> = PixelBuffer::new(4, 3, 0);
    buf.set(2, 1, 99);
    for y in 0..3 {
        for x in 0..4 {
            let expected = if (x, y) == (2, 1) { 99 } else { 0 };
            assert_eq!(expected, buf.get(x, y));
        }
    }
}

#[test]
fn test_buffer_single_row_and_column() {
    let mut buf: PixelBuffer<u64> = PixelBuffer::new(1, 4, 5);
    buf.set(0, 3, 8);
    assert_eq!(5, buf.get(0, 0));
    assert_eq!(8, buf.get(0, 3));
}
