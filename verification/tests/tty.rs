use lib::page::PageType;
use lib::tty::{
    dec_digits_of, hex_digits_of, print_hex, print_isize, print_raw, print_usize, ScreenBuffer, COLUMNS, ROWS,
    SCREEN_SIZE,
};
use lib::utilities::suitable_pages;

const COLOR: u8 = 0x0F;

fn row_text(screen: &ScreenBuffer, row: usize, len: usize) -> Vec<u8> {
    (0..len).map(|c| screen.buf[row * 160 + c * 2]).collect()
}

#[test]
fn new_screen_is_blank() {
    let screen = ScreenBuffer::new();
    assert_eq!(screen.buf.len(), SCREEN_SIZE);
    assert!(screen.buf.iter().all(|b| *b == 0));
    assert!(screen.is_empty());
}

#[test]
fn characters_fill_cells_with_their_color() {
    let mut screen = ScreenBuffer::new();
    print_raw(&mut screen, b"Hi", COLOR);
    assert_eq!(&screen.buf[0..4], &[b'H', COLOR, b'i', COLOR]);
    assert_eq!((screen.col, screen.row), (2, 0));
}

#[test]
fn line_feed_moves_to_the_next_row() {
    let mut screen = ScreenBuffer::new();
    print_raw(&mut screen, b"ab\ncd", COLOR);
    assert_eq!(row_text(&screen, 0, 2), b"ab".to_vec());
    assert_eq!(row_text(&screen, 1, 2), b"cd".to_vec());
    assert_eq!((screen.col, screen.row), (2, 1));
}

#[test]
fn backspace_clears_the_previous_cell() {
    let mut screen = ScreenBuffer::new();
    print_raw(&mut screen, b"abc\x08", COLOR);
    assert_eq!(&screen.buf[4..6], &[0, 0]);
    assert_eq!((screen.col, screen.row), (2, 0));
    // at the top left corner a backspace does nothing
    let mut screen = ScreenBuffer::new();
    print_raw(&mut screen, b"\x08", COLOR);
    assert!(screen.is_empty());
}

#[test]
fn backspace_goes_back_to_the_previous_row() {
    let mut screen = ScreenBuffer::new();
    print_raw(&mut screen, b"a\n\x08", COLOR);
    assert_eq!((screen.col, screen.row), (COLUMNS - 1, 0));
}

#[test]
fn a_full_row_wraps() {
    let mut screen = ScreenBuffer::new();
    let line = vec![b'x'; COLUMNS + 1];
    print_raw(&mut screen, &line, COLOR);
    assert_eq!((screen.col, screen.row), (1, 1));
    assert_eq!(screen.buf[160], b'x');
}

#[test]
fn writing_past_the_last_row_scrolls() {
    let mut screen = ScreenBuffer::new();
    print_raw(&mut screen, b"top\n", COLOR);
    for _ in 1..ROWS {
        print_raw(&mut screen, b"\n", COLOR);
    }
    // the first row went off the screen
    assert_eq!((screen.col, screen.row), (0, ROWS - 1));
    assert_eq!(row_text(&screen, 0, 3), vec![0, 0, 0]);
    let mut screen = ScreenBuffer::new();
    print_raw(&mut screen, b"one\ntwo", COLOR);
    for _ in 1..ROWS {
        print_raw(&mut screen, b"\n", COLOR);
    }
    assert_eq!(row_text(&screen, 0, 3), b"two".to_vec());
}

#[test]
fn scroll_moves_rows_up() {
    let mut screen = ScreenBuffer::new();
    print_raw(&mut screen, b"a\nb\nc", COLOR);
    screen.scroll(1);
    assert_eq!(row_text(&screen, 0, 1), b"b".to_vec());
    // the row the cursor was on stays, the one above it is cleared
    assert_eq!(row_text(&screen, 1, 1), vec![0]);
    assert_eq!(row_text(&screen, 2, 1), b"c".to_vec());
    assert_eq!(screen.row, 1);
    // scrolling by as many rows as the cursor is down clears the screen
    screen.scroll(1);
    assert!(screen.buf.iter().all(|b| *b == 0));
    assert!(screen.is_empty());
}

#[test]
fn clear_blanks_the_screen() {
    let mut screen = ScreenBuffer::new();
    print_raw(&mut screen, b"text", COLOR);
    screen.clear();
    assert!(screen.buf.iter().all(|b| *b == 0));
    assert!(screen.is_empty());
}

#[test]
fn digits_of_numbers() {
    assert_eq!(hex_digits_of(0), b"0".to_vec());
    assert_eq!(hex_digits_of(0x1F), b"1F".to_vec());
    assert_eq!(hex_digits_of(0xDEADBEEF), b"DEADBEEF".to_vec());
    assert_eq!(dec_digits_of(0), b"0".to_vec());
    assert_eq!(dec_digits_of(1024), b"1024".to_vec());
}

#[test]
fn print_numbers() {
    let mut screen = ScreenBuffer::new();
    print_hex(&mut screen, 0xA5, COLOR);
    assert_eq!(row_text(&screen, 0, 3), b"xA5".to_vec());
    let mut screen = ScreenBuffer::new();
    print_usize(&mut screen, 42, COLOR);
    assert_eq!(row_text(&screen, 0, 2), b"42".to_vec());
    let mut screen = ScreenBuffer::new();
    print_isize(&mut screen, -42, COLOR);
    assert_eq!(row_text(&screen, 0, 3), b"-42".to_vec());
}

#[test]
fn suitable_pages_for_sizes() {
    assert_eq!(suitable_pages(0), (PageType::FourKiB, 0));
    assert_eq!(suitable_pages(1), (PageType::FourKiB, 1));
    assert_eq!(suitable_pages(0x1000), (PageType::FourKiB, 1));
    assert_eq!(suitable_pages(0x1001), (PageType::FourKiB, 2));
    assert_eq!(suitable_pages(0x7FFFF), (PageType::FourKiB, 0x80));
    assert_eq!(suitable_pages(0x80000), (PageType::TwoMiB, 1));
    assert_eq!(suitable_pages(0x40_0001), (PageType::TwoMiB, 3));
    assert_eq!(suitable_pages(0x1000_0000), (PageType::OneGiB, 1));
    assert_eq!(suitable_pages(0x8000_0000), (PageType::OneGiB, 2));
}
