use xv6_mm::vga_buffer::{color_value, Color, ColorCode, Writer, CRTPORT, HEIGHT, WIDTH};

fn white() -> ColorCode {
    ColorCode::new(Color::White, Color::Black)
}

fn row_text(w: &Writer, row: usize) -> String {
    (0..WIDTH).map(|c| w.read(row, c).ascii as char).collect::<String>().trim_end().to_string()
}

#[test]
fn color_codes_pack_background_high() {
    assert_eq!(ColorCode::new(Color::White, Color::Black).0, 0x0F);
    assert_eq!(ColorCode::new(Color::LightRed, Color::Black).0, 0x0C);
    assert_eq!(ColorCode::new(Color::Yellow, Color::Blue).0, 0x1E);
    assert_eq!(color_value(Color::LightCyan), 11);
}

#[test]
fn writing_places_bytes_at_the_cursor() {
    let mut w = Writer::new(white());
    w.write_string("hi\nthere");
    assert_eq!(row_text(&w, 0), "hi");
    assert_eq!(row_text(&w, 1), "there");
    assert_eq!(w.cursor(), WIDTH + 5);
    assert_eq!(w.read(1, 0).color, white());
}

#[test]
fn unprintable_bytes_show_as_a_box() {
    let mut w = Writer::new(white());
    w.write_string("a\tb");
    assert_eq!(w.read(0, 1).ascii, 0xFE);
    assert_eq!(w.read(0, 2).ascii, b'b');
}

#[test]
fn a_full_row_wraps() {
    let mut w = Writer::new(white());
    for _ in 0..WIDTH {
        w.write_byte(b'x');
    }
    assert_eq!(w.cursor(), WIDTH);
    w.write_byte(b'y');
    assert_eq!(w.read(1, 0).ascii, b'y');
    assert_eq!(w.cursor(), WIDTH + 1);
}

#[test]
fn the_last_line_scrolls_the_screen() {
    let mut w = Writer::new(white());
    for i in 0..HEIGHT {
        w.write_string(&format!("line {}", i));
        if i + 1 < HEIGHT {
            w.write_byte(b'\n');
        }
    }
    assert_eq!(row_text(&w, HEIGHT - 1), format!("line {}", HEIGHT - 1));
    w.write_byte(b'\n');
    assert_eq!(row_text(&w, 0), "line 1");
    assert_eq!(row_text(&w, HEIGHT - 2), format!("line {}", HEIGHT - 1));
    assert_eq!(row_text(&w, HEIGHT - 1), "");
    assert_eq!(w.cursor(), (HEIGHT - 1) * WIDTH);
}

#[test]
fn clearing_and_recolouring() {
    let mut w = Writer::new(white());
    w.write_string("abc");
    let red = ColorCode::new(Color::Red, Color::Black);
    w.change_color(red);
    w.write_byte(b'd');
    assert_eq!(w.read(0, 3).color, red);
    assert_eq!(w.read(0, 0).color, white());
    w.clear_screen();
    assert_eq!(row_text(&w, 0), "");
    assert_eq!(w.read(0, 0).color, red);
    assert_eq!(w.cursor(), 4);
}

#[test]
fn cursor_port_writes() {
    let mut w = Writer::new(white());
    for _ in 0..3 {
        w.write_byte(b'\n');
    }
    w.write_string("ab");
    let pos = 3 * WIDTH + 2;
    assert_eq!(
        w.cursor_writes(),
        [(CRTPORT, 0x0F), (CRTPORT + 1, (pos & 0xFF) as u8), (CRTPORT, 0x0E), (CRTPORT + 1, (pos >> 8) as u8)]
    );
}
