use kernel_core::console::{Color, ColorCode, ScreenChar, Writer, BUFFER_HEIGHT, BUFFER_WIDTH};

fn empty_char() -> ScreenChar {
    ScreenChar { ascii_character: b' ', color_code: ColorCode::new(Color::Green, Color::Brown) }
}

fn construct_writer() -> Writer {
    Writer::new(ColorCode::new(Color::Blue, Color::Magenta), empty_char())
}

#[test]
fn write_byte() {
    let mut writer = construct_writer();
    writer.write_byte(b'X');
    writer.write_byte(b'Y');

    for i in 0..BUFFER_HEIGHT {
        for j in 0..BUFFER_WIDTH {
            let screen_char = writer.cell(i, j);
            if i == BUFFER_HEIGHT - 1 && j == 0 {
                assert_eq!(screen_char.ascii_character, b'X');
                assert_eq!(screen_char.color_code, writer.color_code());
            } else if i == BUFFER_HEIGHT - 1 && j == 1 {
                assert_eq!(screen_char.ascii_character, b'Y');
                assert_eq!(screen_char.color_code, writer.color_code());
            } else {
                assert_eq!(screen_char, empty_char());
            }
        }
    }
}

#[test]
fn write_string_fmt() {
    let mut writer = construct_writer();
    writer.write_string("a\n");
    writer.write_string(&format!("{}\n", "b"));

    for i in 0..BUFFER_HEIGHT {
        for j in 0..BUFFER_WIDTH {
            let screen_char = writer.cell(i, j);
            if i == BUFFER_HEIGHT - 3 && j == 0 {
                assert_eq!(screen_char.ascii_character, b'a');
                assert_eq!(screen_char.color_code, writer.color_code());
            } else if i == BUFFER_HEIGHT - 2 && j == 0 {
                assert_eq!(screen_char.ascii_character, b'b');
                assert_eq!(screen_char.color_code, writer.color_code());
            } else if i >= BUFFER_HEIGHT - 2 {
                assert_eq!(screen_char.ascii_character, b' ');
                assert_eq!(screen_char.color_code, writer.color_code());
            } else {
                assert_eq!(screen_char, empty_char());
            }
        }
    }
}

#[test]
fn color_code_packs_background_high() {
    assert_eq!(ColorCode::new(Color::Yellow, Color::Black).0, 0x0e);
    assert_eq!(ColorCode::new(Color::Blue, Color::Magenta).0, 0x51);
    assert_eq!(ColorCode::new(Color::White, Color::White).0, 0xff);
    assert_eq!(Color::Pink.value(), 13);
}

#[test]
fn printable_byte_changes_only_its_cell() {
    let mut writer = construct_writer();
    writer.write_byte(b'q');
    let mut changed = 0;
    for i in 0..BUFFER_HEIGHT {
        for j in 0..BUFFER_WIDTH {
            if writer.cell(i, j) != empty_char() {
                changed += 1;
                assert_eq!((i, j), (BUFFER_HEIGHT - 1, 0));
            }
        }
    }
    assert_eq!(changed, 1);
    assert_eq!(writer.column_position(), 1);
}

#[test]
fn non_printable_bytes_show_placeholder() {
    let mut writer = construct_writer();
    writer.write_byte(0x07);
    writer.write_string("\u{e9}");
    assert_eq!(writer.cell(BUFFER_HEIGHT - 1, 0).ascii_character, 0xfe);
    assert_eq!(writer.cell(BUFFER_HEIGHT - 1, 1).ascii_character, 0xfe);
    assert_eq!(writer.cell(BUFFER_HEIGHT - 1, 2).ascii_character, 0xfe);
    assert_eq!(writer.column_position(), 3);
}

#[test]
fn full_row_wraps_to_new_line() {
    let mut writer = construct_writer();
    for _ in 0..BUFFER_WIDTH {
        writer.write_byte(b'w');
    }
    assert_eq!(writer.column_position(), BUFFER_WIDTH);
    writer.write_byte(b'z');
    assert_eq!(writer.column_position(), 1);
    for j in 0..BUFFER_WIDTH {
        assert_eq!(writer.cell(BUFFER_HEIGHT - 2, j).ascii_character, b'w');
    }
    assert_eq!(writer.cell(BUFFER_HEIGHT - 1, 0).ascii_character, b'z');
    assert_eq!(writer.cell(BUFFER_HEIGHT - 1, 1).ascii_character, b' ');
}

#[test]
fn scrolling_drops_first_row() {
    let mut writer = construct_writer();
    // Twenty-five lines of one distinct character each, each with its newline.
    let letters: Vec<u8> = (0..BUFFER_HEIGHT as u8).map(|k| b'A' + k).collect();
    for &c in &letters {
        writer.write_byte(c);
        writer.write_byte(b'\n');
    }
    let before: Vec<Vec<ScreenChar>> =
        (0..BUFFER_HEIGHT).map(|i| (0..BUFFER_WIDTH).map(|j| writer.cell(i, j)).collect()).collect();
    let first = before[0][0].ascii_character;
    assert_eq!(first, b'B');
    writer.write_byte(b'\n');
    for i in 0..BUFFER_HEIGHT - 1 {
        for j in 0..BUFFER_WIDTH {
            assert_eq!(writer.cell(i, j), before[i + 1][j]);
        }
    }
    for j in 0..BUFFER_WIDTH {
        assert_eq!(writer.cell(BUFFER_HEIGHT - 1, j).ascii_character, b' ');
        assert_eq!(writer.cell(BUFFER_HEIGHT - 1, j).color_code, writer.color_code());
    }
    for i in 0..BUFFER_HEIGHT {
        for j in 0..BUFFER_WIDTH {
            assert_ne!(writer.cell(i, j).ascii_character, first);
        }
    }
    assert_eq!(writer.column_position(), 0);
}
