//! End-to-end tests of the terminal engine: buffer operations, escape
//! sequence handling, and snapshot rendering.

use lebu::Interpreter;
use lebu::TerminalBuffer;

fn feed(buf: &mut TerminalBuffer, interp: &mut Interpreter, bytes: &[u8]) {
    interp.advance(buf, bytes);
}

fn row_text(buf: &TerminalBuffer, r: usize) -> String {
    let mut s = String::new();
    for cell in &buf.grid[r] {
        s.push(cell.c);
    }
    s
}

#[test]
fn fresh_buffer_is_blank() {
    let buf = TerminalBuffer::new(10, 3);
    assert_eq!(buf.cols, 10);
    assert_eq!(buf.rows, 3);
    assert_eq!(buf.cursor_row, 0);
    assert_eq!(buf.cursor_col, 0);
    assert_eq!(buf.to_string(), "");
    assert_eq!(row_text(&buf, 0), "          ");
}

#[test]
fn print_and_carriage_return_line_feed() {
    let mut buf = TerminalBuffer::new(10, 3);
    let mut interp = Interpreter::new();
    feed(&mut buf, &mut interp, b"abc\r\ndef");
    assert_eq!(buf.to_string(), "abc\ndef");
    assert_eq!(buf.cursor_row, 1);
    assert_eq!(buf.cursor_col, 3);
}

#[test]
fn wrap_on_single_row_scrolls() {
    let mut buf = TerminalBuffer::new(10, 1);
    let mut interp = Interpreter::new();
    feed(&mut buf, &mut interp, b"1234567890X");
    assert_eq!(buf.to_string(), "X");
    assert_eq!(row_text(&buf, 0), "X         ");
    assert_eq!(buf.cursor_row, 0);
    assert_eq!(buf.cursor_col, 1);
}

#[test]
fn full_row_then_one_more_scrolls_once() {
    let mut buf = TerminalBuffer::new(5, 2);
    let mut interp = Interpreter::new();
    feed(&mut buf, &mut interp, b"top\r\nabcdeX");
    // The top row was discarded, the filled row moved up, and the extra
    // character starts the fresh bottom row.
    assert_eq!(row_text(&buf, 0), "abcde");
    assert_eq!(row_text(&buf, 1), "X    ");
    assert_eq!(buf.cursor_row, 1);
    assert_eq!(buf.cursor_col, 1);
}

#[test]
fn pending_wrap_cursor_may_sit_past_last_column() {
    let mut buf = TerminalBuffer::new(5, 3);
    let mut interp = Interpreter::new();
    feed(&mut buf, &mut interp, b"abcde");
    // No wrap yet: the cursor waits past the last column.
    assert_eq!(buf.cursor_row, 0);
    assert_eq!(buf.cursor_col, 5);
    assert_eq!(buf.to_string(), "abcde");
    feed(&mut buf, &mut interp, b"f");
    assert_eq!(buf.cursor_row, 1);
    assert_eq!(buf.cursor_col, 1);
    assert_eq!(buf.to_string(), "abcde\nf");
}

#[test]
fn erase_whole_line_clears_row() {
    let mut buf = TerminalBuffer::new(10, 3);
    let mut interp = Interpreter::new();
    feed(&mut buf, &mut interp, b"hello\x1b[2K");
    assert_eq!(buf.to_string(), "");
    // The cursor did not move.
    assert_eq!(buf.cursor_row, 0);
    assert_eq!(buf.cursor_col, 5);
}

#[test]
fn erase_in_line_modes() {
    let mut buf = TerminalBuffer::new(5, 1);
    let mut interp = Interpreter::new();
    feed(&mut buf, &mut interp, b"abcde");
    buf.set_cursor_pos(1, 2);
    buf.erase_in_line(0);
    assert_eq!(row_text(&buf, 0), "a    ");

    let mut buf = TerminalBuffer::new(5, 1);
    let mut interp = Interpreter::new();
    feed(&mut buf, &mut interp, b"abcde");
    buf.set_cursor_pos(1, 3);
    buf.erase_in_line(1);
    assert_eq!(row_text(&buf, 0), "   de");

    buf.erase_in_line(7);
    assert_eq!(row_text(&buf, 0), "   de");
}

#[test]
fn escape_intermediate_and_dcs_sequences_are_consumed() {
    let mut buf = TerminalBuffer::new(10, 2);
    let mut interp = Interpreter::new();
    // Charset designation: ESC ( B is consumed without effect.
    feed(&mut buf, &mut interp, b"\x1b(Bhello");
    assert_eq!(buf.to_string(), "hello");

    let mut buf = TerminalBuffer::new(10, 2);
    let mut interp = Interpreter::new();
    // A DCS string runs to its terminator without touching the screen.
    feed(&mut buf, &mut interp, b"\x1bPsome data\x1b\\ok");
    assert_eq!(buf.to_string(), "ok");
}

#[test]
fn erase_in_line_twice_equals_once() {
    let mut one = TerminalBuffer::new(8, 2);
    let mut interp = Interpreter::new();
    feed(&mut one, &mut interp, b"stuff");
    let mut two = TerminalBuffer::new(8, 2);
    let mut interp2 = Interpreter::new();
    feed(&mut two, &mut interp2, b"stuff");

    one.erase_in_line(2);
    two.erase_in_line(2);
    two.erase_in_line(2);
    for r in 0..2 {
        assert_eq!(row_text(&one, r), row_text(&two, r));
    }
    assert_eq!(one.cursor_row, two.cursor_row);
    assert_eq!(one.cursor_col, two.cursor_col);
}

#[test]
fn erase_display_clears_everything_and_homes_cursor() {
    let mut buf = TerminalBuffer::new(10, 3);
    let mut interp = Interpreter::new();
    feed(&mut buf, &mut interp, b"one\r\ntwo\r\nthree\x1b[2J");
    assert_eq!(buf.to_string(), "");
    assert_eq!(buf.cursor_row, 0);
    assert_eq!(buf.cursor_col, 0);
}

#[test]
fn erase_display_below_and_above() {
    let mut buf = TerminalBuffer::new(5, 3);
    let mut interp = Interpreter::new();
    feed(&mut buf, &mut interp, b"aa\r\nbb\r\ncc\x1b[2;2H\x1b[0J");
    // Row 0 kept, row 1 erased from the cursor on, row 2 blanked.
    assert_eq!(row_text(&buf, 0), "aa   ");
    assert_eq!(row_text(&buf, 1), "b    ");
    assert_eq!(row_text(&buf, 2), "     ");

    let mut buf = TerminalBuffer::new(5, 3);
    let mut interp = Interpreter::new();
    feed(&mut buf, &mut interp, b"aa\r\nbb\r\ncc\x1b[2;2H\x1b[1J");
    // Row 0 blanked, row 1 erased through the cursor, row 2 kept.
    assert_eq!(row_text(&buf, 0), "     ");
    assert_eq!(row_text(&buf, 1), "     ");
    assert_eq!(row_text(&buf, 2), "cc   ");
}

#[test]
fn split_sequence_acts_like_unsplit() {
    let mut one = TerminalBuffer::new(10, 3);
    let mut i1 = Interpreter::new();
    feed(&mut one, &mut i1, b"hi\x1b[3J");

    let mut two = TerminalBuffer::new(10, 3);
    let mut i2 = Interpreter::new();
    feed(&mut two, &mut i2, b"hi\x1b[");
    feed(&mut two, &mut i2, b"3J");

    assert_eq!(one.to_string(), two.to_string());
    assert_eq!(one.cursor_row, two.cursor_row);
    assert_eq!(one.cursor_col, two.cursor_col);
    for r in 0..3 {
        assert_eq!(row_text(&one, r), row_text(&two, r));
    }
}

#[test]
fn sgr_sequence_changes_nothing() {
    let mut buf = TerminalBuffer::new(10, 3);
    let mut interp = Interpreter::new();
    feed(&mut buf, &mut interp, b"hi");
    let (r, c) = (buf.cursor_row, buf.cursor_col);
    feed(&mut buf, &mut interp, b"\x1b[31;1m");
    assert_eq!(buf.cursor_row, r);
    assert_eq!(buf.cursor_col, c);
    assert_eq!(buf.to_string(), "hi");
    // Parsing stays in sync: the next bytes print normally.
    feed(&mut buf, &mut interp, b"!");
    assert_eq!(buf.to_string(), "hi!");
}

#[test]
fn unknown_csi_final_byte_is_ignored() {
    let mut buf = TerminalBuffer::new(10, 3);
    let mut interp = Interpreter::new();
    feed(&mut buf, &mut interp, b"ok\x1b[4h rest");
    assert_eq!(buf.to_string(), "ok rest");
}

#[test]
fn cursor_moves_clamp_at_edges() {
    let mut buf = TerminalBuffer::new(10, 3);
    let mut interp = Interpreter::new();
    feed(&mut buf, &mut interp, b"\x1b[5B");
    assert_eq!(buf.cursor_row, 2);
    feed(&mut buf, &mut interp, b"\x1b[7C");
    assert_eq!(buf.cursor_col, 7);
    feed(&mut buf, &mut interp, b"\x1b[99C");
    assert_eq!(buf.cursor_col, 9);
    feed(&mut buf, &mut interp, b"\x1b[A\x1b[A\x1b[A");
    assert_eq!(buf.cursor_row, 0);
    feed(&mut buf, &mut interp, b"\x1b[99D");
    assert_eq!(buf.cursor_col, 0);
}

#[test]
fn cursor_moves_default_to_one() {
    let mut buf = TerminalBuffer::new(10, 3);
    let mut interp = Interpreter::new();
    feed(&mut buf, &mut interp, b"\x1b[B\x1b[C");
    assert_eq!(buf.cursor_row, 1);
    assert_eq!(buf.cursor_col, 1);
}

#[test]
fn set_cursor_position_is_one_based_and_clamped() {
    let mut buf = TerminalBuffer::new(10, 3);
    let mut interp = Interpreter::new();
    feed(&mut buf, &mut interp, b"\x1b[2;4H");
    assert_eq!(buf.cursor_row, 1);
    assert_eq!(buf.cursor_col, 3);
    feed(&mut buf, &mut interp, b"\x1b[99;99H");
    assert_eq!(buf.cursor_row, 2);
    assert_eq!(buf.cursor_col, 9);
    feed(&mut buf, &mut interp, b"\x1b[H");
    assert_eq!(buf.cursor_row, 0);
    assert_eq!(buf.cursor_col, 0);
    feed(&mut buf, &mut interp, b"\x1b[0;0f");
    assert_eq!(buf.cursor_row, 0);
    assert_eq!(buf.cursor_col, 0);
}

#[test]
fn tab_advances_to_next_stop() {
    let mut buf = TerminalBuffer::new(20, 2);
    let mut interp = Interpreter::new();
    feed(&mut buf, &mut interp, b"a\tb");
    assert_eq!(buf.to_string(), "a       b");
    assert_eq!(buf.cursor_col, 9);
}

#[test]
fn tab_clamps_at_last_column() {
    let mut buf = TerminalBuffer::new(10, 2);
    let mut interp = Interpreter::new();
    feed(&mut buf, &mut interp, b"\t\t\t");
    assert_eq!(buf.cursor_col, 9);
}

#[test]
fn backspace_and_delete_step_back() {
    let mut buf = TerminalBuffer::new(10, 2);
    let mut interp = Interpreter::new();
    feed(&mut buf, &mut interp, b"abc\x08X");
    assert_eq!(buf.to_string(), "abX");
    // Backspace only moves the cursor; it saturates at column 0 and the
    // cells keep their contents until overwritten.
    feed(&mut buf, &mut interp, b"\x7f\x7f\x7f\x7f\x7fY");
    assert_eq!(buf.to_string(), "YbX");
    assert_eq!(buf.cursor_col, 1);
}

#[test]
fn osc_string_is_consumed_without_effect() {
    let mut buf = TerminalBuffer::new(20, 2);
    let mut interp = Interpreter::new();
    feed(&mut buf, &mut interp, b"\x1b]0;some title\x07done");
    assert_eq!(buf.to_string(), "done");

    let mut buf = TerminalBuffer::new(20, 2);
    let mut interp = Interpreter::new();
    feed(&mut buf, &mut interp, b"\x1b]0;other title\x1b\\done");
    assert_eq!(buf.to_string(), "done");
}

#[test]
fn multibyte_character_prints_as_one_cell() {
    let mut buf = TerminalBuffer::new(10, 2);
    let mut interp = Interpreter::new();
    feed(&mut buf, &mut interp, "caf\u{e9}!".as_bytes());
    assert_eq!(buf.to_string(), "caf\u{e9}!");
    assert_eq!(buf.cursor_col, 5);
}

#[test]
fn multibyte_character_survives_chunk_split() {
    let bytes = "\u{65e5}\u{672c}".as_bytes();
    let mut buf = TerminalBuffer::new(10, 2);
    let mut interp = Interpreter::new();
    feed(&mut buf, &mut interp, &bytes[..1]);
    feed(&mut buf, &mut interp, &bytes[1..]);
    assert_eq!(buf.to_string(), "\u{65e5}\u{672c}");
    assert_eq!(buf.cursor_col, 2);
}

#[test]
fn invalid_bytes_print_replacement_character() {
    let mut buf = TerminalBuffer::new(10, 2);
    let mut interp = Interpreter::new();
    feed(&mut buf, &mut interp, b"a\xffb");
    assert_eq!(buf.to_string(), "a\u{fffd}b");
}

#[test]
fn newline_variants_feed_lines() {
    let mut buf = TerminalBuffer::new(10, 4);
    let mut interp = Interpreter::new();
    feed(&mut buf, &mut interp, b"a\x0bb\x0cc");
    // Vertical tab and form feed behave as line feeds, which here also
    // return the cursor to column 0.
    assert_eq!(buf.to_string(), "a\nb\nc");
}

#[test]
fn snapshot_trims_trailing_blanks_and_blank_lines() {
    let mut buf = TerminalBuffer::new(10, 4);
    let mut interp = Interpreter::new();
    feed(&mut buf, &mut interp, b"a  \r\n\r\nb   ");
    assert_eq!(buf.to_string(), "a\n\nb");
}

#[test]
fn cursor_always_in_bounds_after_operations() {
    let mut buf = TerminalBuffer::new(4, 2);
    let mut interp = Interpreter::new();
    let streams: [&[u8]; 6] = [
        b"wwwwwwwwww",
        b"\x1b[99;99H\x1b[99B",
        b"\t\t\t\x08\x08",
        b"\x1b[2J\x1b[99A\x1b[99D",
        b"\r\n\r\n\r\n\r\n",
        b"\x1b[1K\x1b[0Jx",
    ];
    for bytes in streams {
        feed(&mut buf, &mut interp, bytes);
        assert!(buf.cursor_row < buf.rows);
        assert!(buf.cursor_col <= buf.cols);
    }
}

#[test]
fn default_cell_is_blank() {
    let cell = lebu::Cell::default();
    assert_eq!(cell.c, ' ');
}

#[test]
fn cancel_byte_aborts_a_sequence() {
    let mut buf = TerminalBuffer::new(10, 2);
    let mut interp = Interpreter::new();
    // CAN inside a CSI sequence drops it; the final byte prints as text.
    feed(&mut buf, &mut interp, b"hi\x1b[2\x18J");
    assert_eq!(buf.to_string(), "hiJ");
}

#[test]
fn plain_escape_dispatch_is_a_no_op() {
    let mut buf = TerminalBuffer::new(10, 2);
    let mut interp = Interpreter::new();
    feed(&mut buf, &mut interp, b"a\x1bcb");
    assert_eq!(buf.to_string(), "ab");
}

#[test]
fn control_bytes_act_inside_a_sequence() {
    let mut buf = TerminalBuffer::new(10, 2);
    let mut interp = Interpreter::new();
    // The backspace arrives while CSI parameters are being read: it still
    // moves the cursor, and the sequence then erases the whole line.
    feed(&mut buf, &mut interp, b"ab\x1b[2\x08K");
    assert_eq!(buf.to_string(), "");
    assert_eq!(buf.cursor_col, 1);
}

#[test]
fn erase_with_unknown_modes_changes_nothing() {
    let mut buf = TerminalBuffer::new(10, 2);
    let mut interp = Interpreter::new();
    feed(&mut buf, &mut interp, b"keep");
    buf.erase_in_display(9);
    assert_eq!(buf.to_string(), "keep");
    assert_eq!(buf.cursor_col, 4);
}

#[test]
fn csi_parameters_saturate_instead_of_overflowing() {
    let mut buf = TerminalBuffer::new(10, 3);
    let mut interp = Interpreter::new();
    feed(&mut buf, &mut interp, b"\x1b[4294967295;2Hx");
    assert_eq!(buf.cursor_row, 2);
    assert_eq!(buf.cursor_col, 2);
    assert_eq!(row_text(&buf, 2), " x        ");
}
