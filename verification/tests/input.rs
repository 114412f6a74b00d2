use quadpath::geometry::Rect;
use quadpath::input::{parse_input, LoadError};

fn rect(x: i32, y: i32, w: i32, h: i32) -> Rect {
    Rect { x, y, w, h }
}

#[test]
fn reads_size_count_and_obstacles() {
    let text = b"8\n2\n0 0 1 1\n3 4 2 2\n";
    assert_eq!(parse_input(text), Ok((8, vec![rect(0, 0, 1, 1), rect(3, 4, 2, 2)])));
}

#[test]
fn reads_a_description_without_obstacles() {
    assert_eq!(parse_input(b"4\n0\n"), Ok((4, vec![])));
    assert_eq!(parse_input(b"4\n0"), Ok((4, vec![])));
}

#[test]
fn last_line_needs_no_line_feed() {
    assert_eq!(parse_input(b"4\n1\n1 2 3 4"), Ok((4, vec![rect(1, 2, 3, 4)])));
}

#[test]
fn carriage_returns_and_blanks_around_numbers_are_skipped() {
    let text = b"  16 \r\n\t1\r\n  5\t6   7 8  \r\n";
    assert_eq!(parse_input(text), Ok((16, vec![rect(5, 6, 7, 8)])));
}

#[test]
fn numbers_may_carry_a_sign() {
    let text = b"+4\n+1\n-1 +2 -3 +4\n";
    assert_eq!(parse_input(text), Ok((4, vec![rect(-1, 2, -3, 4)])));
}

#[test]
fn numbers_at_the_limits_of_the_range() {
    let text = b"2147483647\n1\n-2147483648 2147483647 0 -0\n";
    assert_eq!(parse_input(text), Ok((i32::MAX, vec![rect(i32::MIN, i32::MAX, 0, 0)])));
    let text = b"0000000000000000000000000000000000000000000000004\n0\n";
    assert_eq!(parse_input(text), Ok((4, vec![])));
}

#[test]
fn only_the_first_four_numbers_of_a_line_make_the_obstacle() {
    assert_eq!(parse_input(b"4\n1\n1 2 3 4 5 6\n"), Ok((4, vec![rect(1, 2, 3, 4)])));
}

#[test]
fn lines_after_the_last_obstacle_are_not_read() {
    let text = b"4\n1\n1 2 3 4\nthis is not read\n\n9 9\n";
    assert_eq!(parse_input(text), Ok((4, vec![rect(1, 2, 3, 4)])));
}

#[test]
fn bad_grid_size() {
    assert_eq!(parse_input(b""), Err(LoadError::BadGridSize));
    assert_eq!(parse_input(b"\n4\n0\n"), Err(LoadError::BadGridSize));
    assert_eq!(parse_input(b"four\n0\n"), Err(LoadError::BadGridSize));
    assert_eq!(parse_input(b"4 4\n0\n"), Err(LoadError::BadGridSize));
    assert_eq!(parse_input(b"4x\n0\n"), Err(LoadError::BadGridSize));
    assert_eq!(parse_input(b"0\n0\n"), Err(LoadError::BadGridSize));
    assert_eq!(parse_input(b"-4\n0\n"), Err(LoadError::BadGridSize));
    assert_eq!(parse_input(b"+\n0\n"), Err(LoadError::BadGridSize));
    assert_eq!(parse_input(b"4.0\n0\n"), Err(LoadError::BadGridSize));
    assert_eq!(parse_input(b"2147483648\n0\n"), Err(LoadError::BadGridSize));
    assert_eq!(parse_input(b"99999999999999999999999999999999999999999999\n0\n"), Err(LoadError::BadGridSize));
}

#[test]
fn bad_count() {
    assert_eq!(parse_input(b"4"), Err(LoadError::BadCount));
    assert_eq!(parse_input(b"4\n"), Err(LoadError::BadCount));
    assert_eq!(parse_input(b"4\n\n0\n"), Err(LoadError::BadCount));
    assert_eq!(parse_input(b"4\nmany\n"), Err(LoadError::BadCount));
    assert_eq!(parse_input(b"4\n-1\n"), Err(LoadError::BadCount));
    assert_eq!(parse_input(b"4\n-0\n"), Err(LoadError::BadCount));
    assert_eq!(parse_input(b"4\n -0 \n"), Err(LoadError::BadCount));
    assert_eq!(parse_input(b"4\n-\n"), Err(LoadError::BadCount));
    assert_eq!(parse_input(b"4\n1 1\n1 1 1 1\n"), Err(LoadError::BadCount));
    assert_eq!(parse_input(b"4\n99999999999999999999999999\n"), Err(LoadError::BadCount));
}

#[test]
fn bad_obstacle_names_the_first_bad_line() {
    assert_eq!(parse_input(b"4\n1\n"), Err(LoadError::BadObstacle(0)));
    assert_eq!(parse_input(b"4\n2\n0 0 1 1\n"), Err(LoadError::BadObstacle(1)));
    assert_eq!(parse_input(b"4\n1\n0 0 1\n"), Err(LoadError::BadObstacle(0)));
    assert_eq!(parse_input(b"4\n1\n0 0 1 x\n"), Err(LoadError::BadObstacle(0)));
    assert_eq!(parse_input(b"4\n1\n0 0 1 1 x\n"), Err(LoadError::BadObstacle(0)));
    assert_eq!(parse_input(b"4\n1\n\n0 0 1 1\n"), Err(LoadError::BadObstacle(0)));
    assert_eq!(parse_input(b"4\n1\n0 0 1 2147483648\n"), Err(LoadError::BadObstacle(0)));
    assert_eq!(parse_input(b"4\n1\n0 0 1 1 -2147483649\n"), Err(LoadError::BadObstacle(0)));
    assert_eq!(parse_input(b"4\n3\n0 0 1 1\n1 1 1 1\n2 2 - 1\n"), Err(LoadError::BadObstacle(2)));
    assert_eq!(parse_input(b"4\n3\n0 0 1 1\n1,1,1,1\n2 2 - 1\n"), Err(LoadError::BadObstacle(1)));
}

#[test]
fn one_line_feed_ends_one_line() {
    // The obstacle's numbers must stand on one line.
    assert_eq!(parse_input(b"4\n1\n0 0\n1 1\n"), Err(LoadError::BadObstacle(0)));
}

#[test]
fn count_may_carry_a_plus_sign_only() {
    assert_eq!(parse_input(b"4\n+0\n"), Ok((4, vec![])));
    assert_eq!(parse_input(b"4\n\t+1\n1 2 3 -0\n"), Ok((4, vec![rect(1, 2, 3, 0)])));
}

#[test]
fn no_break_space_sets_numbers_apart() {
    let text = "4\n1\n0\u{a0}0 4 4\n";
    assert_eq!(parse_input(text.as_bytes()), Ok((4, vec![rect(0, 0, 4, 4)])));
}

#[test]
fn every_white_space_character_sets_numbers_apart() {
    let spaces = [
        '\u{9}', '\u{b}', '\u{c}', '\u{d}', ' ', '\u{85}', '\u{a0}', '\u{1680}', '\u{2000}',
        '\u{2001}', '\u{2002}', '\u{2003}', '\u{2004}', '\u{2005}', '\u{2006}', '\u{2007}',
        '\u{2008}', '\u{2009}', '\u{200a}', '\u{2028}', '\u{2029}', '\u{202f}', '\u{205f}',
        '\u{3000}',
    ];
    for c in spaces {
        assert!(c.is_whitespace());
        let text = format!("{c}8{c}\n{c}{c}1\n1{c}2{c}{c}3{c}4{c}\n");
        assert_eq!(parse_input(text.as_bytes()), Ok((8, vec![rect(1, 2, 3, 4)])));
    }
}

#[test]
fn fields_are_split_as_char_is_whitespace_splits_them() {
    for code in 0..0x30000u32 {
        let c = match char::from_u32(code) {
            Some(c) => c,
            None => continue,
        };
        let text = format!("4\n1\n1{c}2 3 4 5\n");
        let got = parse_input(text.as_bytes());
        let expected = if c == '\n' {
            Err(LoadError::BadObstacle(0))
        } else if c.is_whitespace() {
            Ok((4, vec![rect(1, 2, 3, 4)]))
        } else if let Some(d) = c.to_digit(10).filter(|_| c.is_ascii()) {
            Ok((4, vec![rect(102 + 10 * d as i32, 3, 4, 5)]))
        } else {
            Err(LoadError::BadObstacle(0))
        };
        assert_eq!(got, expected, "U+{:04X}", code);
    }
}

#[test]
fn cut_off_white_space_is_no_white_space() {
    // The first two bytes of a three-byte space, at the end of a line
    // and at the end of the text.
    assert_eq!(parse_input(b"4\n1\n1 2 3 4\xE2\x80\n"), Err(LoadError::BadObstacle(0)));
    assert_eq!(parse_input(b"4\n1\n1 2 3 4\xE2\x80"), Err(LoadError::BadObstacle(0)));
    assert_eq!(parse_input(b"4\n1\n1 2 3 4\xC2"), Err(LoadError::BadObstacle(0)));
    // Whole, it is one.
    assert_eq!(parse_input(b"4\n1\n1 2 3 4\xE2\x80\x80"), Ok((4, vec![rect(1, 2, 3, 4)])));
    assert_eq!(parse_input(b"4\n1\n1 2 3 4\xC2\xA0"), Ok((4, vec![rect(1, 2, 3, 4)])));
}
