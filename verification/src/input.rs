//! The textual obstacle description.
//!
//! The first line holds the grid side, the second the number of obstacles,
//! and each of the following lines one obstacle as `x y w h`. Lines end
//! with a line feed. Numbers are decimal, with an optional sign, and are
//! set apart by white space: any character with the Unicode property
//! White_Space, in its UTF-8 form.

use vstd::prelude::*;
use crate::geometry::Rect;

verus! {

/// Why an obstacle description was refused.
#[derive(Clone, Copy, Debug, PartialEq, Eq, Structural)]
pub enum LoadError {
    /// The first line is not one positive number that an `i32` holds.
    BadGridSize,
    /// The second line is not one number without a minus sign that a
    /// `usize` holds.
    BadCount,
    /// The line of the obstacle with this index, counted from zero, is
    /// missing, holds fewer than four numbers, or holds something that
    /// is not a number that an `i32` holds.
    BadObstacle(usize),
}

/// The largest magnitude of a number that is read.
pub const NUMBER_LIMIT: i128 = 0x1_0000_0000_0000_0000;

/// ASCII white space: space, tab, line feed, vertical tab, form feed,
/// carriage return.
pub open spec fn is_space(c: u8) -> bool {
    c == 32 || (9 <= c <= 13)
}

/// The two bytes are the UTF-8 form of the next line character or of the
/// no-break space.
pub open spec fn is_space_pair(c: u8, d: u8) -> bool {
    c == 0xC2 && (d == 0x85 || d == 0xA0)
}

/// The three bytes are the UTF-8 form of a white space character: the
/// ogham space mark, one of the spaces from en quad to hair space, the
/// line or the paragraph separator, the narrow no-break space, the medium
/// mathematical space, or the ideographic space.
pub open spec fn is_space_triple(c: u8, d: u8, e: u8) -> bool {
    ||| c == 0xE1 && d == 0x9A && e == 0x80
    ||| c == 0xE2 && d == 0x80 && (0x80 <= e <= 0x8A || e == 0xA8 || e == 0xA9 || e == 0xAF)
    ||| c == 0xE2 && d == 0x81 && e == 0x9F
    ||| c == 0xE3 && d == 0x80 && e == 0x80
}

/// How many bytes the white space character takes that starts at `pos`
/// and ends at or before `hi`; zero where none does.
pub open spec fn space_len(b: Seq<u8>, pos: int, hi: int) -> int {
    if pos < hi && is_space(b[pos]) {
        1
    } else if pos + 1 < hi && is_space_pair(b[pos], b[pos + 1]) {
        2
    } else if pos + 2 < hi && is_space_triple(b[pos], b[pos + 1], b[pos + 2]) {
        3
    } else {
        0
    }
}

/// The end of the line that holds position `pos`: the place of the next
/// line feed, or the end of the text.
pub open spec fn line_end(b: Seq<u8>, pos: int) -> int
    decreases b.len() - pos,
{
    if pos >= b.len() || b[pos] == 10 {
        pos
    } else {
        line_end(b, pos + 1)
    }
}

/// Where the line after the one that ends at `end` starts.
pub open spec fn next_line(b: Seq<u8>, end: int) -> int {
    if end < b.len() {
        end + 1
    } else {
        end
    }
}

/// Where line `k` starts, counted from zero. A line past the end of the
/// text starts at the end and is empty.
pub open spec fn line_start(b: Seq<u8>, k: int) -> int
    decreases k,
{
    if k <= 0 {
        0
    } else {
        next_line(b, line_end(b, line_start(b, k - 1)))
    }
}

/// The first position from `lo` on, below `hi`, at which no white space
/// starts, after white space only; `hi` if there is none.
pub open spec fn skip_spaces(b: Seq<u8>, lo: int, hi: int) -> int
    decreases hi - lo,
{
    if lo >= hi || space_len(b, lo, hi) == 0 {
        lo
    } else {
        skip_spaces(b, lo + space_len(b, lo, hi), hi)
    }
}

/// The first position from `lo` on, below `hi`, at which white space
/// starts; `hi` if there is none.
pub open spec fn token_end(b: Seq<u8>, lo: int, hi: int) -> int
    decreases hi - lo,
{
    if lo >= hi || space_len(b, lo, hi) > 0 {
        lo
    } else {
        token_end(b, lo + 1, hi)
    }
}

/// Every position of `lo..hi` holds a decimal digit.
pub open spec fn all_digits(b: Seq<u8>, lo: int, hi: int) -> bool {
    forall|i: int| lo <= i < hi ==> 48 <= #[trigger] b[i] <= 57
}

/// The number that the decimal digits of `lo..hi` write.
pub open spec fn digits_value(b: Seq<u8>, lo: int, hi: int) -> int
    decreases hi - lo,
{
    if hi <= lo {
        0
    } else {
        digits_value(b, lo, hi - 1) * 10 + (b[hi - 1] - 48)
    }
}

/// The number that `lo..hi` writes: an optional sign, then at least one
/// digit, and a magnitude of at most `NUMBER_LIMIT`. `None` otherwise.
pub open spec fn number(b: Seq<u8>, lo: int, hi: int) -> Option<i128> {
    let signed = lo < hi && (b[lo] == 43 || b[lo] == 45);
    let first = if signed {
        lo + 1
    } else {
        lo
    };
    if first < hi && all_digits(b, first, hi) && digits_value(b, first, hi) <= NUMBER_LIMIT {
        if b[lo] == 45 {
            Some((-digits_value(b, first, hi)) as i128)
        } else {
            Some(digits_value(b, first, hi) as i128)
        }
    } else {
        None
    }
}

/// One list put before another, where there is another.
pub open spec fn before(head: Seq<i128>, tail: Option<Seq<i128>>) -> Option<Seq<i128>> {
    match tail {
        Some(rest) => Some(head + rest),
        None => None,
    }
}

/// The numbers that `lo..hi` holds, set apart by white space. `None` when
/// something between the white space is not a number.
pub open spec fn numbers_in(b: Seq<u8>, lo: int, hi: int) -> Option<Seq<i128>>
    decreases hi - lo,
{
    let s = skip_spaces(b, lo, hi);
    if lo > hi || s >= hi {
        Some(Seq::empty())
    } else {
        let e = token_end(b, s, hi);
        proof {
            lemma_skip_spaces_bounds(b, lo, hi);
            lemma_token_end_bounds(b, s, hi);
        }
        match number(b, s, e) {
            Some(v) => before(seq![v], numbers_in(b, e, hi)),
            None => None,
        }
    }
}

/// The one number on the line that starts at `pos`.
pub open spec fn single_number(b: Seq<u8>, pos: int) -> Option<i128> {
    match numbers_in(b, pos, line_end(b, pos)) {
        Some(v) => if v.len() == 1 {
            Some(v[0])
        } else {
            None
        },
        None => None,
    }
}

/// The grid side that the first line gives.
pub open spec fn grid_size(b: Seq<u8>) -> Option<i32> {
    match single_number(b, 0) {
        Some(v) => if 1 <= v <= i32::MAX {
            Some(v as i32)
        } else {
            None
        },
        None => None,
    }
}

/// The number of obstacles that the second line gives. A number with a
/// minus sign is none, whatever its digits.
pub open spec fn obstacle_count(b: Seq<u8>) -> Option<usize> {
    let pos = line_start(b, 1);
    match single_number(b, pos) {
        Some(v) => if b[skip_spaces(b, pos, line_end(b, pos))] != 45 && 0 <= v <= usize::MAX {
            Some(v as usize)
        } else {
            None
        },
        None => None,
    }
}

/// The obstacle that a list of numbers gives: the first four, where there
/// are four and an `i32` holds each number of the list.
pub open spec fn rect_of(v: Seq<i128>) -> Option<Rect> {
    if v.len() >= 4 && (forall|j: int| 0 <= j < v.len() ==> i32::MIN <= #[trigger] v[j] <= i32::MAX) {
        Some(Rect { x: v[0] as i32, y: v[1] as i32, w: v[2] as i32, h: v[3] as i32 })
    } else {
        None
    }
}

/// The obstacle with index `i`, counted from zero: the one that line
/// `i + 2` gives.
pub open spec fn obstacle(b: Seq<u8>, i: int) -> Option<Rect> {
    let pos = line_start(b, i + 2);
    match numbers_in(b, pos, line_end(b, pos)) {
        Some(v) => rect_of(v),
        None => None,
    }
}

/// The first obstacle from index `from` on, below `count`, whose line
/// gives none; `None` where every line gives one.
pub open spec fn first_bad(b: Seq<u8>, count: int, from: int) -> Option<int>
    decreases count - from,
{
    if from >= count {
        None
    } else if obstacle(b, from) is None {
        Some(from)
    } else {
        first_bad(b, count, from + 1)
    }
}

/// The first `n` obstacles, where each of their lines gives one.
pub open spec fn obstacles(b: Seq<u8>, n: int) -> Seq<Rect> {
    Seq::new(n as nat, |j: int| obstacle(b, j).unwrap())
}

/// What a text gives: the grid side and the obstacles in the order of
/// their lines, or the first thing that is wrong with it.
pub open spec fn loaded(b: Seq<u8>) -> Result<(i32, Seq<Rect>), LoadError> {
    match grid_size(b) {
        None => Err(LoadError::BadGridSize),
        Some(n) => match obstacle_count(b) {
            None => Err(LoadError::BadCount),
            Some(c) => match first_bad(b, c as int, 0) {
                Some(i) => Err(LoadError::BadObstacle(i as usize)),
                None => Ok((n, obstacles(b, c as int))),
            },
        },
    }
}

/// The first bad obstacle is bad, within the count, and the first; where
/// there is none, every line up to the count gives an obstacle.
pub proof fn lemma_first_bad(b: Seq<u8>, count: int, from: int)
    requires
        0 <= from,
    ensures
        first_bad(b, count, from) matches Some(i) ==> from <= i < count && obstacle(b, i) is None
            && forall|j: int| from <= j < i ==> (#[trigger] obstacle(b, j)) is Some,
        first_bad(b, count, from) is None ==> forall|j: int|
            from <= j < count ==> (#[trigger] obstacle(b, j)) is Some,
    decreases count - from,
{
    if from < count && obstacle(b, from) is Some {
        lemma_first_bad(b, count, from + 1);
    }
}

/// A text that loads gives its grid side, as many obstacles as its count
/// says, and each obstacle as its line gives it, in the order of the
/// lines.
pub proof fn lemma_loaded_ok(b: Seq<u8>, n: i32, v: Seq<Rect>)
    requires
        loaded(b) == Ok::<(i32, Seq<Rect>), LoadError>((n, v)),
    ensures
        grid_size(b) == Some(n),
        obstacle_count(b) == Some(v.len() as usize),
        forall|j: int| 0 <= j < v.len() ==> obstacle(b, j) == Some(#[trigger] v[j]),
{
    let c = obstacle_count(b).unwrap() as int;
    lemma_first_bad(b, c, 0);
    assert(v == obstacles(b, c));
}

/// A text is refused for an obstacle exactly when that obstacle is the
/// first, below the count, whose line gives none.
pub proof fn lemma_loaded_bad_obstacle(b: Seq<u8>, i: usize)
    requires
        loaded(b) == Err::<(i32, Seq<Rect>), LoadError>(LoadError::BadObstacle(i)),
    ensures
        grid_size(b) is Some,
        obstacle_count(b) is Some,
        i < obstacle_count(b).unwrap(),
        obstacle(b, i as int) is None,
        forall|j: int| 0 <= j < i ==> (#[trigger] obstacle(b, j)) is Some,
{
    let c = obstacle_count(b).unwrap() as int;
    lemma_first_bad(b, c, 0);
}

/// Skipping white space stays within `lo..hi` and stops where none starts.
pub proof fn lemma_skip_spaces_bounds(b: Seq<u8>, lo: int, hi: int)
    requires
        lo <= hi,
    ensures
        lo <= skip_spaces(b, lo, hi) <= hi,
        space_len(b, skip_spaces(b, lo, hi), hi) == 0,
    decreases hi - lo,
{
    if lo < hi && space_len(b, lo, hi) > 0 {
        lemma_skip_spaces_bounds(b, lo + space_len(b, lo, hi), hi);
    }
}

/// A token ends within `lo..hi`, and past its first byte.
pub proof fn lemma_token_end_bounds(b: Seq<u8>, lo: int, hi: int)
    requires
        lo <= hi,
    ensures
        lo <= token_end(b, lo, hi) <= hi,
        lo < hi && space_len(b, lo, hi) == 0 ==> lo < token_end(b, lo, hi),
    decreases hi - lo,
{
    if lo < hi && space_len(b, lo, hi) == 0 {
        lemma_token_end_bounds(b, lo + 1, hi);
    }
}

/// Further digits do not make a number smaller.
proof fn lemma_digits_grow(b: Seq<u8>, lo: int, mid: int, hi: int)
    requires
        lo <= mid <= hi,
        all_digits(b, lo, hi),
    ensures
        0 <= digits_value(b, lo, mid) <= digits_value(b, lo, hi),
    decreases hi - mid,
{
    if mid == hi {
        lemma_digits_nonnegative(b, lo, mid);
    } else {
        lemma_digits_grow(b, lo, mid, hi - 1);
    }
}

proof fn lemma_digits_nonnegative(b: Seq<u8>, lo: int, hi: int)
    requires
        all_digits(b, lo, hi),
    ensures
        0 <= digits_value(b, lo, hi),
    decreases hi - lo,
{
    if lo < hi {
        lemma_digits_nonnegative(b, lo, hi - 1);
    }
}

/// The end of the line that holds `pos`.
fn find_line_end(bytes: &[u8], pos: usize) -> (e: usize)
    requires
        pos <= bytes@.len(),
    ensures
        e == line_end(bytes@, pos as int),
        pos <= e <= bytes@.len(),
{
    let mut i: usize = pos;
    while i < bytes.len() && bytes[i] != 10
        invariant
            pos <= i <= bytes@.len(),
            line_end(bytes@, pos as int) == line_end(bytes@, i as int),
        decreases bytes@.len() - i,
    {
        i += 1;
    }
    i
}

/// How many bytes the white space character takes that starts at `pos`.
fn space_len_at(bytes: &[u8], pos: usize, hi: usize) -> (n: usize)
    requires
        pos <= hi <= bytes@.len(),
    ensures
        n == space_len(bytes@, pos as int, hi as int),
        pos + n <= hi,
{
    if pos >= hi {
        return 0;
    }
    let c = bytes[pos];
    if c == 32 || (9 <= c && c <= 13) {
        return 1;
    }
    if hi - pos < 2 {
        return 0;
    }
    let d = bytes[pos + 1];
    if c == 0xC2 && (d == 0x85 || d == 0xA0) {
        return 2;
    }
    if hi - pos < 3 {
        return 0;
    }
    let e = bytes[pos + 2];
    if (c == 0xE1 && d == 0x9A && e == 0x80) || (c == 0xE2 && d == 0x80 && ((0x80 <= e && e <= 0x8A)
        || e == 0xA8 || e == 0xA9 || e == 0xAF)) || (c == 0xE2 && d == 0x81 && e == 0x9F) || (c
        == 0xE3 && d == 0x80 && e == 0x80) {
        return 3;
    }
    0
}

/// The first position from `lo` on at which no white space starts.
fn skip_spaces_from(bytes: &[u8], lo: usize, hi: usize) -> (s: usize)
    requires
        lo <= hi <= bytes@.len(),
    ensures
        s == skip_spaces(bytes@, lo as int, hi as int),
        lo <= s <= hi,
{
    let mut s: usize = lo;
    loop
        invariant
            lo <= s <= hi <= bytes@.len(),
            skip_spaces(bytes@, lo as int, hi as int) == skip_spaces(bytes@, s as int, hi as int),
        decreases hi - s,
    {
        let n = space_len_at(bytes, s, hi);
        if n == 0 {
            return s;
        }
        s += n;
    }
}

/// The first position from `lo` on at which white space starts.
fn token_end_from(bytes: &[u8], lo: usize, hi: usize) -> (e: usize)
    requires
        lo <= hi <= bytes@.len(),
    ensures
        e == token_end(bytes@, lo as int, hi as int),
        lo <= e <= hi,
{
    let mut e: usize = lo;
    while e < hi && space_len_at(bytes, e, hi) == 0
        invariant
            lo <= e <= hi <= bytes@.len(),
            token_end(bytes@, lo as int, hi as int) == token_end(bytes@, e as int, hi as int),
        decreases hi - e,
    {
        e += 1;
    }
    e
}

/// The number that `lo..hi` writes.
fn parse_number(bytes: &[u8], lo: usize, hi: usize) -> (r: Option<i128>)
    requires
        lo <= hi <= bytes@.len(),
    ensures
        r == number(bytes@, lo as int, hi as int),
{
    let signed = lo < hi && (bytes[lo] == 43 || bytes[lo] == 45);
    let negative = lo < hi && bytes[lo] == 45;
    let first: usize = if signed {
        lo + 1
    } else {
        lo
    };
    if first >= hi {
        return None;
    }
    let mut acc: i128 = 0;
    let mut i: usize = first;
    while i < hi
        invariant
            lo <= first <= i <= hi <= bytes@.len(),
            signed == (lo < hi && (bytes@[lo as int] == 43 || bytes@[lo as int] == 45)),
            negative == (lo < hi && bytes@[lo as int] == 45),
            first == if signed {
                lo + 1
            } else {
                lo as int
            },
            all_digits(bytes@, first as int, i as int),
            acc == digits_value(bytes@, first as int, i as int),
            0 <= acc <= NUMBER_LIMIT,
        decreases hi - i,
    {
        let c = bytes[i];
        if c < 48 || c > 57 {
            assert(!(48 <= bytes@[i as int] <= 57));
            return None;
        }
        let next: i128 = acc * 10 + (c - 48) as i128;
        assert(next == digits_value(bytes@, first as int, i + 1));
        if next > NUMBER_LIMIT {
            proof {
                if all_digits(bytes@, first as int, hi as int) {
                    lemma_digits_grow(bytes@, first as int, i + 1, hi as int);
                }
            }
            return None;
        }
        acc = next;
        i += 1;
    }
    if negative {
        Some(-acc)
    } else {
        Some(acc)
    }
}

/// The numbers that `lo..hi` holds.
fn parse_numbers(bytes: &[u8], lo: usize, hi: usize) -> (r: Option<Vec<i128>>)
    requires
        lo <= hi <= bytes@.len(),
    ensures
        r is Some <==> numbers_in(bytes@, lo as int, hi as int) is Some,
        r matches Some(v) ==> numbers_in(bytes@, lo as int, hi as int) == Some(v@),
{
    let mut found: Vec<i128> = Vec::new();
    let mut pos: usize = lo;
    loop
        invariant
            lo <= pos <= hi <= bytes@.len(),
            numbers_in(bytes@, lo as int, hi as int) == before(
                found@,
                numbers_in(bytes@, pos as int, hi as int),
            ),
        decreases hi - pos,
    {
        let s: usize = skip_spaces_from(bytes, pos, hi);
        if s >= hi {
            assert(found@ + Seq::<i128>::empty() =~= found@);
            return Some(found);
        }
        let e: usize = token_end_from(bytes, s, hi);
        proof {
            lemma_skip_spaces_bounds(bytes@, pos as int, hi as int);
            lemma_token_end_bounds(bytes@, s as int, hi as int);
        }
        match parse_number(bytes, s, e) {
            Some(v) => {
                proof {
                    let rest = numbers_in(bytes@, e as int, hi as int);
                    if rest is Some {
                        assert(found@ + (seq![v] + rest.unwrap()) =~= found@.push(v) + rest.unwrap());
                    }
                }
                found.push(v);
                pos = e;
            },
            None => {
                return None;
            },
        }
    }
}

/// The one number on the line that starts at `pos`, and the end of that
/// line.
fn parse_single(bytes: &[u8], pos: usize) -> (r: (Option<i128>, usize))
    requires
        pos <= bytes@.len(),
    ensures
        r.0 == single_number(bytes@, pos as int),
        r.1 == line_end(bytes@, pos as int),
        pos <= r.1 <= bytes@.len(),
{
    let end = find_line_end(bytes, pos);
    match parse_numbers(bytes, pos, end) {
        Some(v) => if v.len() == 1 {
            (Some(v[0]), end)
        } else {
            (None, end)
        },
        None => (None, end),
    }
}

/// The obstacle that a list of numbers gives.
fn rect_from(v: &Vec<i128>) -> (r: Option<Rect>)
    ensures
        r == rect_of(v@),
{
    if v.len() < 4 {
        return None;
    }
    let mut j: usize = 0;
    while j < v.len()
        invariant
            j <= v@.len(),
            forall|k: int| 0 <= k < j ==> i32::MIN <= #[trigger] v@[k] <= i32::MAX,
        decreases v@.len() - j,
    {
        if v[j] < i32::MIN as i128 || v[j] > i32::MAX as i128 {
            return None;
        }
        j += 1;
    }
    Some(Rect { x: v[0] as i32, y: v[1] as i32, w: v[2] as i32, h: v[3] as i32 })
}

/// Where the line after the one that ends at `end` starts.
fn step_line(bytes: &[u8], end: usize) -> (s: usize)
    requires
        end <= bytes@.len(),
    ensures
        s == next_line(bytes@, end as int),
        s <= bytes@.len(),
{
    if end < bytes.len() {
        end + 1
    } else {
        end
    }
}

/// Reads an obstacle description: the grid side and the obstacles, in the
/// order of their lines. Lines after the last obstacle are not read.
pub fn parse_input(bytes: &[u8]) -> (r: Result<(i32, Vec<Rect>), LoadError>)
    ensures
        r matches Ok((n, v)) ==> loaded(bytes@) == Ok::<(i32, Seq<Rect>), LoadError>((n, v@)),
        r matches Err(e) ==> loaded(bytes@) == Err::<(i32, Seq<Rect>), LoadError>(e),
{
    let (first, end0) = parse_single(bytes, 0);
    let size: i32 = match first {
        Some(n) => {
            if n < 1 || n > i32::MAX as i128 {
                return Err(LoadError::BadGridSize);
            }
            n as i32
        },
        None => {
            return Err(LoadError::BadGridSize);
        },
    };
    let start1 = step_line(bytes, end0);
    assert(start1 == line_start(bytes@, 1)) by {
        assert(line_start(bytes@, 0) == 0);
    }
    let (second, end1) = parse_single(bytes, start1);
    let count: usize = match second {
        Some(c) => {
            let at = skip_spaces_from(bytes, start1, end1);
            if (at < end1 && bytes[at] == 45) || c < 0 || c > usize::MAX as i128 {
                return Err(LoadError::BadCount);
            }
            c as usize
        },
        None => {
            return Err(LoadError::BadCount);
        },
    };
    let mut found: Vec<Rect> = Vec::new();
    let mut pos: usize = step_line(bytes, end1);
    assert(pos == line_start(bytes@, 2));
    let mut i: usize = 0;
    while i < count
        invariant
            i <= count,
            grid_size(bytes@) == Some(size),
            obstacle_count(bytes@) == Some(count),
            pos <= bytes@.len(),
            pos == line_start(bytes@, i + 2),
            first_bad(bytes@, count as int, 0) == first_bad(bytes@, count as int, i as int),
            found@ == obstacles(bytes@, i as int),
        decreases count - i,
    {
        let end = find_line_end(bytes, pos);
        let rect = match parse_numbers(bytes, pos, end) {
            Some(v) => rect_from(&v),
            None => None,
        };
        match rect {
            Some(r) => {
                found.push(r);
                assert(found@ =~= obstacles(bytes@, i + 1));
            },
            None => {
                return Err(LoadError::BadObstacle(i));
            },
        }
        pos = step_line(bytes, end);
        i += 1;
    }
    Ok((size, found))
}

} // verus!
