use vstd::prelude::*;

use vstd::string::StringSliceAdditionalSpecFns;
use vstd::utf8::{encode_utf8, is_char_boundary, valid_utf8};

use crate::module::Module;
use crate::target::{group_address, Address};
use crate::region::{parse_protection, protection_of, MemoryRegion, Protection};

verus! {

// A memory map (the text of `/proc/<pid>/maps`) is read as UTF-8 bytes: one
// mapping per line, each line a list of fields separated by whitespace:
// `start-end perms offset dev inode [path]`.

/// The length in bytes of the whitespace character that starts at index `i` of
/// the UTF-8 text `text[..end]`, or 0 when none starts there. The whitespace
/// characters are those of Unicode's White_Space property, as `str::split_whitespace`
/// uses them: tab, line feed, vertical tab, form feed, carriage return, space,
/// U+0085, U+00A0, U+1680, U+2000 to U+200A, U+2028, U+2029, U+202F, U+205F and U+3000.
pub open spec fn space_len(text: Seq<u8>, i: int, end: int) -> int {
    if !(0 <= i < end && end <= text.len()) {
        0
    } else {
        let b = text[i];
        if b == 9 || b == 10 || b == 11 || b == 12 || b == 13 || b == 32 {
            1
        } else if b == 0xc2 && i + 1 < end && (text[i + 1] == 0x85 || text[i + 1] == 0xa0) {
            2
        } else if b == 0xe1 && i + 2 < end && text[i + 1] == 0x9a && text[i + 2] == 0x80 {
            3
        } else if b == 0xe2 && i + 2 < end && ((text[i + 1] == 0x80 && ((0x80 <= text[i + 2]
            <= 0x8a) || text[i + 2] == 0xa8 || text[i + 2] == 0xa9 || text[i + 2] == 0xaf)) || (
        text[i + 1] == 0x81 && text[i + 2] == 0x9f)) {
            3
        } else if b == 0xe3 && i + 2 < end && text[i + 1] == 0x80 && text[i + 2] == 0x80 {
            3
        } else {
            0
        }
    }
}

/// The end of the line that starts at `i`: the index of the next line feed, or
/// the end of the text.
pub open spec fn line_end(text: Seq<u8>, i: int) -> int
    decreases text.len() - i,
{
    if i >= text.len() {
        text.len() as int
    } else if text[i] == 10 {
        i
    } else {
        line_end(text, i + 1)
    }
}

/// The first index from `i` on, before `end`, where no whitespace character starts.
pub open spec fn skip_spaces(text: Seq<u8>, i: int, end: int) -> int
    decreases end - i,
{
    if space_len(text, i, end) > 0 {
        skip_spaces(text, i + space_len(text, i, end), end)
    } else {
        i
    }
}

/// The first index from `i` on, before `end`, where a whitespace character starts.
pub open spec fn word_end(text: Seq<u8>, i: int, end: int) -> int
    decreases end - i,
{
    if i < end && space_len(text, i, end) == 0 {
        word_end(text, i + 1, end)
    } else {
        i
    }
}

/// The range of the `k`-th whitespace-separated field of `text[from..end]`.
pub open spec fn field(text: Seq<u8>, from: int, end: int, k: nat) -> Option<(int, int)>
    decreases k,
{
    let start = skip_spaces(text, from, end);
    if start >= end {
        None
    } else {
        let stop = word_end(text, start, end);
        if k == 0 {
            Some((start, stop))
        } else {
            field(text, stop, end, (k - 1) as nat)
        }
    }
}

/// The index of the first `-` in `text[i..end]`.
pub open spec fn first_dash(text: Seq<u8>, i: int, end: int) -> Option<int>
    decreases end - i,
{
    if i >= end {
        None
    } else if text[i] == 0x2d {
        Some(i)
    } else {
        first_dash(text, i + 1, end)
    }
}

/// The value of a hexadecimal digit, either case.
pub open spec fn hex_digit(c: u8) -> Option<int> {
    if 48 <= c <= 57 {
        Some(c - 48)
    } else if 97 <= c <= 102 {
        Some(c - 87)
    } else if 65 <= c <= 70 {
        Some(c - 55)
    } else {
        None
    }
}

/// Every byte is a hexadecimal digit.
pub open spec fn all_hex(digits: Seq<u8>) -> bool {
    forall|i: int| 0 <= i < digits.len() ==> #[trigger] hex_digit(digits[i]) is Some
}

/// The number that a string of hexadecimal digits denotes.
pub open spec fn hex_value(digits: Seq<u8>) -> int
    decreases digits.len(),
{
    if digits.len() == 0 {
        0
    } else {
        hex_value(digits.drop_last()) * 16 + hex_digit(digits.last()).unwrap()
    }
}

/// The digits of a number, after an optional leading `+`.
pub open spec fn hex_digits(text: Seq<u8>) -> Seq<u8> {
    if text.len() > 0 && text[0] == 0x2b {
        text.subrange(1, text.len() as int)
    } else {
        text
    }
}

/// The `usize` that `text` writes in hexadecimal, as `usize::from_str_radix(text, 16)`
/// reads it, or 0 where that fails: on no digits, on a byte that is not a digit,
/// and on a number too large for a `usize`.
pub open spec fn hex_or_zero(text: Seq<u8>) -> usize {
    let digits = hex_digits(text);
    if digits.len() > 0 && all_hex(digits) && hex_value(digits) <= usize::MAX {
        hex_value(digits) as usize
    } else {
        0
    }
}

/// The start and end that the address range field `text[start..stop]` writes as
/// `start-end`, when it has a `-`.
pub open spec fn range_bounds(text: Seq<u8>, start: int, stop: int) -> Option<(usize, usize)> {
    match first_dash(text, start, stop) {
        None => None,
        Some(dash) => Some(
            (
                hex_or_zero(text.subrange(start, dash)),
                hex_or_zero(text.subrange(dash + 1, stop)),
            ),
        ),
    }
}

/// The start, end and protection that the line `text[from..end]` describes, if it
/// has an address range and a permission field.
pub open spec fn region_line(text: Seq<u8>, from: int, end: int) -> Option<(usize, usize, Protection)> {
    match field(text, from, end, 0) {
        None => None,
        Some(range) => match field(text, from, end, 1) {
            None => None,
            Some(perms) => match range_bounds(text, range.0, range.1) {
                None => None,
                Some(bounds) => Some(
                    (bounds.0, bounds.1, protection_of(text.subrange(perms.0, perms.1))),
                ),
            },
        },
    }
}

/// The regions that the lines from index `i` on describe, in order.
pub open spec fn region_lines_from(text: Seq<u8>, i: int) -> Seq<(usize, usize, Protection)>
    decreases text.len() + 1 - i,
    via lines_decrease
{
    if i < 0 || i >= text.len() {
        seq![]
    } else {
        let end = line_end(text, i);
        let rest = region_lines_from(text, end + 1);
        match region_line(text, i, end) {
            Some(region) => seq![region] + rest,
            None => rest,
        }
    }
}

/// Each line of the text ends no earlier than it starts.
#[via_fn]
pub proof fn lines_decrease(text: Seq<u8>, i: int) {
    if 0 <= i < text.len() {
        lemma_line_end(text, i);
    }
}

/// The regions that a memory map describes, in order.
pub open spec fn region_lines(text: Seq<u8>) -> Seq<(usize, usize, Protection)> {
    region_lines_from(text, 0)
}

/// The memory region from `start` to `end`.
pub open spec fn region_of(bounds: (usize, usize, Protection)) -> MemoryRegion {
    MemoryRegion {
        base: bounds.0,
        size: (bounds.1 - bounds.0) as usize,
        protection: bounds.2,
    }
}

/// A line ends at or after its start, and no later than the text.
pub proof fn lemma_line_end(text: Seq<u8>, i: int)
    requires
        0 <= i <= text.len(),
    ensures
        i <= line_end(text, i) <= text.len(),
        line_end(text, i) < text.len() ==> text[line_end(text, i)] == 10,
    decreases text.len() - i,
{
    if i < text.len() && text[i] != 10 {
        lemma_line_end(text, i + 1);
    }
}

/// Skipping whitespace stays within `[i, end]` and stops at a non-space byte.
pub proof fn lemma_skip_spaces(text: Seq<u8>, i: int, end: int)
    requires
        0 <= i <= end <= text.len(),
    ensures
        i <= skip_spaces(text, i, end) <= end,
        skip_spaces(text, i, end) < end ==> space_len(text, skip_spaces(text, i, end), end) == 0,
    decreases end - i,
{
    if space_len(text, i, end) > 0 {
        lemma_skip_spaces(text, i + space_len(text, i, end), end);
    }
}

/// A word stays within `[i, end]` and stops at whitespace or at `end`.
pub proof fn lemma_word_end(text: Seq<u8>, i: int, end: int)
    requires
        0 <= i <= end <= text.len(),
    ensures
        i <= word_end(text, i, end) <= end,
        word_end(text, i, end) < end ==> space_len(text, word_end(text, i, end), end) > 0,
    decreases end - i,
{
    if i < end && space_len(text, i, end) == 0 {
        lemma_word_end(text, i + 1, end);
    }
}

/// A field lies within the text it was taken from, starts with a non-space byte,
/// and ends at whitespace or at the end of that text.
pub proof fn lemma_field(text: Seq<u8>, from: int, end: int, k: nat)
    requires
        0 <= from <= end <= text.len(),
    ensures
        field(text, from, end, k) matches Some(range) ==> {
            &&& from <= range.0 < range.1 <= end
            &&& space_len(text, range.0, end) == 0
            &&& (range.1 < end ==> space_len(text, range.1, end) > 0)
        },
    decreases k,
{
    let start = skip_spaces(text, from, end);
    lemma_skip_spaces(text, from, end);
    if start < end {
        let stop = word_end(text, start, end);
        lemma_word_end(text, start, end);
        if k > 0 {
            lemma_field(text, stop, end, (k - 1) as nat);
        }
    }
}

/// A longer prefix of a string of digits denotes a number at least as large.
pub proof fn lemma_hex_value_grows(digits: Seq<u8>, j: int)
    requires
        all_hex(digits),
        0 <= j <= digits.len(),
    ensures
        0 <= hex_value(digits.take(j)) <= hex_value(digits),
    decreases digits.len(),
{
    if digits.len() > 0 {
        let shorter = digits.drop_last();
        assert(all_hex(shorter)) by {
            assert forall|i: int| 0 <= i < shorter.len() implies #[trigger] hex_digit(shorter[i]) is Some by {
                assert(hex_digit(digits[i]) is Some);
            }
        }
        assert(hex_digit(digits[digits.len() - 1]) is Some);
        if j < digits.len() {
            assert(shorter.take(j) =~= digits.take(j));
            lemma_hex_value_grows(shorter, j);
        } else {
            assert(digits.take(j) =~= digits);
            lemma_hex_value_grows(shorter, shorter.len() as int);
            assert(shorter.take(shorter.len() as int) =~= shorter);
        }
    } else {
        assert(digits.take(j) =~= digits);
    }
}

/// The length of the whitespace character that starts at index `i` of `text[..end]`, or 0.
fn space_at(text: &[u8], i: usize, end: usize) -> (len: usize)
    requires
        i < end <= text@.len(),
    ensures
        len == space_len(text@, i as int, end as int),
{
    let b = text[i];
    if b == 9 || b == 10 || b == 11 || b == 12 || b == 13 || b == 32 {
        1
    } else if b == 0xc2 && end - i > 1 && (text[i + 1] == 0x85 || text[i + 1] == 0xa0) {
        2
    } else if b == 0xe1 && end - i > 2 && text[i + 1] == 0x9a && text[i + 2] == 0x80 {
        3
    } else if b == 0xe2 && end - i > 2 && ((text[i + 1] == 0x80 && ((0x80 <= text[i + 2]
        && text[i + 2] <= 0x8a) || text[i + 2] == 0xa8 || text[i + 2] == 0xa9 || text[i + 2]
        == 0xaf)) || (text[i + 1] == 0x81 && text[i + 2] == 0x9f)) {
        3
    } else if b == 0xe3 && end - i > 2 && text[i + 1] == 0x80 && text[i + 2] == 0x80 {
        3
    } else {
        0
    }
}

/// The end of the line of `text` that starts at `i`.
fn find_line_end(text: &[u8], i: usize) -> (end: usize)
    requires
        i <= text@.len(),
    ensures
        end == line_end(text@, i as int),
        i <= end <= text@.len(),
{
    let mut j = i;
    while j < text.len() && text[j] != 10
        invariant
            i <= j <= text@.len(),
            line_end(text@, i as int) == line_end(text@, j as int),
        decreases text@.len() - j,
    {
        j = j + 1;
    }
    j
}

/// The range of the `k`-th whitespace-separated field of `text[from..end]`.
fn nth_field(text: &[u8], from: usize, end: usize, k: usize) -> (range: Option<(usize, usize)>)
    requires
        from <= end <= text@.len(),
    ensures
        match range {
            Some(r) => field(text@, from as int, end as int, k as nat) == Some((r.0 as int, r.1 as int)),
            None => field(text@, from as int, end as int, k as nat) is None,
        },
{
    let mut at = from;
    let mut remaining = k;
    loop
        invariant
            from <= at <= end <= text@.len(),
            field(text@, from as int, end as int, k as nat) == field(
                text@,
                at as int,
                end as int,
                remaining as nat,
            ),
        decreases remaining,
    {
        let mut start = at;
        while start < end && space_at(text, start, end) > 0
            invariant
                at <= start <= end <= text@.len(),
                skip_spaces(text@, at as int, end as int) == skip_spaces(
                    text@,
                    start as int,
                    end as int,
                ),
            decreases end - start,
        {
            start = start + space_at(text, start, end);
        }
        if start >= end {
            return None;
        }
        let mut stop = start;
        while stop < end && space_at(text, stop, end) == 0
            invariant
                start <= stop <= end <= text@.len(),
                word_end(text@, start as int, end as int) == word_end(
                    text@,
                    stop as int,
                    end as int,
                ),
            decreases end - stop,
        {
            stop = stop + 1;
        }
        if remaining == 0 {
            return Some((start, stop));
        }
        remaining = remaining - 1;
        at = stop;
    }
}

/// The number that `text[start..stop]` writes in hexadecimal, or 0 where
/// `usize::from_str_radix` would fail.
fn parse_hex(text: &[u8], start: usize, stop: usize) -> (value: usize)
    requires
        start <= stop <= text@.len(),
    ensures
        value == hex_or_zero(text@.subrange(start as int, stop as int)),
{
    let ghost field = text@.subrange(start as int, stop as int);
    let mut i = start;
    if i < stop && text[i] == 0x2b {
        i = i + 1;
    }
    let first = i;
    let ghost digits = text@.subrange(first as int, stop as int);
    assert(hex_digits(field) =~= digits);
    if i >= stop {
        return 0;
    }
    let mut acc: usize = 0;
    assert(digits.take(0) =~= Seq::<u8>::empty());
    while i < stop
        invariant
            first <= i <= stop <= text@.len(),
            first < stop,
            digits == text@.subrange(first as int, stop as int),
            hex_digits(text@.subrange(start as int, stop as int)) == digits,
            all_hex(digits.take(i - first)),
            acc == hex_value(digits.take(i - first)),
        decreases stop - i,
    {
        let c = text[i];
        assert(c == digits[i - first]);
        let digit: usize = if 48 <= c && c <= 57 {
            (c - 48) as usize
        } else if 97 <= c && c <= 102 {
            (c - 87) as usize
        } else if 65 <= c && c <= 70 {
            (c - 55) as usize
        } else {
            assert(!all_hex(digits)) by {
                assert(hex_digit(digits[i - first]) is None);
            }
            return 0;
        };
        let next: u128 = acc as u128 * 16 + digit as u128;
        let ghost prefix = digits.take(i - first + 1);
        proof {
            assert(prefix.drop_last() =~= digits.take(i - first));
            assert(prefix.last() == c);
            assert(all_hex(prefix)) by {
                assert forall|j: int| 0 <= j < prefix.len() implies #[trigger] hex_digit(
                    prefix[j],
                ) is Some by {
                    if j < i - first {
                        assert(prefix[j] == digits.take(i - first)[j]);
                    }
                }
            }
            assert(hex_value(prefix) == next);
        }
        if next > usize::MAX as u128 {
            proof {
                if all_hex(digits) {
                    lemma_hex_value_grows(digits, i - first + 1);
                }
            }
            return 0;
        }
        acc = next as usize;
        i = i + 1;
    }
    assert(digits.take(i - first) =~= digits);
    acc
}

/// The index of the first `-` in `text[i..end]`.
fn find_dash(text: &[u8], i: usize, end: usize) -> (dash: Option<usize>)
    requires
        i <= end <= text@.len(),
    ensures
        match dash {
            Some(d) => i <= d < end && first_dash(text@, i as int, end as int) == Some(d as int),
            None => first_dash(text@, i as int, end as int) is None,
        },
{
    let mut j = i;
    while j < end
        invariant
            i <= j <= end <= text@.len(),
            first_dash(text@, i as int, end as int) == first_dash(text@, j as int, end as int),
        decreases end - j,
    {
        if text[j] == 0x2d {
            return Some(j);
        }
        j = j + 1;
    }
    None
}

/// The start and end that the address range field `text[start..stop]` writes.
fn parse_range(text: &[u8], start: usize, stop: usize) -> (bounds: Option<(usize, usize)>)
    requires
        start <= stop <= text@.len(),
    ensures
        bounds == range_bounds(text@, start as int, stop as int),
{
    match find_dash(text, start, stop) {
        None => None,
        Some(dash) => Some((parse_hex(text, start, dash), parse_hex(text, dash + 1, stop))),
    }
}

/// The start, end and protection that the line `text[from..end]` describes.
fn parse_region_line(text: &[u8], from: usize, end: usize) -> (region: Option<
    (usize, usize, Protection),
>)
    requires
        from <= end <= text@.len(),
    ensures
        region == region_line(text@, from as int, end as int),
{
    proof {
        lemma_field(text@, from as int, end as int, 0);
        lemma_field(text@, from as int, end as int, 1);
    }
    let range = match nth_field(text, from, end, 0) {
        Some(range) => range,
        None => return None,
    };
    let perms = match nth_field(text, from, end, 1) {
        Some(perms) => perms,
        None => return None,
    };
    match parse_range(text, range.0, range.1) {
        None => None,
        Some(bounds) => {
            let protection = parse_protection(vstd::slice::slice_subrange(text, perms.0, perms.1));
            Some((bounds.0, bounds.1, protection))
        },
    }
}

/// The memory regions that a memory map lists, one per line that has an address
/// range and a permission field, in the order of the lines. An address that does
/// not read as hexadecimal counts as 0.
pub fn parse_maps_regions(maps: &str) -> (regions: Vec<MemoryRegion>)
    requires
        forall|k: int|
            0 <= k < region_lines(maps.spec_bytes()).len() ==> (#[trigger] region_lines(
                maps.spec_bytes(),
            )[k]).0 <= region_lines(maps.spec_bytes())[k].1,
    ensures
        regions@ == region_lines(maps.spec_bytes()).map_values(
            |bounds: (usize, usize, Protection)| region_of(bounds),
        ),
{
    let text = maps.as_bytes();
    let ghost all = region_lines(text@);
    let ghost mut done: Seq<(usize, usize, Protection)> = seq![];
    let mut regions: Vec<MemoryRegion> = Vec::new();
    let mut i: usize = 0;
    while i < text.len()
        invariant
            i <= text@.len(),
            all == region_lines(text@),
            forall|k: int| 0 <= k < all.len() ==> (#[trigger] all[k]).0 <= all[k].1,
            all == done + region_lines_from(text@, i as int),
            regions@ == done.map_values(|bounds: (usize, usize, Protection)| region_of(bounds)),
        decreases text@.len() - i,
    {
        let end = find_line_end(text, i);
        let line = parse_region_line(text, i, end);
        let ghost rest = region_lines_from(text@, end + 1);
        assert(region_lines_from(text@, i as int) == match region_line(
            text@,
            i as int,
            end as int,
        ) {
            Some(region) => seq![region] + rest,
            None => rest,
        });
        match line {
            Some(bounds) => {
                assert(all[done.len() as int] == bounds);
                let region = MemoryRegion {
                    base: bounds.0,
                    size: bounds.1 - bounds.0,
                    protection: bounds.2,
                };
                regions.push(region);
                proof {
                    assert(done.push(bounds) + rest =~= done + (seq![bounds] + rest));
                    done = done.push(bounds);
                }
            },
            None => {},
        }
        if end < text.len() {
            i = end + 1;
        } else {
            assert(region_lines_from(text@, end + 1) == Seq::<
                (usize, usize, Protection),
            >::empty());
            assert(region_lines_from(text@, end as int) == Seq::<
                (usize, usize, Protection),
            >::empty());
            i = end;
        }
    }
    assert(region_lines_from(text@, i as int) == Seq::<(usize, usize, Protection)>::empty());
    assert(done + Seq::<(usize, usize, Protection)>::empty() =~= done);
    regions
}


/// A text index at which a piece of text can be cut: the end of the text, or a
/// byte that does not continue a UTF-8 character.
pub open spec fn cut_point(text: Seq<u8>, i: int) -> bool {
    0 <= i <= text.len() && (i == text.len() || !vstd::utf8::is_continuation_byte(text[i]))
}

/// In UTF-8 text, a cut before a byte that does not continue a character, or at the
/// end, falls on a character boundary.
pub proof fn lemma_cut_point_is_boundary(text: Seq<u8>, i: int)
    requires
        valid_utf8(text),
        cut_point(text, i),
    ensures
        is_char_boundary(text, i),
{
    broadcast use vstd::utf8::group_utf8_lib;

    if i < text.len() {
        assert(!vstd::utf8::is_continuation_byte(text[i]));
    }
}

/// In UTF-8 text that starts with an ASCII byte, a cut after that byte falls on a
/// character boundary.
pub proof fn lemma_cut_after_first_ascii(text: Seq<u8>)
    requires
        valid_utf8(text),
        text.len() >= 1,
        text[0] < 0x80,
    ensures
        is_char_boundary(text, 1),
{
    broadcast use vstd::utf8::group_utf8_lib;

    reveal_with_fuel(valid_utf8, 2);
    assert(vstd::utf8::length_of_first_scalar(text) == 1);
    let rest = vstd::utf8::pop_first_scalar(text);
    assert(valid_utf8(rest));
    reveal_with_fuel(is_char_boundary, 2);
}

/// The piece `text[start..stop]` of a string, cut at ASCII bytes.
fn cut(text: &str, start: usize, stop: usize) -> (piece: &str)
    requires
        start <= stop,
        cut_point(text.spec_bytes(), start as int),
        cut_point(text.spec_bytes(), stop as int),
    ensures
        piece.spec_bytes() == text.spec_bytes().subrange(start as int, stop as int),
{
    broadcast use vstd::utf8::group_utf8_lib;

    proof {
        lemma_cut_point_is_boundary(text.spec_bytes(), start as int);
    }
    let (_, tail) = text.split_at(start);
    proof {
        assert(tail.spec_bytes() =~= text.spec_bytes().subrange(
            start as int,
            text.spec_bytes().len() as int,
        ));
        lemma_cut_point_is_boundary(tail.spec_bytes(), (stop - start) as int);
    }
    let (piece, _) = tail.split_at(stop - start);
    assert(piece.spec_bytes() =~= text.spec_bytes().subrange(start as int, stop as int));
    piece
}

/// The index of the last `/` in `path[..i]`, or -1.
pub open spec fn last_slash_before(path: Seq<u8>, i: int) -> int
    decreases i,
{
    if i <= 0 {
        -1
    } else if path[i - 1] == 0x2f {
        i - 1
    } else {
        last_slash_before(path, i - 1)
    }
}

/// The file name of a path: what follows its last `/`, or the whole path.
pub open spec fn file_name_bytes(path: Seq<u8>) -> Seq<u8> {
    path.subrange(last_slash_before(path, path.len() as int) + 1, path.len() as int)
}

/// The file name of a path: what follows its last `/`, or the whole path.
pub fn file_name(path: &str) -> (name: String)
    ensures
        encode_utf8(name@) == file_name_bytes(path.spec_bytes()),
{
    broadcast use vstd::utf8::group_utf8_lib;

    let bytes = path.as_bytes();
    let mut i = bytes.len();
    while i > 0 && bytes[i - 1] != 0x2f
        invariant
            i <= bytes@.len(),
            bytes@ == path.spec_bytes(),
            last_slash_before(bytes@, bytes@.len() as int) == last_slash_before(bytes@, i as int),
        decreases i,
    {
        i = i - 1;
    }
    if i == 0 {
        assert(bytes@.subrange(0, bytes@.len() as int) =~= bytes@);
        return path.to_owned();
    }
    let slash = i - 1;
    let from_slash = cut(path, slash, bytes.len());
    proof {
        lemma_cut_after_first_ascii(from_slash.spec_bytes());
    }
    let (_, name) = from_slash.split_at(1);
    assert(name.spec_bytes() =~= file_name_bytes(bytes@));
    name.to_owned()
}

/// The path, start and end of a line `text[from..end]` that maps a file: the
/// line has an address range and a sixth field, the path, that starts with `/`.
pub open spec fn file_line(text: Seq<u8>, from: int, end: int) -> Option<(int, int, usize, usize)> {
    match field(text, from, end, 0) {
        None => None,
        Some(range) => match field(text, from, end, 5) {
            None => None,
            Some(path) => if text[path.0] != 0x2f {
                None
            } else {
                match range_bounds(text, range.0, range.1) {
                    None => None,
                    Some(bounds) => Some((path.0, path.1, bounds.0, bounds.1)),
                }
            },
        },
    }
}

/// The mapped files of the lines from index `i` on: path, start and end, in order.
pub open spec fn files_from(text: Seq<u8>, i: int) -> Seq<(Seq<u8>, usize, usize)>
    decreases text.len() + 1 - i,
    via files_decrease
{
    if i < 0 || i >= text.len() {
        seq![]
    } else {
        let end = line_end(text, i);
        let rest = files_from(text, end + 1);
        match file_line(text, i, end) {
            Some(file) => seq![(text.subrange(file.0, file.1), file.2, file.3)] + rest,
            None => rest,
        }
    }
}

/// Each line of the text ends no earlier than it starts.
#[via_fn]
pub proof fn files_decrease(text: Seq<u8>, i: int) {
    if 0 <= i < text.len() {
        lemma_line_end(text, i);
    }
}

/// The mapped files of a memory map: path, start and end of each line that maps
/// a file, in order.
pub open spec fn mapped_files(text: Seq<u8>) -> Seq<(Seq<u8>, usize, usize)> {
    files_from(text, 0)
}

/// The lowest start and the highest end of the mappings of `path`, if it is mapped.
pub open spec fn extent(files: Seq<(Seq<u8>, usize, usize)>, path: Seq<u8>) -> Option<(usize, usize)>
    decreases files.len(),
{
    if files.len() == 0 {
        None
    } else {
        let file = files.last();
        let rest = extent(files.drop_last(), path);
        if file.0 == path {
            match rest {
                None => Some((file.1, file.2)),
                Some(bounds) => Some(
                    (
                        if bounds.0 <= file.1 {
                            bounds.0
                        } else {
                            file.1
                        },
                        if bounds.1 >= file.2 {
                            bounds.1
                        } else {
                            file.2
                        },
                    ),
                ),
            }
        } else {
            rest
        }
    }
}

/// A path has an extent exactly when some mapping maps it.
pub proof fn lemma_extent_mapped(files: Seq<(Seq<u8>, usize, usize)>, path: Seq<u8>)
    ensures
        extent(files, path) is Some <==> exists|k: int|
            0 <= k < files.len() && (#[trigger] files[k]).0 == path,
    decreases files.len(),
{
    if files.len() > 0 {
        let shorter = files.drop_last();
        lemma_extent_mapped(shorter, path);
        if extent(shorter, path) is Some {
            let k = choose|k: int| 0 <= k < shorter.len() && (#[trigger] shorter[k]).0 == path;
            assert(files[k] == shorter[k]);
        }
        if exists|k: int| 0 <= k < files.len() && (#[trigger] files[k]).0 == path {
            let k = choose|k: int| 0 <= k < files.len() && (#[trigger] files[k]).0 == path;
            if k < files.len() - 1 {
                assert(shorter[k] == files[k]);
            }
        }
    }
}

/// `module` is the module of the mapped file `module.path`: it starts at the
/// lowest start of the path's mappings, ends at their highest end, and is named
/// after the path's file name.
pub open spec fn module_of_files(module: Module, files: Seq<(Seq<u8>, usize, usize)>) -> bool {
    let path = encode_utf8(module.path@);
    &&& extent(files, path) matches Some(bounds) && {
        &&& module.base@ == bounds.0
        &&& module.size == bounds.1 - bounds.0
    }
    &&& encode_utf8(module.name@) == file_name_bytes(path)
}

/// A mapping of a file, seen as a range of the memory map text and an address range.
#[derive(Clone, Copy)]
struct Mapping {
    path_start: usize,
    path_end: usize,
    start: usize,
    end: usize,
}

/// The path of a mapping.
spec fn path_of(text: Seq<u8>, mapping: Mapping) -> Seq<u8> {
    text.subrange(mapping.path_start as int, mapping.path_end as int)
}

/// The path of a mapping lies in the text and can be cut out of it.
spec fn path_in_text(text: Seq<u8>, mapping: Mapping) -> bool {
    &&& mapping.path_start <= mapping.path_end <= text.len()
    &&& cut_point(text, mapping.path_start as int)
    &&& cut_point(text, mapping.path_end as int)
}

/// Whether two ranges of the text hold the same bytes.
fn same_bytes(text: &[u8], a_start: usize, a_end: usize, b_start: usize, b_end: usize) -> (same:
    bool)
    requires
        a_start <= a_end <= text@.len(),
        b_start <= b_end <= text@.len(),
    ensures
        same == (text@.subrange(a_start as int, a_end as int) == text@.subrange(
            b_start as int,
            b_end as int,
        )),
{
    let ghost a = text@.subrange(a_start as int, a_end as int);
    let ghost b = text@.subrange(b_start as int, b_end as int);
    if a_end - a_start != b_end - b_start {
        assert(a.len() != b.len());
        return false;
    }
    let n = a_end - a_start;
    let mut j: usize = 0;
    while j < n
        invariant
            n == a_end - a_start == b_end - b_start,
            a_end <= text@.len(),
            b_end <= text@.len(),
            j <= n,
            a == text@.subrange(a_start as int, a_end as int),
            b == text@.subrange(b_start as int, b_end as int),
            forall|t: int| 0 <= t < j ==> a[t] == b[t],
        decreases n - j,
    {
        if text[a_start + j] != text[b_start + j] {
            assert(a[j as int] != b[j as int]);
            return false;
        }
        j = j + 1;
    }
    assert(a =~= b);
    true
}

/// The mapping among `mappings` whose path is `text[start..stop]`, if any.
fn find_mapping(text: &[u8], mappings: &Vec<Mapping>, start: usize, stop: usize) -> (found: Option<
    usize,
>)
    requires
        start <= stop <= text@.len(),
        forall|g: int| 0 <= g < mappings@.len() ==> path_in_text(text@, #[trigger] mappings@[g]),
    ensures
        match found {
            Some(g) => g < mappings@.len() && path_of(text@, mappings@[g as int])
                == text@.subrange(start as int, stop as int),
            None => forall|g: int|
                0 <= g < mappings@.len() ==> path_of(text@, #[trigger] mappings@[g])
                    != text@.subrange(start as int, stop as int),
        },
{
    let mut g: usize = 0;
    while g < mappings.len()
        invariant
            start <= stop <= text@.len(),
            g <= mappings@.len(),
            forall|h: int| 0 <= h < mappings@.len() ==> path_in_text(text@, #[trigger] mappings@[h]),
            forall|h: int|
                0 <= h < g ==> path_of(text@, #[trigger] mappings@[h]) != text@.subrange(
                    start as int,
                    stop as int,
                ),
        decreases mappings@.len() - g,
    {
        let mapping = mappings[g];
        assert(path_in_text(text@, mappings@[g as int]));
        if same_bytes(text, mapping.path_start, mapping.path_end, start, stop) {
            return Some(g);
        }
        g = g + 1;
    }
    None
}


/// The path, start and end of the line `text[from..end]`, when it maps a file.
fn parse_file_line(text: &[u8], from: usize, end: usize) -> (file: Option<
    (usize, usize, usize, usize),
>)
    requires
        from <= end <= text@.len(),
        end == line_end(text@, from as int),
    ensures
        match file {
            Some(f) => file_line(text@, from as int, end as int) == Some(
                (f.0 as int, f.1 as int, f.2, f.3),
            ) && f.0 <= f.1 && cut_point(text@, f.0 as int) && cut_point(text@, f.1 as int),
            None => file_line(text@, from as int, end as int) is None,
        },
{
    proof {
        lemma_field(text@, from as int, end as int, 0);
        lemma_field(text@, from as int, end as int, 5);
        lemma_line_end(text@, from as int);
    }
    let range = match nth_field(text, from, end, 0) {
        Some(range) => range,
        None => return None,
    };
    let path = match nth_field(text, from, end, 5) {
        Some(path) => path,
        None => return None,
    };
    if text[path.0] != 0x2f {
        return None;
    }
    match parse_range(text, range.0, range.1) {
        None => None,
        Some(bounds) => Some((path.0, path.1, bounds.0, bounds.1)),
    }
}

/// One mapping per mapped path of the memory map, spanning all of its mappings.
fn gather_mappings(text: &[u8]) -> (mappings: Vec<Mapping>)
    ensures
        forall|g: int| 0 <= g < mappings@.len() ==> path_in_text(text@, #[trigger] mappings@[g]),
        forall|g: int|
            0 <= g < mappings@.len() ==> extent(
                mapped_files(text@),
                path_of(text@, #[trigger] mappings@[g]),
            ) == Some(((mappings@[g]).start, (mappings@[g]).end)),
        forall|g: int, h: int|
            0 <= g < mappings@.len() && 0 <= h < mappings@.len() && g != h ==> path_of(
                text@,
                #[trigger] mappings@[g],
            ) != path_of(text@, #[trigger] mappings@[h]),
        forall|k: int|
            0 <= k < mapped_files(text@).len() ==> exists|g: int|
                0 <= g < mappings@.len() && path_of(text@, #[trigger] mappings@[g])
                    == (#[trigger] mapped_files(text@)[k]).0,
{
    let ghost all = mapped_files(text@);
    let ghost mut seen: Seq<(Seq<u8>, usize, usize)> = seq![];
    let mut mappings: Vec<Mapping> = Vec::new();
    let mut i: usize = 0;
    while i < text.len()
        invariant
            i <= text@.len(),
            all == mapped_files(text@),
            all == seen + files_from(text@, i as int),
            forall|g: int| 0 <= g < mappings@.len() ==> path_in_text(text@, #[trigger] mappings@[g]),
            forall|g: int|
                0 <= g < mappings@.len() ==> extent(seen, path_of(text@, #[trigger] mappings@[g]))
                    == Some(((mappings@[g]).start, (mappings@[g]).end)),
            forall|g: int, h: int|
                0 <= g < mappings@.len() && 0 <= h < mappings@.len() && g != h ==> path_of(
                    text@,
                    #[trigger] mappings@[g],
                ) != path_of(text@, #[trigger] mappings@[h]),
            forall|k: int|
                0 <= k < seen.len() ==> exists|g: int|
                    0 <= g < mappings@.len() && path_of(text@, #[trigger] mappings@[g]) == (
                    #[trigger] seen[k]).0,
        decreases text@.len() - i,
    {
        let end = find_line_end(text, i);
        let line = parse_file_line(text, i, end);
        let ghost rest = files_from(text@, end + 1);
        assert(files_from(text@, i as int) == match file_line(text@, i as int, end as int) {
            Some(file) => seq![(text@.subrange(file.0, file.1), file.2, file.3)] + rest,
            None => rest,
        });
        match line {
            Some(file) => {
                let (path_start, path_end, start, stop) = file;
                let ghost path = text@.subrange(path_start as int, path_end as int);
                let ghost entry = (path, start, stop);
                let ghost next_seen = seen.push(entry);
                assert(next_seen.drop_last() =~= seen);
                assert(next_seen + rest =~= seen + (seq![entry] + rest));
                let ghost before = mappings@;
                match find_mapping(text, &mappings, path_start, path_end) {
                    Some(g) => {
                        let old_mapping = mappings[g];
                        let merged = Mapping {
                            path_start: old_mapping.path_start,
                            path_end: old_mapping.path_end,
                            start: if old_mapping.start <= start {
                                old_mapping.start
                            } else {
                                start
                            },
                            end: if old_mapping.end >= stop {
                                old_mapping.end
                            } else {
                                stop
                            },
                        };
                        mappings.set(g, merged);
                        proof {
                            assert(path_of(text@, merged) == path);
                            assert forall|h: int| 0 <= h < mappings@.len() implies extent(
                                next_seen,
                                path_of(text@, #[trigger] mappings@[h]),
                            ) == Some(((mappings@[h]).start, (mappings@[h]).end)) by {
                                if h != g {
                                    assert(path_of(text@, before[h]) != path_of(
                                        text@,
                                        before[g as int],
                                    ));
                                }
                            }
                            assert forall|k: int| 0 <= k < next_seen.len() implies exists|h: int|
                                0 <= h < mappings@.len() && path_of(
                                    text@,
                                    #[trigger] mappings@[h],
                                ) == (#[trigger] next_seen[k]).0 by {
                                if k < seen.len() {
                                    assert(next_seen[k] == seen[k]);
                                    let h = choose|h: int|
                                        0 <= h < before.len() && path_of(text@, #[trigger] before[h])
                                            == seen[k].0;
                                    assert(path_of(text@, mappings@[h]) == path_of(text@, before[h]));
                                } else {
                                    assert(path_of(text@, mappings@[g as int]) == next_seen[k].0);
                                }
                            }
                            seen = next_seen;
                        }
                    },
                    None => {
                        let fresh = Mapping { path_start, path_end, start, end: stop };
                        mappings.push(fresh);
                        proof {
                            lemma_extent_mapped(seen, path);
                            if extent(seen, path) is Some {
                                let k = choose|k: int| 0 <= k < seen.len() && (#[trigger] seen[k]).0 == path;
                                let h = choose|h: int|
                                    0 <= h < before.len() && path_of(text@, #[trigger] before[h]) == seen[k].0;
                                assert(false);
                            }
                            assert(path_of(text@, fresh) == path);
                            assert forall|h: int| 0 <= h < mappings@.len() implies extent(
                                next_seen,
                                path_of(text@, #[trigger] mappings@[h]),
                            ) == Some(((mappings@[h]).start, (mappings@[h]).end)) by {
                                if h < before.len() {
                                    assert(mappings@[h] == before[h]);
                                }
                            }
                            assert forall|k: int| 0 <= k < next_seen.len() implies exists|h: int|
                                0 <= h < mappings@.len() && path_of(
                                    text@,
                                    #[trigger] mappings@[h],
                                ) == (#[trigger] next_seen[k]).0 by {
                                if k < seen.len() {
                                    assert(next_seen[k] == seen[k]);
                                    let h = choose|h: int|
                                        0 <= h < before.len() && path_of(text@, #[trigger] before[h])
                                            == seen[k].0;
                                    assert(mappings@[h] == before[h]);
                                } else {
                                    let last = before.len() as int;
                                    assert(path_of(text@, mappings@[last]) == next_seen[k].0);
                                }
                            }
                            seen = next_seen;
                        }
                    },
                }
            },
            None => {},
        }
        if end < text.len() {
            i = end + 1;
        } else {
            assert(files_from(text@, end + 1) == Seq::<(Seq<u8>, usize, usize)>::empty());
            assert(files_from(text@, end as int) == Seq::<(Seq<u8>, usize, usize)>::empty());
            i = end;
        }
    }
    assert(files_from(text@, i as int) == Seq::<(Seq<u8>, usize, usize)>::empty());
    assert(seen + Seq::<(Seq<u8>, usize, usize)>::empty() =~= seen);
    mappings
}


/// The mappings are in order of their start addresses.
spec fn sorted_by_start(mappings: Seq<Mapping>) -> bool {
    forall|a: int, b: int|
        0 <= a < b < mappings.len() ==> (#[trigger] mappings[a]).start <= (
        #[trigger] mappings[b]).start
}

/// Every mapping of `mappings` is one of `source`.
spec fn drawn_from(mappings: Seq<Mapping>, source: Seq<Mapping>) -> bool {
    forall|a: int|
        0 <= a < mappings.len() ==> exists|t: int|
            0 <= t < source.len() && #[trigger] mappings[a] == #[trigger] source[t]
}

/// No two mappings of `mappings` have the same path.
spec fn distinct_paths(text: Seq<u8>, mappings: Seq<Mapping>) -> bool {
    forall|a: int, b: int|
        0 <= a < mappings.len() && 0 <= b < mappings.len() && a != b ==> path_of(
            text,
            #[trigger] mappings[a],
        ) != path_of(text, #[trigger] mappings[b])
}

/// Where the elements of a sequence go when one element is inserted at `q`.
proof fn lemma_insert_positions(before: Seq<Mapping>, q: int, mapping: Mapping)
    requires
        0 <= q <= before.len(),
    ensures
        before.insert(q, mapping).len() == before.len() + 1,
        before.insert(q, mapping)[q] == mapping,
        forall|a: int| 0 <= a < q ==> #[trigger] before.insert(q, mapping)[a] == before[a],
        forall|a: int| q < a <= before.len() ==> #[trigger] before.insert(q, mapping)[a] == before[a - 1],
{
    before.insert_ensures(q, mapping);
    assert forall|a: int| q < a <= before.len() implies #[trigger] before.insert(q, mapping)[a]
        == before[a - 1] by {
        assert(before.insert(q, mapping)[(a - 1) + 1] == before[a - 1]);
    }
}

/// Inserting a mapping after all mappings that start no later, and before those
/// that start later, keeps the order.
proof fn lemma_insert_sorted(before: Seq<Mapping>, q: int, mapping: Mapping)
    requires
        sorted_by_start(before),
        0 <= q <= before.len(),
        forall|a: int| 0 <= a < q ==> (#[trigger] before[a]).start <= mapping.start,
        q < before.len() ==> before[q].start > mapping.start,
    ensures
        sorted_by_start(before.insert(q, mapping)),
{
    let after = before.insert(q, mapping);
    lemma_insert_positions(before, q, mapping);
    assert forall|a: int, b: int| 0 <= a < b < after.len() implies (#[trigger] after[a]).start <= (
    #[trigger] after[b]).start by {
        if a < q && b < q {
            assert(after[a] == before[a] && after[b] == before[b]);
        } else if a < q && b == q {
            assert(after[a] == before[a]);
        } else if a < q {
            assert(after[a] == before[a] && after[b] == before[b - 1]);
        } else if a == q {
            assert(after[b] == before[b - 1]);
            if b - 1 > q {
                assert(before[q].start <= before[b - 1].start);
            }
        } else {
            assert(after[a] == before[a - 1] && after[b] == before[b - 1]);
        }
    }
}

/// Inserting the next mapping of the source keeps the mappings those of the source,
/// and all of them.
proof fn lemma_insert_drawn(before: Seq<Mapping>, done: Seq<Mapping>, q: int, mapping: Mapping)
    requires
        drawn_from(before, done),
        drawn_from(done, before),
        0 <= q <= before.len(),
    ensures
        drawn_from(before.insert(q, mapping), done.push(mapping)),
        drawn_from(done.push(mapping), before.insert(q, mapping)),
{
    let after = before.insert(q, mapping);
    let source = done.push(mapping);
    lemma_insert_positions(before, q, mapping);
    assert forall|a: int| 0 <= a < after.len() implies exists|t: int|
        0 <= t < source.len() && #[trigger] after[a] == #[trigger] source[t] by {
        if a < q {
            let t = choose|t: int| 0 <= t < done.len() && #[trigger] before[a] == #[trigger] done[t];
            assert(after[a] == source[t]);
        } else if a == q {
            assert(after[a] == source[done.len() as int]);
        } else {
            let t = choose|t: int|
                0 <= t < done.len() && #[trigger] before[a - 1] == #[trigger] done[t];
            assert(after[a] == source[t]);
        }
    }
    assert forall|t: int| 0 <= t < source.len() implies exists|a: int|
        0 <= a < after.len() && #[trigger] source[t] == #[trigger] after[a] by {
        if t == done.len() {
            assert(after[q] == source[t]);
        } else {
            let a = choose|a: int| 0 <= a < before.len() && #[trigger] done[t] == #[trigger] before[a];
            if a < q {
                assert(after[a] == source[t]);
            } else {
                assert(after[a + 1] == source[t]);
            }
        }
    }
}

/// Inserting a mapping whose path none of the source has keeps the paths distinct.
proof fn lemma_insert_distinct(
    text: Seq<u8>,
    before: Seq<Mapping>,
    done: Seq<Mapping>,
    q: int,
    mapping: Mapping,
)
    requires
        drawn_from(before, done),
        distinct_paths(text, before),
        distinct_paths(text, done.push(mapping)),
        0 <= q <= before.len(),
    ensures
        distinct_paths(text, before.insert(q, mapping)),
{
    let after = before.insert(q, mapping);
    let source = done.push(mapping);
    lemma_insert_positions(before, q, mapping);
    assert forall|a: int| 0 <= a < before.len() implies path_of(text, #[trigger] before[a])
        != path_of(text, mapping) by {
        let t = choose|t: int| 0 <= t < done.len() && #[trigger] before[a] == #[trigger] done[t];
        assert(source[t] == done[t]);
        assert(source[done.len() as int] == mapping);
    }
    assert forall|a: int, b: int|
        0 <= a < after.len() && 0 <= b < after.len() && a != b implies path_of(
        text,
        #[trigger] after[a],
    ) != path_of(text, #[trigger] after[b]) by {
        if a != q && b != q {
            let ia = if a < q { a } else { a - 1 };
            let ib = if b < q { b } else { b - 1 };
            assert(after[a] == before[ia]);
            assert(after[b] == before[ib]);
        } else if a == q {
            let ib = if b < q { b } else { b - 1 };
            assert(after[b] == before[ib]);
        } else {
            let ia = if a < q { a } else { a - 1 };
            assert(after[a] == before[ia]);
        }
    }
}

/// The mappings ordered by start address; mappings with the same start keep
/// their order.
fn sort_by_start(Ghost(text): Ghost<Seq<u8>>, mappings: &Vec<Mapping>) -> (sorted: Vec<Mapping>)
    requires
        distinct_paths(text, mappings@),
    ensures
        sorted@.len() == mappings@.len(),
        sorted_by_start(sorted@),
        drawn_from(sorted@, mappings@),
        drawn_from(mappings@, sorted@),
        distinct_paths(text, sorted@),
{
    let mut sorted: Vec<Mapping> = Vec::new();
    let mut i: usize = 0;
    while i < mappings.len()
        invariant
            i <= mappings@.len(),
            sorted@.len() == i,
            distinct_paths(text, mappings@),
            sorted_by_start(sorted@),
            drawn_from(sorted@, mappings@.take(i as int)),
            drawn_from(mappings@.take(i as int), sorted@),
            distinct_paths(text, sorted@),
        decreases mappings@.len() - i,
    {
        let mapping = mappings[i];
        let mut q: usize = 0;
        while q < sorted.len() && sorted[q].start <= mapping.start
            invariant
                q <= sorted@.len(),
                forall|a: int| 0 <= a < q ==> (#[trigger] sorted@[a]).start <= mapping.start,
            decreases sorted@.len() - q,
        {
            q = q + 1;
        }
        let ghost before = sorted@;
        let ghost done = mappings@.take(i as int);
        proof {
            assert(done.push(mapping) =~= mappings@.take(i + 1));
            assert forall|a: int, b: int|
                0 <= a < done.push(mapping).len() && 0 <= b < done.push(mapping).len() && a != b
                implies path_of(text, #[trigger] done.push(mapping)[a]) != path_of(
                text,
                #[trigger] done.push(mapping)[b],
            ) by {
                assert(done.push(mapping)[a] == mappings@[a]);
                assert(done.push(mapping)[b] == mappings@[b]);
            }
            lemma_insert_sorted(before, q as int, mapping);
            lemma_insert_drawn(before, done, q as int, mapping);
            lemma_insert_distinct(text, before, done, q as int, mapping);
        }
        sorted.insert(q, mapping);
        i = i + 1;
    }
    assert(mappings@.take(i as int) =~= mappings@);
    sorted
}

/// The requirement that every mapped path spans a range that ends no earlier than it starts.
pub open spec fn extents_ordered(files: Seq<(Seq<u8>, usize, usize)>) -> bool {
    forall|k: int|
        0 <= k < files.len() ==> (extent(files, (#[trigger] files[k]).0) matches Some(bounds)
            ==> bounds.0 <= bounds.1)
}

/// The modules that a memory map maps: one per path of a line whose sixth field
/// starts with `/`, spanning from the lowest start to the highest end of the
/// path's mappings, ordered by base address (paths with the same base in no
/// stated order). An address that does not read as hexadecimal counts as 0.
pub fn parse_maps_modules(maps: &str) -> (modules: Vec<Module>)
    requires
        extents_ordered(mapped_files(maps.spec_bytes())),
    ensures
        forall|i: int|
            0 <= i < modules@.len() ==> module_of_files(
                #[trigger] modules@[i],
                mapped_files(maps.spec_bytes()),
            ),
        forall|k: int|
            0 <= k < mapped_files(maps.spec_bytes()).len() ==> exists|i: int|
                0 <= i < modules@.len() && encode_utf8((#[trigger] modules@[i]).path@) == (
                #[trigger] mapped_files(maps.spec_bytes())[k]).0,
        forall|i: int, j: int|
            0 <= i < modules@.len() && 0 <= j < modules@.len() && i != j ==> (
            #[trigger] modules@[i]).path@ != (#[trigger] modules@[j]).path@,
        forall|i: int, j: int|
            0 <= i < j < modules@.len() ==> (#[trigger] modules@[i]).base@ <= (
            #[trigger] modules@[j]).base@,
{
    broadcast use group_address;

    let text = maps.as_bytes();
    let ghost files = mapped_files(text@);
    let mappings = gather_mappings(text);
    let sorted = sort_by_start(Ghost(text@), &mappings);
    let mut modules: Vec<Module> = Vec::new();
    let mut i: usize = 0;
    while i < sorted.len()
        invariant
            text@ == maps.spec_bytes(),
            files == mapped_files(text@),
            extents_ordered(files),
            i <= sorted@.len(),
            modules@.len() == i,
            drawn_from(sorted@, mappings@),
            forall|g: int| 0 <= g < mappings@.len() ==> path_in_text(text@, #[trigger] mappings@[g]),
            forall|g: int|
                0 <= g < mappings@.len() ==> extent(files, path_of(text@, #[trigger] mappings@[g]))
                    == Some(((mappings@[g]).start, (mappings@[g]).end)),
            forall|a: int|
                0 <= a < i ==> encode_utf8((#[trigger] modules@[a]).path@) == path_of(
                    text@,
                    sorted@[a],
                ) && modules@[a].base@ == sorted@[a].start && module_of_files(modules@[a], files),
        decreases sorted@.len() - i,
    {
        let mapping = sorted[i];
        proof {
            let t = choose|t: int|
                0 <= t < mappings@.len() && #[trigger] sorted@[i as int] == #[trigger] mappings@[t];
            assert(path_in_text(text@, mappings@[t]));
            let path = path_of(text@, mapping);
            lemma_extent_mapped(files, path);
            let k = choose|k: int| 0 <= k < files.len() && (#[trigger] files[k]).0 == path;
            assert(extent(files, files[k].0) == Some((mapping.start, mapping.end)));
        }
        let piece = cut(maps, mapping.path_start, mapping.path_end);
        let name = file_name(piece);
        let path = piece.to_owned();
        let module = Module {
            name,
            base: Address::new(mapping.start as u64),
            size: mapping.end - mapping.start,
            path,
        };
        modules.push(module);
        i = i + 1;
    }
    proof {
        assert forall|k: int| 0 <= k < files.len() implies exists|i: int|
            0 <= i < modules@.len() && encode_utf8((#[trigger] modules@[i]).path@) == (
            #[trigger] files[k]).0 by {
            let g = choose|g: int|
                0 <= g < mappings@.len() && path_of(text@, #[trigger] mappings@[g]) == files[k].0;
            let a = choose|a: int|
                0 <= a < sorted@.len() && #[trigger] mappings@[g] == #[trigger] sorted@[a];
            assert(encode_utf8(modules@[a].path@) == path_of(text@, sorted@[a]));
        }
        assert forall|i: int, j: int|
            0 <= i < modules@.len() && 0 <= j < modules@.len() && i != j implies (
            #[trigger] modules@[i]).path@ != (#[trigger] modules@[j]).path@ by {
            assert(encode_utf8(modules@[i].path@) == path_of(text@, sorted@[i]));
            assert(encode_utf8(modules@[j].path@) == path_of(text@, sorted@[j]));
        }
        assert forall|i: int, j: int| 0 <= i < j < modules@.len() implies (
        #[trigger] modules@[i]).base@ <= (#[trigger] modules@[j]).base@ by {
            assert(sorted@[i].start <= sorted@[j].start);
        }
    }
    modules
}


/// Whether every region that a memory map lists ends no earlier than it starts,
/// as `parse_maps_regions` requires.
pub fn maps_regions_ordered(maps: &str) -> (ordered: bool)
    ensures
        ordered == forall|k: int|
            0 <= k < region_lines(maps.spec_bytes()).len() ==> (#[trigger] region_lines(
                maps.spec_bytes(),
            )[k]).0 <= region_lines(maps.spec_bytes())[k].1,
{
    let text = maps.as_bytes();
    let ghost all = region_lines(text@);
    let ghost mut done: Seq<(usize, usize, Protection)> = seq![];
    let mut i: usize = 0;
    while i < text.len()
        invariant
            i <= text@.len(),
            text@ == maps.spec_bytes(),
            all == region_lines(text@),
            all == done + region_lines_from(text@, i as int),
            forall|k: int| 0 <= k < done.len() ==> (#[trigger] done[k]).0 <= done[k].1,
        decreases text@.len() - i,
    {
        let end = find_line_end(text, i);
        let line = parse_region_line(text, i, end);
        let ghost rest = region_lines_from(text@, end + 1);
        assert(region_lines_from(text@, i as int) == match region_line(
            text@,
            i as int,
            end as int,
        ) {
            Some(region) => seq![region] + rest,
            None => rest,
        });
        match line {
            Some(bounds) => {
                if bounds.0 > bounds.1 {
                    assert(region_lines(maps.spec_bytes())[done.len() as int] == bounds);
                    return false;
                }
                proof {
                    assert(done.push(bounds) + rest =~= done + (seq![bounds] + rest));
                    done = done.push(bounds);
                }
            },
            None => {},
        }
        if end < text.len() {
            i = end + 1;
        } else {
            assert(region_lines_from(text@, end + 1) == Seq::<
                (usize, usize, Protection),
            >::empty());
            assert(region_lines_from(text@, end as int) == Seq::<
                (usize, usize, Protection),
            >::empty());
            i = end;
        }
    }
    assert(region_lines_from(text@, i as int) == Seq::<(usize, usize, Protection)>::empty());
    assert(done + Seq::<(usize, usize, Protection)>::empty() =~= done);
    true
}

/// Whether every mapped path of a memory map spans a range that ends no earlier
/// than it starts, as `parse_maps_modules` requires.
pub fn maps_extents_ordered(maps: &str) -> (ordered: bool)
    ensures
        ordered == extents_ordered(mapped_files(maps.spec_bytes())),
{
    let text = maps.as_bytes();
    let ghost files = mapped_files(text@);
    let mappings = gather_mappings(text);
    let mut g: usize = 0;
    while g < mappings.len()
        invariant
            files == mapped_files(text@),
            text@ == maps.spec_bytes(),
            g <= mappings@.len(),
            forall|h: int|
                0 <= h < mappings@.len() ==> extent(files, path_of(text@, #[trigger] mappings@[h]))
                    == Some(((mappings@[h]).start, (mappings@[h]).end)),
            forall|k: int|
                0 <= k < files.len() ==> exists|h: int|
                    0 <= h < mappings@.len() && path_of(text@, #[trigger] mappings@[h]) == (
                    #[trigger] files[k]).0,
            forall|h: int| 0 <= h < g ==> (#[trigger] mappings@[h]).start <= mappings@[h].end,
        decreases mappings@.len() - g,
    {
        if mappings[g].start > mappings[g].end {
            proof {
                let path = path_of(text@, mappings@[g as int]);
                lemma_extent_mapped(files, path);
                let k = choose|k: int| 0 <= k < files.len() && (#[trigger] files[k]).0 == path;
                assert(!(extent(files, files[k].0) matches Some(bounds) ==> bounds.0 <= bounds.1));
                assert(!extents_ordered(files));
            }
            return false;
        }
        g = g + 1;
    }
    assert forall|k: int| 0 <= k < files.len() implies (extent(files, (#[trigger] files[k]).0) matches Some(
        bounds,
    ) ==> bounds.0 <= bounds.1) by {
        let h = choose|h: int|
            0 <= h < mappings@.len() && path_of(text@, #[trigger] mappings@[h]) == files[k].0;
        assert(mappings@[h].start <= mappings@[h].end);
    }
    true
}


/// The extent of a mapped path is the lowest start and the highest end of its
/// mappings: every mapping of the path lies within it, and one mapping starts at
/// its start and one ends at its end.
pub proof fn lemma_extent_bounds(files: Seq<(Seq<u8>, usize, usize)>, path: Seq<u8>)
    ensures
        extent(files, path) matches Some(bounds) ==> {
            &&& forall|k: int|
                0 <= k < files.len() && (#[trigger] files[k]).0 == path ==> bounds.0 <= files[k].1
                    && files[k].2 <= bounds.1
            &&& exists|k: int|
                0 <= k < files.len() && (#[trigger] files[k]).0 == path && files[k].1 == bounds.0
            &&& exists|k: int|
                0 <= k < files.len() && (#[trigger] files[k]).0 == path && files[k].2 == bounds.1
        },
    decreases files.len(),
{
    if files.len() > 0 {
        let shorter = files.drop_last();
        let last = files.len() - 1;
        lemma_extent_bounds(shorter, path);
        assert forall|k: int| 0 <= k < last implies #[trigger] files[k] == shorter[k] by {}
        if let Some(bounds) = extent(files, path) {
            if files[last].0 == path {
                if let Some(rest) = extent(shorter, path) {
                    if bounds.0 != files[last].1 {
                        let k = choose|k: int|
                            0 <= k < shorter.len() && (#[trigger] shorter[k]).0 == path
                                && shorter[k].1 == rest.0;
                        assert(files[k] == shorter[k]);
                    }
                    if bounds.1 != files[last].2 {
                        let k = choose|k: int|
                            0 <= k < shorter.len() && (#[trigger] shorter[k]).0 == path
                                && shorter[k].2 == rest.1;
                        assert(files[k] == shorter[k]);
                    }
                    assert forall|k: int|
                        0 <= k < files.len() && (#[trigger] files[k]).0 == path implies bounds.0
                        <= files[k].1 && files[k].2 <= bounds.1 by {
                        if k < last {
                            assert(files[k] == shorter[k]);
                        }
                    }
                } else {
                    lemma_extent_mapped(shorter, path);
                    assert forall|k: int|
                        0 <= k < files.len() && (#[trigger] files[k]).0 == path implies k == last by {
                        if k < last {
                            assert(shorter[k] == files[k]);
                        }
                    }
                }
                assert(files[last].0 == path);
            } else {
                let k1 = choose|k: int|
                    0 <= k < shorter.len() && (#[trigger] shorter[k]).0 == path && shorter[k].1
                        == bounds.0;
                let k2 = choose|k: int|
                    0 <= k < shorter.len() && (#[trigger] shorter[k]).0 == path && shorter[k].2
                        == bounds.1;
                assert(files[k1] == shorter[k1]);
                assert(files[k2] == shorter[k2]);
                assert forall|k: int|
                    0 <= k < files.len() && (#[trigger] files[k]).0 == path implies bounds.0
                    <= files[k].1 && files[k].2 <= bounds.1 by {
                    if k < last {
                        assert(files[k] == shorter[k]);
                    }
                }
            }
        }
    }
}

/// A module of a memory map starts at the lowest start of its path's mappings and
/// ends at their highest end: every mapping of the path lies within the module,
/// and one of them starts where the module starts and one ends where it ends.
pub proof fn lemma_module_spans_mappings(module: Module, files: Seq<(Seq<u8>, usize, usize)>)
    requires
        module_of_files(module, files),
    ensures
        forall|k: int|
            0 <= k < files.len() && (#[trigger] files[k]).0 == encode_utf8(module.path@)
                ==> module.base@ <= files[k].1 && files[k].2 <= module.base@ + module.size,
        exists|k: int|
            0 <= k < files.len() && (#[trigger] files[k]).0 == encode_utf8(module.path@)
                && files[k].1 == module.base@,
        exists|k: int|
            0 <= k < files.len() && (#[trigger] files[k]).0 == encode_utf8(module.path@)
                && files[k].2 == module.base@ + module.size,
{
    lemma_extent_bounds(files, encode_utf8(module.path@));
}

/// A region of a memory-map line starts at the line's start address, ends at its
/// end address, and has the line's protection.
pub proof fn lemma_region_bounds(bounds: (usize, usize, Protection))
    requires
        bounds.0 <= bounds.1,
    ensures
        region_of(bounds).base == bounds.0,
        region_of(bounds).base + region_of(bounds).size == bounds.1,
        region_of(bounds).protection == bounds.2,
{
}

/// Where the last `/` before `i` is: at a `/`, with no `/` after it before `i`.
proof fn lemma_last_slash(path: Seq<u8>, i: int)
    requires
        i <= path.len(),
    ensures
        -1 <= last_slash_before(path, i) < i || (i <= 0 && last_slash_before(path, i) == -1),
        last_slash_before(path, i) >= 0 ==> path[last_slash_before(path, i)] == 0x2fu8,
        forall|j: int| last_slash_before(path, i) < j < i ==> path[j] != 0x2fu8,
    decreases i,
{
    if i > 0 && path[i - 1] != 0x2f {
        lemma_last_slash(path, i - 1);
    }
}

/// The file name of a path is the part after its last `/`: a suffix of the path
/// that holds no `/`, and either the whole path or what follows a `/`.
pub proof fn lemma_file_name_after_last_slash(path: Seq<u8>)
    ensures
        path.len() >= file_name_bytes(path).len(),
        file_name_bytes(path) == path.subrange(
            path.len() - file_name_bytes(path).len(),
            path.len() as int,
        ),
        forall|j: int|
            0 <= j < file_name_bytes(path).len() ==> #[trigger] file_name_bytes(path)[j] != 0x2fu8,
        file_name_bytes(path).len() == path.len() || path[path.len() - file_name_bytes(
            path,
        ).len() - 1] == 0x2fu8,
{
    let n = path.len() as int;
    lemma_last_slash(path, n);
    let r = last_slash_before(path, n);
    assert forall|j: int| 0 <= j < file_name_bytes(path).len() implies #[trigger] file_name_bytes(
        path,
    )[j] != 0x2fu8 by {
        assert(file_name_bytes(path)[j] == path[r + 1 + j]);
    }
}

} // verus!
