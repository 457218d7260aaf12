//! File search: icons, sizes, binary detection, line matching and the
//! assembly of search results.
use vstd::prelude::*;
use std::sync::Arc;
use unicode_normalization::UnicodeNormalization;
use vstd::utf8::is_ascii_chars;

use crate::encoding::{decode, decoded_text, is_binary, is_binary_spec, BINARY_CHECK_LEN};
use crate::matcher::{regex_find_spans, spans_well_formed, SearchPattern};
use crate::text::{ascii_lower, lemma_len_le_byte_len, replace_char_text, replaced_text, split_bounds, split_on, string_of, 
    ascii_lower_seq, byte_len, byte_offset, char_index_at, char_len, char_width, chars_of,
    eq_chars, is_boundary, last_index_of, lemma_index_bound, lemma_index_of_offset,
    lemma_last_index_of, lemma_offset_end, lemma_offset_mono, lemma_offset_step, lower_slice,
    rfind_char, str_byte_len, decimal, digit, digit_char, push_char, push_chars, push_decimal,
};

verus! {

/// The extension of `path`: the characters after its last `.`, or nothing
/// where it has no `.`.
pub open spec fn extension_of(path: Seq<char>) -> Seq<char> {
    match last_index_of(path, '.') {
        Some(i) => path.subrange(i + 1, path.len() as int),
        None => Seq::empty(),
    }
}

/// Lower-cased extensions of executable files.
pub open spec fn is_executable_ext(e: Seq<char>) -> bool {
    e == seq!['e', 'x', 'e']
        || e == seq!['m', 's', 'i']
        || e == seq!['b', 'a', 't']
        || e == seq!['c', 'm', 'd']
        || e == seq!['p', 's', '1']
        || e == seq!['s', 'h']
}

/// Lower-cased extensions of code files.
pub open spec fn is_code_ext(e: Seq<char>) -> bool {
    e == seq!['r', 's']
        || e == seq!['p', 'y']
        || e == seq!['j', 's']
        || e == seq!['t', 's']
        || e == seq!['g', 'o']
        || e == seq!['c']
        || e == seq!['c', 'p', 'p']
        || e == seq!['j', 'a', 'v', 'a']
        || e == seq!['c', 's']
        || e == seq!['r', 'b']
}

/// Lower-cased extensions of config files.
pub open spec fn is_config_ext(e: Seq<char>) -> bool {
    e == seq!['t', 'o', 'm', 'l']
        || e == seq!['j', 's', 'o', 'n']
        || e == seq!['y', 'a', 'm', 'l']
        || e == seq!['y', 'm', 'l']
        || e == seq!['x', 'm', 'l']
        || e == seq!['i', 'n', 'i']
        || e == seq!['c', 'f', 'g']
        || e == seq!['e', 'n', 'v']
}

/// Lower-cased extensions of text files.
pub open spec fn is_text_ext(e: Seq<char>) -> bool {
    e == seq!['m', 'd']
        || e == seq!['t', 'x', 't']
        || e == seq!['l', 'o', 'g']
}

/// Lower-cased extensions of image files.
pub open spec fn is_image_ext(e: Seq<char>) -> bool {
    e == seq!['p', 'n', 'g']
        || e == seq!['j', 'p', 'g']
        || e == seq!['j', 'p', 'e', 'g']
        || e == seq!['g', 'i', 'f']
        || e == seq!['s', 'v', 'g']
        || e == seq!['i', 'c', 'o']
        || e == seq!['b', 'm', 'p']
        || e == seq!['w', 'e', 'b', 'p']
}

/// Lower-cased extensions of video files.
pub open spec fn is_video_ext(e: Seq<char>) -> bool {
    e == seq!['m', 'p', '4']
        || e == seq!['m', 'k', 'v']
        || e == seq!['a', 'v', 'i']
        || e == seq!['m', 'o', 'v']
}

/// Lower-cased extensions of audio files.
pub open spec fn is_audio_ext(e: Seq<char>) -> bool {
    e == seq!['m', 'p', '3']
        || e == seq!['w', 'a', 'v']
        || e == seq!['f', 'l', 'a', 'c']
        || e == seq!['o', 'g', 'g']
}

/// Lower-cased extensions of archive files.
pub open spec fn is_archive_ext(e: Seq<char>) -> bool {
    e == seq!['z', 'i', 'p']
        || e == seq!['r', 'a', 'r']
        || e == seq!['7', 'z']
        || e == seq!['t', 'a', 'r']
        || e == seq!['g', 'z']
}

/// Lower-cased extensions of pdf files.
pub open spec fn is_pdf_ext(e: Seq<char>) -> bool {
    e == seq!['p', 'd', 'f']
}

/// Lower-cased extensions of word files.
pub open spec fn is_word_ext(e: Seq<char>) -> bool {
    e == seq!['d', 'o', 'c']
        || e == seq!['d', 'o', 'c', 'x']
}

/// Lower-cased extensions of sheet files.
pub open spec fn is_sheet_ext(e: Seq<char>) -> bool {
    e == seq!['x', 'l', 's']
        || e == seq!['x', 'l', 's', 'x']
}

/// Lower-cased extensions of slides files.
pub open spec fn is_slides_ext(e: Seq<char>) -> bool {
    e == seq!['p', 'p', 't']
        || e == seq!['p', 'p', 't', 'x']
}

/// Lower-cased extensions of link files.
pub open spec fn is_link_ext(e: Seq<char>) -> bool {
    e == seq!['l', 'n', 'k']
}

/// Lower-cased extensions of database files.
pub open spec fn is_database_ext(e: Seq<char>) -> bool {
    e == seq!['d', 'b']
        || e == seq!['s', 'q', 'l', 'i', 't', 'e']
        || e == seq!['s', 'q', 'l']
}

/// The icon shown for a file, chosen by its extension without regard to
/// ASCII case.
pub open spec fn icon_for(path: Seq<char>) -> Seq<char> {
    icon_of_ext(ascii_lower_seq(extension_of(path)))
}

/// The icon for the lower-cased extension `e`.
pub open spec fn icon_of_ext(e: Seq<char>) -> Seq<char> {
    if is_executable_ext(e) {
        "⚙"@
    } else if is_code_ext(e) {
        "📝"@
    } else if is_config_ext(e) {
        "🔧"@
    } else if is_text_ext(e) {
        "📄"@
    } else if is_image_ext(e) {
        "🖼"@
    } else if is_video_ext(e) {
        "🎬"@
    } else if is_audio_ext(e) {
        "🎵"@
    } else if is_archive_ext(e) {
        "📦"@
    } else if is_pdf_ext(e) {
        "📕"@
    } else if is_word_ext(e) {
        "📘"@
    } else if is_sheet_ext(e) {
        "📗"@
    } else if is_slides_ext(e) {
        "📙"@
    } else if is_link_ext(e) {
        "🔗"@
    } else if is_database_ext(e) {
        "🗄"@
    } else {
        "📄"@
    }
}

fn executable_ext(e: &[char]) -> (r: bool)
    ensures
        r == is_executable_ext(e@),
{
    eq_chars(e, &['e', 'x', 'e'])
        || eq_chars(e, &['m', 's', 'i'])
        || eq_chars(e, &['b', 'a', 't'])
        || eq_chars(e, &['c', 'm', 'd'])
        || eq_chars(e, &['p', 's', '1'])
        || eq_chars(e, &['s', 'h'])
}

fn code_ext(e: &[char]) -> (r: bool)
    ensures
        r == is_code_ext(e@),
{
    let single_c: [char; 1] = ['c'];
    assert(single_c@ =~= seq!['c']);
    eq_chars(e, &['r', 's'])
        || eq_chars(e, &['p', 'y'])
        || eq_chars(e, &['j', 's'])
        || eq_chars(e, &['t', 's'])
        || eq_chars(e, &['g', 'o'])
        || eq_chars(e, &single_c)
        || eq_chars(e, &['c', 'p', 'p'])
        || eq_chars(e, &['j', 'a', 'v', 'a'])
        || eq_chars(e, &['c', 's'])
        || eq_chars(e, &['r', 'b'])
}

fn config_ext(e: &[char]) -> (r: bool)
    ensures
        r == is_config_ext(e@),
{
    eq_chars(e, &['t', 'o', 'm', 'l'])
        || eq_chars(e, &['j', 's', 'o', 'n'])
        || eq_chars(e, &['y', 'a', 'm', 'l'])
        || eq_chars(e, &['y', 'm', 'l'])
        || eq_chars(e, &['x', 'm', 'l'])
        || eq_chars(e, &['i', 'n', 'i'])
        || eq_chars(e, &['c', 'f', 'g'])
        || eq_chars(e, &['e', 'n', 'v'])
}

fn text_ext(e: &[char]) -> (r: bool)
    ensures
        r == is_text_ext(e@),
{
    eq_chars(e, &['m', 'd'])
        || eq_chars(e, &['t', 'x', 't'])
        || eq_chars(e, &['l', 'o', 'g'])
}

fn image_ext(e: &[char]) -> (r: bool)
    ensures
        r == is_image_ext(e@),
{
    eq_chars(e, &['p', 'n', 'g'])
        || eq_chars(e, &['j', 'p', 'g'])
        || eq_chars(e, &['j', 'p', 'e', 'g'])
        || eq_chars(e, &['g', 'i', 'f'])
        || eq_chars(e, &['s', 'v', 'g'])
        || eq_chars(e, &['i', 'c', 'o'])
        || eq_chars(e, &['b', 'm', 'p'])
        || eq_chars(e, &['w', 'e', 'b', 'p'])
}

fn video_ext(e: &[char]) -> (r: bool)
    ensures
        r == is_video_ext(e@),
{
    eq_chars(e, &['m', 'p', '4'])
        || eq_chars(e, &['m', 'k', 'v'])
        || eq_chars(e, &['a', 'v', 'i'])
        || eq_chars(e, &['m', 'o', 'v'])
}

fn audio_ext(e: &[char]) -> (r: bool)
    ensures
        r == is_audio_ext(e@),
{
    eq_chars(e, &['m', 'p', '3'])
        || eq_chars(e, &['w', 'a', 'v'])
        || eq_chars(e, &['f', 'l', 'a', 'c'])
        || eq_chars(e, &['o', 'g', 'g'])
}

fn archive_ext(e: &[char]) -> (r: bool)
    ensures
        r == is_archive_ext(e@),
{
    eq_chars(e, &['z', 'i', 'p'])
        || eq_chars(e, &['r', 'a', 'r'])
        || eq_chars(e, &['7', 'z'])
        || eq_chars(e, &['t', 'a', 'r'])
        || eq_chars(e, &['g', 'z'])
}

fn pdf_ext(e: &[char]) -> (r: bool)
    ensures
        r == is_pdf_ext(e@),
{
    eq_chars(e, &['p', 'd', 'f'])
}

fn word_ext(e: &[char]) -> (r: bool)
    ensures
        r == is_word_ext(e@),
{
    eq_chars(e, &['d', 'o', 'c'])
        || eq_chars(e, &['d', 'o', 'c', 'x'])
}

fn sheet_ext(e: &[char]) -> (r: bool)
    ensures
        r == is_sheet_ext(e@),
{
    eq_chars(e, &['x', 'l', 's'])
        || eq_chars(e, &['x', 'l', 's', 'x'])
}

fn slides_ext(e: &[char]) -> (r: bool)
    ensures
        r == is_slides_ext(e@),
{
    eq_chars(e, &['p', 'p', 't'])
        || eq_chars(e, &['p', 'p', 't', 'x'])
}

fn link_ext(e: &[char]) -> (r: bool)
    ensures
        r == is_link_ext(e@),
{
    eq_chars(e, &['l', 'n', 'k'])
}

fn database_ext(e: &[char]) -> (r: bool)
    ensures
        r == is_database_ext(e@),
{
    eq_chars(e, &['d', 'b'])
        || eq_chars(e, &['s', 'q', 'l', 'i', 't', 'e'])
        || eq_chars(e, &['s', 'q', 'l'])
}

/// The icon shown beside a result, chosen by the extension of `path`.
pub fn file_icon(path: &str) -> (r: &'static str)
    ensures
        r@ == icon_for(path@),
{
    let cs = chars_of(path);
    proof {
        lemma_last_index_of(cs@, '.');
    }
    let start = match rfind_char(cs.as_slice(), '.') {
        Some(i) => {
            assert(i < cs@.len());
            i + 1
        },
        None => cs.len(),
    };
    let e = lower_slice(cs.as_slice(), start, cs.len());
    assert(ascii_lower_seq(extension_of(path@)) == e@);
    if executable_ext(e.as_slice()) {
        return "⚙";
    }
    if code_ext(e.as_slice()) {
        return "📝";
    }
    if config_ext(e.as_slice()) {
        return "🔧";
    }
    if text_ext(e.as_slice()) {
        return "📄";
    }
    if image_ext(e.as_slice()) {
        return "🖼";
    }
    if video_ext(e.as_slice()) {
        return "🎬";
    }
    if audio_ext(e.as_slice()) {
        return "🎵";
    }
    if archive_ext(e.as_slice()) {
        return "📦";
    }
    if pdf_ext(e.as_slice()) {
        return "📕";
    }
    if word_ext(e.as_slice()) {
        return "📘";
    }
    if sheet_ext(e.as_slice()) {
        return "📗";
    }
    if slides_ext(e.as_slice()) {
        return "📙";
    }
    if link_ext(e.as_slice()) {
        return "🔗";
    }
    if database_ext(e.as_slice()) {
        return "🗄";
    }
    "📄"
}


/// Whether the byte range `r` of the encoding of `s` is processed when the
/// scan over the characters of `s` stands at character `c`: its start is
/// the start of a character at or after `c`.
pub open spec fn range_reached(s: Seq<char>, r: (usize, usize), c: int) -> bool {
    let k = char_index_at(s, r.0 as int);
    &&& c <= k < s.len()
    &&& byte_offset(s, k as int) == r.0
}

/// The byte ranges of `br` that the scan reaches have an end that is a
/// character boundary at or after their start.
pub open spec fn reached_ranges_valid(s: Seq<char>, br: Seq<(usize, usize)>, c: int) -> bool
    decreases br.len(),
{
    if br.len() == 0 {
        true
    } else if range_reached(s, br[0], c) {
        &&& br[0].0 <= br[0].1 <= byte_len(s)
        &&& is_boundary(s, br[0].1 as int)
        &&& reached_ranges_valid(s, br.drop_first(), char_index_at(s, br[0].0 as int) as int)
    } else {
        true
    }
}

/// Character ranges of the byte ranges `br` of `s`, scanning from character
/// `c`: ranges are taken in order while each starts at the start of a
/// character at or after the previous one; the first that does not stops
/// the conversion.
pub open spec fn char_ranges_from(s: Seq<char>, br: Seq<(usize, usize)>, c: int) -> Seq<(usize, usize)>
    decreases br.len(),
{
    if br.len() == 0 {
        seq![]
    } else if range_reached(s, br[0], c) {
        let k = char_index_at(s, br[0].0 as int);
        seq![(k as usize, char_index_at(s, br[0].1 as int) as usize)]
            + char_ranges_from(s, br.drop_first(), k as int)
    } else {
        seq![]
    }
}

/// Number of characters from character `ci` (at byte `bi`) up to byte `be`.
fn chars_up_to(cs: &Vec<char>, ci: usize, bi: usize, be: usize) -> (n: usize)
    requires
        ci <= cs@.len(),
        bi == byte_offset(cs@, ci as int),
        bi <= be <= byte_len(cs@),
        is_boundary(cs@, be as int),
    ensures
        ci + n == char_index_at(cs@, be as int),
{
    let ghost kbe = char_index_at(cs@, be as int);
    proof {
        lemma_index_bound(cs@, be as int);
        if kbe < ci {
            lemma_offset_mono(cs@, kbe as int, ci as int);
        }
    }
    let len = cs.len();
    let mut j = ci;
    let mut b = bi;
    while b < be
        invariant
            ci <= j <= kbe <= cs@.len(),
            len == cs@.len(),
            b == byte_offset(cs@, j as int),
            b <= be,
            be == byte_offset(cs@, kbe as int),
        decreases kbe - j,
    {
        proof {
            if j == kbe {
                assert(false);
            }
            lemma_offset_step(cs@, j as int);
            lemma_offset_mono(cs@, j + 1, kbe as int);
        }
        b = b + char_len(cs[j]);
        j = j + 1;
    }
    proof {
        if j < kbe {
            lemma_offset_mono(cs@, j as int, kbe as int);
        }
    }
    j - ci
}

/// Converts byte-offset pairs in `s` into character-offset pairs, in one
/// pass over the characters of `s`.
pub fn byte_ranges_to_char_ranges(s: &str, byte_ranges: &[(usize, usize)]) -> (r: Vec<(usize, usize)>)
    requires
        reached_ranges_valid(s@, byte_ranges@, 0),
    ensures
        r@ == char_ranges_from(s@, byte_ranges@, 0),
{
    if byte_ranges.len() == 0 {
        return Vec::new();
    }
    let cs = chars_of(s);
    let total = str_byte_len(s);
    let len = cs.len();
    let mut result: Vec<(usize, usize)> = Vec::new();
    let mut ri: usize = 0;
    let mut char_idx: usize = 0;
    let mut byte_idx: usize = 0;
    proof {
        assert(cs@.take(0) =~= Seq::<char>::empty());
        assert(byte_ranges@.skip(0) =~= byte_ranges@);
        lemma_offset_end(cs@);
    }
    while char_idx < cs.len()
        invariant
            cs@ == s@,
            len == cs@.len(),
            total == byte_len(s@),
            char_idx <= cs@.len(),
            byte_idx == byte_offset(cs@, char_idx as int),
            ri <= byte_ranges@.len(),
            byte_offset(cs@, cs@.len() as int) == byte_len(cs@),
            reached_ranges_valid(s@, byte_ranges@.skip(ri as int), char_idx as int),
            char_ranges_from(s@, byte_ranges@, 0)
                == result@ + char_ranges_from(s@, byte_ranges@.skip(ri as int), char_idx as int),
        ensures
            ri >= byte_ranges@.len() || char_idx >= cs@.len(),
            ri <= byte_ranges@.len(),
            char_idx <= cs@.len(),
            char_ranges_from(s@, byte_ranges@, 0)
                == result@ + char_ranges_from(s@, byte_ranges@.skip(ri as int), char_idx as int),
        decreases cs@.len() - char_idx,
    {
        proof {
            lemma_offset_mono(cs@, char_idx as int, cs@.len() as int);
        }
        while ri < byte_ranges.len() && byte_ranges[ri].0 == byte_idx
            invariant
                cs@ == s@,
                len == cs@.len(),
                total == byte_len(s@),
                char_idx < cs@.len(),
                byte_idx == byte_offset(cs@, char_idx as int),
                byte_idx < byte_len(cs@),
                ri <= byte_ranges@.len(),
                reached_ranges_valid(s@, byte_ranges@.skip(ri as int), char_idx as int),
                char_ranges_from(s@, byte_ranges@, 0)
                    == result@ + char_ranges_from(s@, byte_ranges@.skip(ri as int), char_idx as int),
            decreases byte_ranges@.len() - ri,
        {
            let (bs, be) = byte_ranges[ri];
            let ghost rest = byte_ranges@.skip(ri as int);
            proof {
                lemma_index_of_offset(cs@, char_idx as int);
                assert(rest[0] == byte_ranges@[ri as int]);
                assert(range_reached(s@, rest[0], char_idx as int));
                assert(rest.drop_first() =~= byte_ranges@.skip(ri + 1));
            }
            let n = chars_up_to(&cs, char_idx, byte_idx, be);
            proof {
                lemma_index_bound(cs@, be as int);
            }
            result.push((char_idx, char_idx + n));
            ri += 1;
            proof {
                assert(result@ =~= result@.drop_last() + seq![(char_idx, (char_idx + n) as usize)]);
            }
        }
        if ri >= byte_ranges.len() {
            break;
        }
        let ghost rest = byte_ranges@.skip(ri as int);
        proof {
            lemma_offset_step(cs@, char_idx as int);
            lemma_offset_mono(cs@, char_idx + 1, cs@.len() as int);
            lemma_index_of_offset(cs@, char_idx as int);
            assert(rest[0] == byte_ranges@[ri as int]);
            let k = char_index_at(s@, rest[0].0 as int);
            if range_reached(s@, rest[0], char_idx as int) {
                assert(k != char_idx);
            }
            assert(range_reached(s@, rest[0], char_idx as int) == range_reached(s@, rest[0], char_idx + 1));
            assert(char_ranges_from(s@, rest, char_idx as int) == char_ranges_from(s@, rest, char_idx + 1));
            assert(reached_ranges_valid(s@, rest, char_idx as int) == reached_ranges_valid(s@, rest, char_idx + 1));
        }
        byte_idx = byte_idx + char_len(cs[char_idx]);
        char_idx = char_idx + 1;
    }
    proof {
        let rest = byte_ranges@.skip(ri as int);
        if ri < byte_ranges.len() {
            lemma_index_bound(s@, rest[0].0 as int);
            assert(!range_reached(s@, rest[0], char_idx as int));
        } else {
            assert(rest.len() == 0);
        }
        assert(result@ + seq![] =~= result@);
    }
    result
}


/// `n / d` rounded to the nearest integer, ties to the even one.
pub open spec fn div_round_even(n: nat, d: nat) -> nat
    recommends
        d > 0,
{
    let q = n / d;
    let r = n % d;
    if 2 * r > d || (2 * r == d && q % 2 == 1) {
        q + 1
    } else {
        q
    }
}

/// `b` split into its leading 53 bits `q` and a power of two `p`, so that
/// `b` lies in `[q * p, (q + 1) * p)`.
pub open spec fn split_mantissa(b: nat) -> (nat, nat)
    decreases b,
{
    if b < 0x20_0000_0000_0000 {
        (b, 1)
    } else {
        let (q, p) = split_mantissa(b / 2);
        (q, 2 * p)
    }
}

/// The value of `b as f64`: `b` rounded to 53 significant bits, ties to
/// even.
pub open spec fn f64_value(b: nat) -> nat {
    let (q, p) = split_mantissa(b);
    let r = b - q * p;
    (if 2 * r > p || (2 * r == p && q % 2 == 1) {
        q + 1
    } else {
        q
    }) * p
}

/// A number of tenths written with one decimal place.
pub open spec fn tenths_text(t: nat) -> Seq<char> {
    decimal(t / 10) + seq!['.', digit_char(t % 10)]
}

/// The human-readable size: bytes below 1 KB, else KB or MB with one
/// decimal place, rounded to nearest with ties to even.
pub open spec fn size_text(bytes: nat) -> Seq<char> {
    if bytes < 1024 {
        decimal(bytes) + seq![' ', 'B']
    } else if bytes < 1024 * 1024 {
        tenths_text(div_round_even(bytes * 10, 1024)) + seq![' ', 'K', 'B']
    } else {
        tenths_text(div_round_even(f64_value(bytes) * 10, 1024 * 1024)) + seq![' ', 'M', 'B']
    }
}

proof fn lemma_split_mantissa(b: nat)
    ensures
        ({
            let (q, p) = split_mantissa(b);
            &&& p >= 1
            &&& q < 0x20_0000_0000_0000
            &&& q * p <= b < (q + 1) * p
        }),
    decreases b,
{
    if b >= 0x20_0000_0000_0000 {
        lemma_split_mantissa(b / 2);
        let (q, p) = split_mantissa(b / 2);
        assert(q * (2 * p) <= b < (q + 1) * (2 * p)) by (nonlinear_arith)
            requires
                q * p <= b / 2 < (q + 1) * p,
                p >= 1,
        {
        }
    }
}

/// `n / d` rounded to the nearest integer, ties to even.
fn round_even_u128(n: u128, d: u128) -> (r: u128)
    requires
        0 < d <= 0x1_0000_0000_0000_0000,
        n < 0x1_0000_0000_0000_0000_0000_0000_0000,
    ensures
        r == div_round_even(n as nat, d as nat),
{
    let q = n / d;
    let rem = n % d;
    if 2 * rem > d || (2 * rem == d && q % 2 == 1) {
        q + 1
    } else {
        q
    }
}

/// Writes `t` tenths as `whole.fraction` after `s`.
fn push_tenths(s: &mut String, t: u128)
    ensures
        final(s)@ == old(s)@ + tenths_text(t as nat),
{
    push_decimal(s, t / 10);
    push_char(s, '.');
    push_char(s, digit(t % 10));
    assert(s@ =~= old(s)@ + tenths_text(t as nat));
}

/// Human-readable file size ("512 B", "1.5 KB", "3.2 MB").
pub fn fmt_size(bytes: u64) -> (r: String)
    ensures
        r@ == size_text(bytes as nat),
{
    let mut s = String::new();
    if bytes < 1024 {
        push_decimal(&mut s, bytes as u128);
        push_chars(&mut s, &[' ', 'B']);
    } else if bytes < 1024 * 1024 {
        let t = round_even_u128((bytes as u128) * 10, 1024);
        push_tenths(&mut s, t);
        push_chars(&mut s, &[' ', 'K', 'B']);
    } else {
        let mut q: u64 = bytes;
        let mut p: u64 = 1;
        while q >= 0x20_0000_0000_0000
            invariant
                1 <= p <= 0x1000,
                (q as nat) * (p as nat) <= bytes,
                split_mantissa(bytes as nat).0 == split_mantissa(q as nat).0,
                split_mantissa(bytes as nat).1 == split_mantissa(q as nat).1 * (p as nat),
            decreases q,
        {
            proof {
                assert((q / 2) as nat * (2 * p as nat) <= (q as nat) * (p as nat)) by (nonlinear_arith);
                assert(p as nat * 0x20_0000_0000_0000 <= (q as nat) * (p as nat)) by (nonlinear_arith)
                    requires
                        q >= 0x20_0000_0000_0000;
                assert(p < 0x800);
                let (q2, p2) = split_mantissa((q / 2) as nat);
                assert(split_mantissa(q as nat) == (q2, 2 * p2));
                assert(p2 * (2 * (p as nat)) == (2 * p2) * (p as nat)) by (nonlinear_arith);
            }
            q = q / 2;
            p = p * 2;
        }
        proof {
            lemma_split_mantissa(bytes as nat);
            assert(split_mantissa(q as nat) == (q as nat, 1nat));
            assert(split_mantissa(q as nat).1 == 1);
            let x = split_mantissa(q as nat).1;
            let y = split_mantissa(bytes as nat).1;
            assert(y == p as nat) by (nonlinear_arith)
                requires
                    x == 1,
                    y == x * (p as nat);
            assert(split_mantissa(bytes as nat).0 == q as nat);
        }
        let r: u64 = bytes - q * p;
        let m: u128 = if 2 * (r as u128) > (p as u128) || (2 * (r as u128) == (p as u128) && q % 2 == 1) {
            (q as u128) + 1
        } else {
            q as u128
        };
        assert(m <= 0x20_0000_0000_0000);
        assert(m * (p as u128) <= 0x2_0000_0000_0000_0000) by (nonlinear_arith)
            requires
                m <= 0x20_0000_0000_0000,
                p <= 0x1000;
        let f: u128 = m * (p as u128);
        assert(f <= 0x2_0000_0000_0000_0000) by (nonlinear_arith)
            requires
                f == m * p,
                m <= 0x20_0000_0000_0000,
                p <= 0x1000;
        let t = round_even_u128(f * 10, 1024 * 1024);
        push_tenths(&mut s, t);
        push_chars(&mut s, &[' ', 'M', 'B']);
    }
    s
}


/// Longest line, in bytes, that is shown whole.
pub const MAX_LINE_LEN: usize = 512;

/// `line` cut to its first 512 characters, with an ellipsis appended, when
/// it holds more than 512 bytes.
pub open spec fn truncated(line: Seq<char>) -> Seq<char> {
    if byte_len(line) > MAX_LINE_LEN {
        line.take(if line.len() < MAX_LINE_LEN { line.len() as int } else { MAX_LINE_LEN as int })
            + seq!['…']
    } else {
        line
    }
}

/// Shortens a long line for display.
pub fn truncate(line: &str) -> (r: String)
    ensures
        r@ == truncated(line@),
{
    let cs = chars_of(line);
    if str_byte_len(line) > MAX_LINE_LEN {
        let n = if cs.len() < MAX_LINE_LEN { cs.len() } else { MAX_LINE_LEN };
        let mut r = string_of(cs.as_slice(), 0, n);
        push_char(&mut r, '…');
        assert(cs@.subrange(0, n as int) =~= line@.take(n as int));
        r
    } else {
        let r = string_of(cs.as_slice(), 0, cs.len());
        assert(cs@.subrange(0, cs@.len() as int) =~= line@);
        r
    }
}

/// One matching line of a file.
pub struct Match {
    /// Line number, counted from 1.
    pub line_num: usize,
    /// The line, shortened for display.
    pub line: String,
    /// Character ranges of the matches in the line.
    pub ranges: Vec<(usize, usize)>,
    /// The line before, where there is one.
    pub context_before: Option<Arc<String>>,
    /// The line after, where there is one and it is not empty.
    pub context_after: Option<Arc<String>>,
}

/// The model of a [`Match`].
pub struct MatchView {
    pub line_num: nat,
    pub line: Seq<char>,
    pub ranges: Seq<(usize, usize)>,
    pub context_before: Option<Seq<char>>,
    pub context_after: Option<Seq<char>>,
}

pub open spec fn opt_text(o: Option<Arc<String>>) -> Option<Seq<char>> {
    match o {
        Some(a) => Some(a@),
        None => None,
    }
}

impl View for Match {
    type V = MatchView;

    open spec fn view(&self) -> MatchView {
        MatchView {
            line_num: self.line_num as nat,
            line: self.line@,
            ranges: self.ranges@,
            context_before: opt_text(self.context_before),
            context_after: opt_text(self.context_after),
        }
    }
}

/// `line` without one trailing carriage return.
pub open spec fn strip_cr(line: Seq<char>) -> Seq<char> {
    if line.len() > 0 && line.last() == '\r' {
        line.drop_last()
    } else {
        line
    }
}

/// The lines of `content`: split at `\n`, each without a trailing `\r`.
pub open spec fn content_lines(content: Seq<char>) -> Seq<Seq<char>> {
    split_on(content, '\n').map_values(|l: Seq<char>| strip_cr(l))
}

/// Lines longer than this many bytes are not searched.
pub const MAX_SEARCHED_LINE: usize = 2048;

/// Whether line `i` of `lines` is reported: it is at most 2048 bytes long
/// and the pattern finds at least one match in it.
pub open spec fn line_matches(lines: Seq<Seq<char>>, i: int, source: Seq<char>, ignore_case: bool) -> bool {
    &&& byte_len(lines[i]) <= MAX_SEARCHED_LINE
    &&& regex_find_spans(source, ignore_case, lines[i]).len() > 0
}

/// The match reported for line `i` of `lines`.
pub open spec fn match_at(lines: Seq<Seq<char>>, i: int, source: Seq<char>, ignore_case: bool) -> MatchView {
    MatchView {
        line_num: (i + 1) as nat,
        line: truncated(lines[i]),
        ranges: char_ranges_from(lines[i], regex_find_spans(source, ignore_case, lines[i]), 0),
        context_before: if i > 0 {
            Some(lines[i - 1])
        } else {
            None
        },
        context_after: if i + 1 < lines.len() && lines[i + 1].len() > 0 {
            Some(lines[i + 1])
        } else {
            None
        },
    }
}

/// The matches reported for the first `k` lines of `lines`, in order.
pub open spec fn matches_upto(lines: Seq<Seq<char>>, k: int, source: Seq<char>, ignore_case: bool) -> Seq<MatchView>
    decreases k,
{
    if k <= 0 {
        seq![]
    } else {
        matches_upto(lines, k - 1, source, ignore_case) + if line_matches(lines, k - 1, source, ignore_case) {
            seq![match_at(lines, k - 1, source, ignore_case)]
        } else {
            seq![]
        }
    }
}

/// The matches that a search with `source` reports in `content`.
pub open spec fn content_matches(content: Seq<char>, source: Seq<char>, ignore_case: bool) -> Seq<MatchView> {
    let lines = content_lines(content);
    matches_upto(lines, lines.len() as int, source, ignore_case)
}

pub proof fn lemma_spans_reached_valid(s: Seq<char>, spans: Seq<(usize, usize)>, c: int)
    requires
        spans_well_formed(s, spans),
    ensures
        reached_ranges_valid(s, spans, c),
    decreases spans.len(),
{
    if spans.len() > 0 {
        let rest = spans.drop_first();
        assert forall|i: int, j: int| 0 <= i < j < rest.len() implies #[trigger] rest[i].1 <= #[trigger] rest[j].0 by {
            assert(rest[i] == spans[i + 1]);
            assert(rest[j] == spans[j + 1]);
        }
        assert forall|i: int| 0 <= i < rest.len() implies {
            &&& (#[trigger] rest[i]).0 <= rest[i].1 <= byte_len(s)
            &&& is_boundary(s, rest[i].0 as int)
            &&& is_boundary(s, rest[i].1 as int)
        } by {
            assert(rest[i] == spans[i + 1]);
        }
        lemma_spans_reached_valid(s, rest, char_index_at(s, spans[0].0 as int) as int);
        assert(spans[0] == spans[0]);
    }
}

/// The lines of `content`: split at `\n`, each without a trailing `\r`.
fn split_content(content: &str) -> (r: Vec<String>)
    ensures
        r@.len() == content_lines(content@).len(),
        forall|k: int| 0 <= k < r@.len() ==> (#[trigger] r@[k])@ == content_lines(content@)[k],
{
    let cs = chars_of(content);
    let bounds = split_bounds(&cs, '\n');
    let mut lines: Vec<String> = Vec::new();
    let mut k: usize = 0;
    while k < bounds.len()
        invariant
            cs@ == content@,
            k <= bounds@.len(),
            lines@.len() == k,
            bounds@.len() == split_on(cs@, '\n').len(),
            forall|j: int|
                0 <= j < bounds@.len() ==> {
                    &&& (#[trigger] bounds@[j]).0 <= bounds@[j].1 <= cs@.len()
                    &&& cs@.subrange(bounds@[j].0 as int, bounds@[j].1 as int) == split_on(cs@, '\n')[j]
                },
            forall|j: int| 0 <= j < k ==> (#[trigger] lines@[j])@ == content_lines(content@)[j],
        decreases bounds@.len() - k,
    {
        let (a, b) = bounds[k];
        assert(bounds@[k as int] == (a, b));
        let end = if b > a && cs[b - 1] == '\r' {
            b - 1
        } else {
            b
        };
        let line = string_of(cs.as_slice(), a, end);
        proof {
            let raw = split_on(cs@, '\n')[k as int];
            assert(raw == cs@.subrange(a as int, b as int));
            if b > a && cs@[b - 1] == '\r' {
                assert(raw.last() == cs@[b - 1]);
                assert(cs@.subrange(a as int, end as int) =~= raw.drop_last());
            }
            assert(line@ == strip_cr(raw));
        }
        lines.push(line);
        k += 1;
    }
    lines
}

/// Finds the matching lines of `content`, each with the line before it and
/// the non-empty line after it as context.
pub fn collect_matches(content: &str, pattern: &SearchPattern) -> (r: Vec<Match>)
    ensures
        r@.map_values(|m: Match| m@) == content_matches(content@, pattern.source(), pattern.ignores_case()),
{
    let lines = split_content(content);
    let ghost ls = content_lines(content@);
    let ghost src = pattern.source();
    let ghost ic = pattern.ignores_case();
    let mut matches: Vec<Match> = Vec::new();
    let mut i: usize = 0;
    while i < lines.len()
        invariant
            i <= lines@.len() == ls.len(),
            ls == content_lines(content@),
            src == pattern.source(),
            ic == pattern.ignores_case(),
            forall|k: int| 0 <= k < lines@.len() ==> (#[trigger] lines@[k])@ == ls[k],
            matches@.map_values(|m: Match| m@) == matches_upto(ls, i as int, src, ic),
        decreases lines@.len() - i,
    {
        let line = &lines[i];
        assert(line@ == ls[i as int]);
        if str_byte_len(line.as_str()) <= MAX_SEARCHED_LINE {
            let spans = pattern.find_spans(line.as_str());
            if spans.len() > 0 {
                proof {
                    lemma_spans_reached_valid(line@, spans@, 0);
                }
                let ranges = byte_ranges_to_char_ranges(line.as_str(), spans.as_slice());
                let display = truncate(line.as_str());
                let context_before = if i > 0 {
                    Some(Arc::new(lines[i - 1].clone()))
                } else {
                    None
                };
                let context_after = if i + 1 < lines.len() && !lines[i + 1].as_str().is_empty() {
                    Some(Arc::new(lines[i + 1].clone()))
                } else {
                    None
                };
                let m = Match { line_num: i + 1, line: display, ranges, context_before, context_after };
                proof {
                    if i + 1 < lines@.len() {
                        assert(lines@[i + 1]@ == ls[i + 1]);
                    }
                    if i > 0 {
                        assert(lines@[i - 1]@ == ls[i - 1]);
                    }
                    assert(m@ == match_at(ls, i as int, src, ic));
                }
                matches.push(m);
            }
        }
        proof {
            assert(matches@.map_values(|m: Match| m@) =~= matches_upto(ls, i + 1, src, ic));
        }
        i += 1;
    }
    matches
}


/// What NFC normalisation (canonical decomposition, then canonical
/// composition) by `unicode-normalization` gives for `s`.
pub uninterp spec fn nfc_text(s: Seq<char>) -> Seq<char>;

/// What `str::to_lowercase` gives for `s`.
pub uninterp spec fn lowercase_text(s: Seq<char>) -> Seq<char>;

/// `UnicodeNormalization::nfc`, collected into a string. The contract
/// names its result.
#[verifier::external_body]
fn nfc_compose(s: &str) -> (r: String)
    ensures
        r@ == nfc_text(s@),
{
    s.nfc().collect()
}

/// `str::to_lowercase`. The contract names its result.
#[verifier::external_body]
pub(crate) fn lowercase(s: &str) -> (r: String)
    ensures
        r@ == lowercase_text(s@),
{
    s.to_lowercase()
}

/// `std::path::MAIN_SEPARATOR`, the platform's path separator: `/` on Unix
/// and `\\` on Windows. Which of the two is left open: it differs between
/// platforms.
#[verifier::external_body]
fn main_separator() -> (r: char)
    ensures
        r == '/' || r == '\\',
{
    std::path::MAIN_SEPARATOR
}

/// Whether `n` is an ordinary path component on every platform: not empty,
/// not `.` or `..`, and free of `/`, `\\` and `:`.
pub open spec fn plain_component(n: Seq<char>) -> bool {
    &&& n.len() > 0
    &&& n != seq!['.']
    &&& n != seq!['.', '.']
    &&& forall|i: int| 0 <= i < n.len() ==> n[i] != '/' && n[i] != '\\' && n[i] != ':'
}

/// Whether every platform reads `path` with `/` as its only separator: it
/// holds no `\\` and no `:` (no drive or device prefix), and it does not
/// start with `//` (no network share).
pub open spec fn portable_path(path: Seq<char>) -> bool {
    &&& forall|i: int| 0 <= i < path.len() ==> path[i] != '\\' && path[i] != ':'
    &&& !(path.len() >= 2 && path[0] == '/' && path[1] == '/')
}

/// Whether `name` is the last component of the portable path `path`: the
/// whole path, or the text after its last `/`, and a plain component.
pub open spec fn plain_file_name(path: Seq<char>, name: Seq<char>) -> bool {
    &&& plain_component(name)
    &&& portable_path(path)
    &&& (path == name || exists|dir: Seq<char>| path == dir + seq!['/'] + name)
}

/// The name that `plain_file_name` finds in `path`, where there is one.
pub open spec fn plain_name_of(path: Seq<char>) -> Option<Seq<char>> {
    if exists|name: Seq<char>| plain_file_name(path, name) {
        Some(choose|name: Seq<char>| plain_file_name(path, name))
    } else {
        None
    }
}

/// A path holds at most one plain file name, and `plain_name_of` finds it.
proof fn lemma_plain_name_unique(path: Seq<char>, name: Seq<char>)
    requires
        plain_file_name(path, name),
    ensures
        plain_name_of(path) == Some(name),
{
    let other = choose|n: Seq<char>| plain_file_name(path, n);
    assert(plain_file_name(path, other));
    if path == name {
        if path != other {
            let d = choose|dir: Seq<char>| path == dir + seq!['/'] + other;
            assert(path[d.len() as int] == '/');
        }
    } else {
        let d1 = choose|dir: Seq<char>| path == dir + seq!['/'] + name;
        assert(path[d1.len() as int] == '/');
        if path == other {
            assert(other[d1.len() as int] == '/');
        } else {
            let d2 = choose|dir: Seq<char>| path == dir + seq!['/'] + other;
            assert(path[d2.len() as int] == '/');
            if d1.len() < d2.len() {
                assert(name[d2.len() - d1.len() - 1] == path[d2.len() as int]);
            } else if d2.len() < d1.len() {
                assert(other[d1.len() - d2.len() - 1] == path[d1.len() as int]);
            }
            assert(name =~= path.subrange(d1.len() as int + 1, path.len() as int));
            assert(other =~= path.subrange(d2.len() as int + 1, path.len() as int));
        }
    }
}

/// `Path::file_name` of `path`, converted to a string. The documentation
/// gives the final component of the path; `/` separates components on every
/// platform, and `to_string_lossy` keeps text that came from a `&str`. So for
/// a portable path (no `\\`, no `:`, no leading `//`) that ends in a plain
/// component, the result is the text after its last `/`. Other paths are left
/// unsaid: there, which characters separate components, and which prefixes a
/// path has, differ between platforms.
#[verifier::external_body]
fn file_name_of(path: &str) -> (r: Option<String>)
    ensures
        plain_name_of(path@) is Some ==> (r is Some && r.unwrap()@ == plain_name_of(path@).unwrap()),
{
    std::path::Path::new(path).file_name().map(|n| n.to_string_lossy().into_owned())
}

/// `s` in NFC: ASCII text as it is, other text composed.
pub open spec fn nfc_of(s: Seq<char>) -> Seq<char> {
    if is_ascii_chars(s) {
        s
    } else {
        nfc_text(s)
    }
}

/// NFD → NFC, so that names stored decomposed (as on macOS HFS+) show as
/// composed characters.
pub fn nfc(s: &str) -> (r: String)
    ensures
        r@ == nfc_of(s@),
{
    if s.is_ascii() {
        return s.to_owned();
    }
    nfc_compose(s)
}

/// The path as displayed: forward slashes, NFC.
pub open spec fn display_path(path: Seq<char>) -> Seq<char> {
    nfc_of(replace_char_text(path, '\\', '/'))
}

/// Computes the display path (forward slashes, NFC, so that macOS NFD
/// names show correctly) and the path with the platform's separator.
pub fn make_paths(path: &str) -> (r: (String, String))
    ensures
        r.0@ == display_path(path@),
        exists|sep: char| (sep == '/' || sep == '\\') && r.1@ == replace_char_text(display_path(path@), '/', sep),
{
    let s = replaced_text(path, '\\', '/');
    let display = nfc(s.as_str());
    let sep = main_separator();
    let win_path = replaced_text(display.as_str(), '/', sep);
    (display, win_path)
}

/// One file found by a search.
pub struct SearchResult {
    pub path: String,
    pub path_lc: String,
    pub win_path: String,
    pub icon: &'static str,
    pub matches: Vec<Match>,
    pub file_size: u64,
    pub file_size_str: String,
}

/// The model of a [`SearchResult`].
pub struct SearchResultView {
    pub path: Seq<char>,
    pub path_lc: Seq<char>,
    pub win_path: Seq<char>,
    pub icon: Seq<char>,
    pub matches: Seq<MatchView>,
    pub file_size: u64,
    pub file_size_str: Seq<char>,
}

impl View for SearchResult {
    type V = SearchResultView;

    open spec fn view(&self) -> SearchResultView {
        SearchResultView {
            path: self.path@,
            path_lc: self.path_lc@,
            win_path: self.win_path@,
            icon: self.icon@,
            matches: self.matches@.map_values(|m: Match| m@),
            file_size: self.file_size,
            file_size_str: self.file_size_str@,
        }
    }
}

/// The result reported for the file at `path` with the given matches and
/// size, its platform path aside.
pub open spec fn result_fields(r: SearchResultView, path: Seq<char>, matches: Seq<MatchView>, file_size: u64) -> bool {
    let display = display_path(path);
    &&& r.path == display
    &&& r.path_lc == lowercase_text(display)
    &&& exists|sep: char| (sep == '/' || sep == '\\') && r.win_path == replace_char_text(display, '/', sep)
    &&& r.icon == icon_for(display)
    &&& r.matches == matches
    &&& r.file_size == file_size
    &&& r.file_size_str == size_text(file_size as nat)
}

/// The match reported for a file name that the pattern finds.
pub open spec fn name_match(name: Seq<char>, source: Seq<char>, ignore_case: bool) -> MatchView {
    let n = nfc_of(name);
    MatchView {
        line_num: 0,
        line: n,
        ranges: char_ranges_from(n, regex_find_spans(source, ignore_case, n), 0),
        context_before: None,
        context_after: None,
    }
}

/// Builds the result for the file at `path`.
fn make_result(path: &str, matches: Vec<Match>, file_size: u64) -> (r: SearchResult)
    ensures
        result_fields(r@, path@, matches@.map_values(|m: Match| m@), file_size),
{
    let (display, win_path) = make_paths(path);
    let icon = file_icon(display.as_str());
    let path_lc = lowercase(display.as_str());
    let file_size_str = fmt_size(file_size);
    SearchResult { path: display, path_lc, win_path, icon, matches, file_size, file_size_str }
}

/// Matches the file name `name` of the file at `path`; a result carries
/// the name, in NFC, as its one match, with the matched character ranges.
pub fn match_filename(name: &str, path: &str, pattern: &SearchPattern, file_size: u64) -> (r: Option<SearchResult>)
    ensures
        regex_find_spans(pattern.source(), pattern.ignores_case(), nfc_of(name@)).len() == 0 ==> r is None,
        regex_find_spans(pattern.source(), pattern.ignores_case(), nfc_of(name@)).len() > 0 ==> (r matches Some(res)
            && result_fields(res@, path@, seq![name_match(name@, pattern.source(), pattern.ignores_case())], file_size)),
{
    let name_nfc = nfc(name);
    let spans = pattern.find_spans(name_nfc.as_str());
    if spans.len() == 0 {
        return None;
    }
    proof {
        lemma_spans_reached_valid(name_nfc@, spans@, 0);
    }
    let ranges = byte_ranges_to_char_ranges(name_nfc.as_str(), spans.as_slice());
    let m = Match { line_num: 0, line: name_nfc, ranges, context_before: None, context_after: None };
    let mut matches: Vec<Match> = Vec::new();
    matches.push(m);
    let res = make_result(path, matches, file_size);
    assert(res@.matches =~= seq![name_match(name@, pattern.source(), pattern.ignores_case())]);
    Some(res)
}

/// Searches the file name of `path` for the pattern; `file_size` is the size
/// the caller already knows. Whatever name the platform's path rules give,
/// the result is the one [`match_filename`] gives for it; a path without a
/// file name gives no result.
pub fn search_filename_with_size(path: &str, pattern: &SearchPattern, file_size: u64) -> (r: Option<SearchResult>)
    ensures
        r matches Some(res) ==> exists|name: Seq<char>|
            regex_find_spans(pattern.source(), pattern.ignores_case(), nfc_of(name)).len() > 0
            && result_fields(res@, path@, seq![name_match(name, pattern.source(), pattern.ignores_case())], file_size),
        forall|name: Seq<char>| #[trigger] plain_file_name(path@, name) ==> {
            &&& regex_find_spans(pattern.source(), pattern.ignores_case(), nfc_of(name)).len() == 0 ==> r is None
            &&& regex_find_spans(pattern.source(), pattern.ignores_case(), nfc_of(name)).len() > 0 ==> (r matches Some(res)
                && result_fields(res@, path@, seq![name_match(name, pattern.source(), pattern.ignores_case())], file_size))
        },
{
    proof {
        assert forall|name: Seq<char>| #[trigger] plain_file_name(path@, name) implies plain_name_of(
            path@,
        ) == Some(name) by {
            lemma_plain_name_unique(path@, name);
        }
    }
    match file_name_of(path) {
        Some(name) => match_filename(name.as_str(), path, pattern, file_size),
        None => None,
    }
}

/// Whether a file of `file_len` bytes is searched: it is not empty and not
/// larger than `max_filesize`.
pub fn searchable_size(file_len: u64, max_filesize: u64) -> (r: bool)
    ensures
        r == (file_len != 0 && file_len <= max_filesize),
{
    file_len != 0 && file_len <= max_filesize
}

/// The matches reported for file contents `bytes`: none for a binary file,
/// else those of its decoded text.
pub open spec fn contents_matches(bytes: Seq<u8>, source: Seq<char>, ignore_case: bool) -> Seq<MatchView> {
    if is_binary_spec(bytes, BINARY_CHECK_LEN as int) {
        seq![]
    } else {
        content_matches(decoded_text(bytes), source, ignore_case)
    }
}

/// Searches the contents `bytes` of the file at `path`, of `file_len` bytes.
/// Binary files and files without a match give no result.
pub fn search_contents(path: &str, bytes: &[u8], file_len: u64, pattern: &SearchPattern) -> (r: Option<SearchResult>)
    requires
        bytes@.len() <= usize::MAX / 4,
    ensures
        ({
            let ms = contents_matches(bytes@, pattern.source(), pattern.ignores_case());
            &&& ms.len() == 0 ==> r is None
            &&& ms.len() > 0 ==> (r matches Some(res) && result_fields(res@, path@, ms, file_len))
        }),
{
    if is_binary(bytes, BINARY_CHECK_LEN) {
        return None;
    }
    let text = decode(bytes);
    let matches = collect_matches(text.as_str(), pattern);
    if matches.len() == 0 {
        return None;
    }
    Some(make_result(path, matches, file_len))
}


/// Converted ranges lead back to the byte ranges they came from: each
/// character range starts and ends at the byte offsets of its byte range.
pub proof fn law_char_ranges_roundtrip(s: Seq<char>, br: Seq<(usize, usize)>, c: int)
    requires
        reached_ranges_valid(s, br, c),
    ensures
        char_ranges_from(s, br, c).len() <= br.len(),
        forall|k: int|
            0 <= k < char_ranges_from(s, br, c).len() ==> {
                &&& byte_offset(s, (#[trigger] char_ranges_from(s, br, c)[k]).0 as int) == br[k].0
                &&& byte_offset(s, char_ranges_from(s, br, c)[k].1 as int) == br[k].1
            },
    decreases br.len(),
{
    if br.len() > 0 && range_reached(s, br[0], c) {
        let k0 = char_index_at(s, br[0].0 as int);
        law_char_ranges_roundtrip(s, br.drop_first(), k0 as int);
        lemma_index_bound(s, br[0].1 as int);
        let k1 = char_index_at(s, br[0].1 as int);
        lemma_len_le_byte_len(s.take(k0 as int));
        lemma_len_le_byte_len(s.take(k1 as int));
        assert(k0 <= br[0].0);
        assert(k1 <= br[0].1);
        let r = char_ranges_from(s, br, c);
        let rest = char_ranges_from(s, br.drop_first(), k0 as int);
        assert forall|k: int| 0 <= k < r.len() implies {
            &&& byte_offset(s, (#[trigger] r[k]).0 as int) == br[k].0
            &&& byte_offset(s, r[k].1 as int) == br[k].1
        } by {
            if k > 0 {
                assert(r[k] == rest[k - 1]);
                assert(br.drop_first()[k - 1] == br[k]);
            }
        }
    }
}

/// A shortened line is at most 512 characters and an ellipsis, and it
/// starts with the line's own characters.
pub proof fn law_truncated_shape(line: Seq<char>)
    ensures
        truncated(line).len() <= MAX_LINE_LEN + 1,
        truncated(line).len() <= line.len() + 1,
        forall|i: int| 0 <= i < truncated(line).len() && i < MAX_LINE_LEN && i < line.len()
            ==> #[trigger] truncated(line)[i] == line[i],
{
    if byte_len(line) <= MAX_LINE_LEN {
        lemma_len_le_byte_len(line);
    }
}

/// Matches come in the order of their lines, one per line, with line
/// numbers within the content.
pub proof fn law_matches_ordered(lines: Seq<Seq<char>>, k: int, source: Seq<char>, ignore_case: bool)
    requires
        0 <= k <= lines.len(),
    ensures
        ({
            let ms = matches_upto(lines, k, source, ignore_case);
            &&& ms.len() <= k
            &&& forall|i: int| 0 <= i < ms.len() ==> 1 <= (#[trigger] ms[i]).line_num <= k
            &&& forall|i: int, j: int| 0 <= i < j < ms.len() ==> (#[trigger] ms[i]).line_num < (#[trigger] ms[j]).line_num
        }),
    decreases k,
{
    if k > 0 {
        law_matches_ordered(lines, k - 1, source, ignore_case);
    }
}

/// An extension holding `/` belongs to no file category.
proof fn lemma_slash_has_no_category(e: Seq<char>, k: int)
    requires
        0 <= k < e.len(),
        e[k] == '/',
    ensures
        icon_of_ext(e) == icon_of_ext(Seq::empty()),
{
    assert(!is_executable_ext(e));
    assert(!is_code_ext(e));
    assert(!is_config_ext(e));
    assert(!is_text_ext(e));
    assert(!is_image_ext(e));
    assert(!is_video_ext(e));
    assert(!is_audio_ext(e));
    assert(!is_archive_ext(e));
    assert(!is_pdf_ext(e));
    assert(!is_word_ext(e));
    assert(!is_sheet_ext(e));
    assert(!is_slides_ext(e));
    assert(!is_link_ext(e));
    assert(!is_database_ext(e));
    let none = Seq::<char>::empty();
    assert(none.len() == 0);
    assert(!is_executable_ext(none));
    assert(!is_code_ext(none));
    assert(!is_config_ext(none));
    assert(!is_text_ext(none));
    assert(!is_image_ext(none));
    assert(!is_video_ext(none));
    assert(!is_audio_ext(none));
    assert(!is_archive_ext(none));
    assert(!is_pdf_ext(none));
    assert(!is_word_ext(none));
    assert(!is_sheet_ext(none));
    assert(!is_slides_ext(none));
    assert(!is_link_ext(none));
    assert(!is_database_ext(none));
}

/// The last `c` in `a + b` is the last one in `b`, else the last one in `a`.
proof fn lemma_last_index_concat(a: Seq<char>, b: Seq<char>, c: char)
    ensures
        last_index_of(a + b, c) == (match last_index_of(b, c) {
            Some(j) => Some(a.len() + j),
            None => last_index_of(a, c),
        }),
    decreases b.len(),
{
    if b.len() == 0 {
        assert(a + b =~= a);
    } else {
        assert((a + b).drop_last() =~= a + b.drop_last());
        assert((a + b).last() == b.last());
        lemma_last_index_concat(a, b.drop_last(), c);
    }
}

/// Texts equal up to ASCII case have their dots at the same places.
proof fn lemma_lower_same_dots(p: Seq<char>, q: Seq<char>)
    requires
        ascii_lower_seq(p) == ascii_lower_seq(q),
    ensures
        p.len() == q.len(),
        last_index_of(p, '.') == last_index_of(q, '.'),
    decreases p.len(),
{
    assert(ascii_lower_seq(p).len() == p.len());
    assert(ascii_lower_seq(q).len() == q.len());
    if p.len() > 0 {
        let n = p.len() - 1;
        assert(ascii_lower(p[n]) == ascii_lower_seq(p)[n]);
        assert(ascii_lower(q[n]) == ascii_lower_seq(q)[n]);
        assert(p[n] == '.' <==> q[n] == '.');
        assert(ascii_lower_seq(p.drop_last()) =~= ascii_lower_seq(p).drop_last());
        assert(ascii_lower_seq(q.drop_last()) =~= ascii_lower_seq(q).drop_last());
        lemma_lower_same_dots(p.drop_last(), q.drop_last());
    }
}

/// The icon does not depend on ASCII case: paths that differ only in the
/// case of ASCII letters get the same icon.
pub proof fn law_icon_ignores_case(p: Seq<char>, q: Seq<char>)
    requires
        ascii_lower_seq(p) == ascii_lower_seq(q),
    ensures
        icon_for(p) == icon_for(q),
{
    lemma_lower_same_dots(p, q);
    match last_index_of(p, '.') {
        Some(i) => {
            lemma_last_index_of(p, '.');
            assert(ascii_lower_seq(extension_of(p)) =~= ascii_lower_seq(p).subrange(i + 1, p.len() as int));
            assert(ascii_lower_seq(extension_of(q)) =~= ascii_lower_seq(q).subrange(i + 1, q.len() as int));
        },
        None => {
            assert(ascii_lower_seq(extension_of(p)) =~= ascii_lower_seq(extension_of(q)));
        },
    }
}

/// The icon depends only on the last segment of the path: the folders
/// before it, dots in their names included, change nothing.
pub proof fn law_icon_ignores_folders(dir: Seq<char>, name: Seq<char>)
    ensures
        icon_for(dir + seq!['/'] + name) == icon_for(name),
{
    let head = dir + seq!['/'];
    let full = head + name;
    lemma_last_index_concat(head, name, '.');
    match last_index_of(name, '.') {
        Some(j) => {
            lemma_last_index_of(name, '.');
            assert(extension_of(full) =~= extension_of(name));
        },
        None => {
            lemma_last_index_concat(dir, seq!['/'], '.');
            assert(last_index_of(seq!['/'], '.') is None) by {
                lemma_last_index_of(seq!['/'], '.');
            }
            assert(extension_of(name) =~= Seq::<char>::empty());
            assert(ascii_lower_seq(Seq::<char>::empty()) =~= Seq::<char>::empty());
            match last_index_of(dir, '.') {
                Some(i) => {
                    lemma_last_index_of(dir, '.');
                    let e = ascii_lower_seq(extension_of(full));
                    let k = dir.len() - i - 1;
                    assert(extension_of(full)[k] == '/');
                    assert(e[k] == ascii_lower('/'));
                    lemma_slash_has_no_category(e, k);
                },
                None => {
                    assert(extension_of(full) =~= Seq::<char>::empty());
                },
            }
        },
    }
}

/// Where the scan stands when it comes to range `k` of `br`: at `c` for the
/// first, else at the start character of the range before.
pub open spec fn scan_start(s: Seq<char>, br: Seq<(usize, usize)>, c: int, k: int) -> int {
    if k == 0 {
        c
    } else {
        char_index_at(s, br[k - 1].0 as int) as int
    }
}

/// Each converted range is its byte range with both ends turned into
/// character indices; conversion keeps a prefix of the ranges, all of them
/// where every range is reached from the one before.
pub proof fn law_char_ranges_pointwise(s: Seq<char>, br: Seq<(usize, usize)>, c: int)
    ensures
        char_ranges_from(s, br, c).len() <= br.len(),
        forall|k: int|
            0 <= k < char_ranges_from(s, br, c).len() ==> #[trigger] char_ranges_from(s, br, c)[k] == (
                char_index_at(s, br[k].0 as int) as usize,
                char_index_at(s, br[k].1 as int) as usize,
            ),
        (forall|k: int| 0 <= k < br.len() ==> range_reached(s, #[trigger] br[k], scan_start(s, br, c, k)))
            ==> char_ranges_from(s, br, c).len() == br.len(),
    decreases br.len(),
{
    if br.len() > 0 && range_reached(s, br[0], c) {
        let k0 = char_index_at(s, br[0].0 as int);
        let rest = br.drop_first();
        law_char_ranges_pointwise(s, rest, k0 as int);
        let r = char_ranges_from(s, br, c);
        let tail = char_ranges_from(s, rest, k0 as int);
        assert forall|k: int| 0 <= k < r.len() implies #[trigger] r[k] == (
            char_index_at(s, br[k].0 as int) as usize,
            char_index_at(s, br[k].1 as int) as usize,
        ) by {
            if k > 0 {
                assert(r[k] == tail[k - 1]);
                assert(rest[k - 1] == br[k]);
            }
        }
        if forall|k: int| 0 <= k < br.len() ==> range_reached(s, #[trigger] br[k], scan_start(s, br, c, k)) {
            assert forall|k: int| 0 <= k < rest.len() implies range_reached(
                s,
                #[trigger] rest[k],
                scan_start(s, rest, k0 as int, k),
            ) by {
                assert(rest[k] == br[k + 1]);
                assert(range_reached(s, br[k + 1], scan_start(s, br, c, k + 1)));
                if k > 0 {
                    assert(rest[k - 1] == br[k]);
                }
            }
        }
    } else if br.len() > 0 {
        assert(scan_start(s, br, c, 0) == c);
        assert(br[0] == br[0]);
    }
}

/// Whether `m` reports line `i` of `lines` as the pattern finds it in the
/// whole line: the line is searched (at most 2048 bytes), the pattern finds
/// a match in it, and each range is the character range of a match found in
/// the whole line, in order.
pub open spec fn reports_whole_line(m: MatchView, lines: Seq<Seq<char>>, i: int, source: Seq<char>, ignore_case: bool) -> bool {
    let spans = regex_find_spans(source, ignore_case, lines[i]);
    &&& 0 <= i < lines.len()
    &&& m.line_num == i + 1
    &&& byte_len(lines[i]) <= MAX_SEARCHED_LINE
    &&& spans.len() > 0
    &&& m.ranges.len() <= spans.len()
    &&& forall|j: int|
        0 <= j < m.ranges.len() ==> #[trigger] m.ranges[j] == (
            char_index_at(lines[i], spans[j].0 as int) as usize,
            char_index_at(lines[i], spans[j].1 as int) as usize,
        )
}

/// The matches of the first `k` lines report exactly the searched lines in
/// which the pattern finds a match, each as found in the whole line.
proof fn lemma_matches_whole_lines(lines: Seq<Seq<char>>, k: int, source: Seq<char>, ignore_case: bool)
    requires
        0 <= k <= lines.len(),
    ensures
        ({
            let ms = matches_upto(lines, k, source, ignore_case);
            &&& forall|n: int| 0 <= n < ms.len() ==> reports_whole_line(#[trigger] ms[n], lines, ms[n].line_num - 1, source, ignore_case)
            &&& forall|i: int|
                0 <= i < k && byte_len(lines[i]) <= MAX_SEARCHED_LINE && regex_find_spans(source, ignore_case, #[trigger] lines[i]).len() > 0
                    ==> exists|n: int| 0 <= n < ms.len() && (#[trigger] ms[n]).line_num == i + 1
        }),
    decreases k,
{
    if k > 0 {
        lemma_matches_whole_lines(lines, k - 1, source, ignore_case);
        let prev = matches_upto(lines, k - 1, source, ignore_case);
        let ms = matches_upto(lines, k, source, ignore_case);
        let i = k - 1;
        if line_matches(lines, i, source, ignore_case) {
            let m = match_at(lines, i, source, ignore_case);
            assert(ms == prev + seq![m]);
            law_char_ranges_pointwise(lines[i], regex_find_spans(source, ignore_case, lines[i]), 0);
            assert(reports_whole_line(m, lines, i, source, ignore_case));
            assert forall|n: int| 0 <= n < ms.len() implies reports_whole_line(#[trigger] ms[n], lines, ms[n].line_num - 1, source, ignore_case) by {
                if n < prev.len() {
                    assert(ms[n] == prev[n]);
                } else {
                    assert(ms[n] == m);
                }
            }
            assert forall|j: int|
                0 <= j < k && byte_len(lines[j]) <= MAX_SEARCHED_LINE && regex_find_spans(source, ignore_case, #[trigger] lines[j]).len() > 0
                implies exists|n: int| 0 <= n < ms.len() && (#[trigger] ms[n]).line_num == j + 1 by {
                if j < i {
                    let n = choose|n: int| 0 <= n < prev.len() && (#[trigger] prev[n]).line_num == j + 1;
                    assert(ms[n] == prev[n]);
                } else {
                    assert(ms[prev.len() as int] == m);
                }
            }
        } else {
            assert(ms =~= prev);
        }
    }
}

/// What a content search reports is decided on whole lines, never on the
/// shortened text shown for them: a line of at most 2048 bytes is reported
/// exactly when the pattern finds a match in the whole line, and the
/// reported ranges are the character ranges of the matches found in the
/// whole line.
pub proof fn law_contents_match_whole_lines(content: Seq<char>, source: Seq<char>, ignore_case: bool)
    ensures
        ({
            let lines = content_lines(content);
            let ms = content_matches(content, source, ignore_case);
            &&& forall|n: int| 0 <= n < ms.len() ==> reports_whole_line(#[trigger] ms[n], lines, ms[n].line_num - 1, source, ignore_case)
            &&& forall|i: int|
                0 <= i < lines.len() && byte_len(lines[i]) <= MAX_SEARCHED_LINE && regex_find_spans(source, ignore_case, #[trigger] lines[i]).len() > 0
                    ==> exists|n: int| 0 <= n < ms.len() && (#[trigger] ms[n]).line_num == i + 1
        }),
{
    let lines = content_lines(content);
    lemma_matches_whole_lines(lines, lines.len() as int, source, ignore_case);
}

/// A file-name result shows the name in NFC, the text the pattern ran on:
/// its one match line is the NFC form of the name, the pattern finds a match
/// in that line, and each range is the character range, in that line, of a
/// match found in it.
pub proof fn law_filename_match_line(
    name: Seq<char>,
    path: Seq<char>,
    source: Seq<char>,
    ignore_case: bool,
    res: SearchResultView,
    file_size: u64,
)
    requires
        regex_find_spans(source, ignore_case, nfc_of(name)).len() > 0,
        result_fields(res, path, seq![name_match(name, source, ignore_case)], file_size),
    ensures
        res.matches.len() == 1,
        res.matches[0].line == nfc_of(name),
        res.matches[0].line_num == 0,
        ({
            let line = res.matches[0].line;
            let spans = regex_find_spans(source, ignore_case, line);
            &&& spans.len() > 0
            &&& res.matches[0].ranges.len() <= spans.len()
            &&& forall|j: int|
                0 <= j < res.matches[0].ranges.len() ==> #[trigger] res.matches[0].ranges[j] == (
                    char_index_at(line, spans[j].0 as int) as usize,
                    char_index_at(line, spans[j].1 as int) as usize,
                )
        }),
{
    let n = nfc_of(name);
    law_char_ranges_pointwise(n, regex_find_spans(source, ignore_case, n), 0);
}

} // verus!
