//! Turning file contents into text: binary detection and the choice of
//! text encoding (UTF-16 by byte-order mark, UTF-8, else Big5 or GBK).
use vstd::prelude::*;
use vstd::slice::slice_subrange;
use vstd::string::StringSliceAdditionalSpecFns;
use vstd::utf8::{length_of_first_scalar, pop_first_scalar, valid_first_scalar, valid_leading_and_continuation_bytes_first_codepoint, decode_utf8, decode_utf8_encode_utf8, encode_utf8, encode_utf8_decode_utf8, valid_utf8};

use crate::text::{lemma_len_le_byte_len, push_char, str_byte_len};

verus! {

/// Number of leading bytes looked at to tell binary files from text.
pub const BINARY_CHECK_LEN: usize = 1024;

/// Number of leading bytes looked at to choose between Big5 and GBK.
pub const PROBE_LEN: usize = 4096;

/// Whether `s` starts with a UTF-16 byte-order mark (`FF FE` or `FE FF`).
pub open spec fn has_utf16_bom(s: Seq<u8>) -> bool {
    s.len() >= 2 && ((s[0] == 0xFF && s[1] == 0xFE) || (s[0] == 0xFE && s[1] == 0xFF))
}

/// A file is binary when the first `check_len` bytes of `data` hold a zero
/// byte and do not start with a UTF-16 byte-order mark.
pub open spec fn is_binary_spec(data: Seq<u8>, check_len: int) -> bool {
    let sample = data.take(if data.len() < check_len { data.len() as int } else { check_len });
    !has_utf16_bom(sample) && sample.contains(0u8)
}

/// Detects binary files. UTF-16 text starts with a byte-order mark and holds
/// many zero bytes, so it is exempt from the zero-byte check.
pub fn is_binary(data: &[u8], check_len: usize) -> (r: bool)
    ensures
        r == is_binary_spec(data@, check_len as int),
{
    let n = if data.len() < check_len { data.len() } else { check_len };
    let sample = slice_subrange(data, 0, n);
    assert(sample@ == data@.take(n as int));
    if sample.len() >= 2 && ((sample[0] == 0xFF && sample[1] == 0xFE) || (sample[0] == 0xFE
        && sample[1] == 0xFF)) {
        return false;
    }
    assert(!has_utf16_bom(sample@));
    let mut i: usize = 0;
    while i < n
        invariant
            i <= n == sample@.len(),
            sample@ == data@.take(n as int),
            n == (if data@.len() < check_len { data@.len() as int } else { check_len as int }),
            !has_utf16_bom(sample@),
            forall|j: int| 0 <= j < i ==> sample@[j] != 0u8,
        decreases n - i,
    {
        if sample[i] == 0 {
            assert(sample@[i as int] == 0u8);
            assert(sample@.contains(0u8));
            return true;
        }
        i += 1;
    }
    false
}

/// The encodings that file contents are decoded from.
#[derive(Clone, Copy, PartialEq, Eq, Debug)]
pub enum TextEncoding {
    Utf16Le,
    Utf16Be,
    Big5,
    Gbk,
}

/// What `encoding_rs` gives for `Encoding::decode` of `bytes` with the
/// given encoding: the text, and whether malformed sequences were replaced.
pub uninterp spec fn decoded_with(encoding: TextEncoding, bytes: Seq<u8>) -> (Seq<char>, bool);

/// What `String::from_utf8_lossy` gives for `bytes`.
pub uninterp spec fn utf8_lossy_text(bytes: Seq<u8>) -> Seq<char>;

/// `encoding_rs::Encoding::decode` with the encoding named by `encoding`
/// (with its byte-order-mark sniffing). The contract claims that the text
/// and the error flag are the ones `encoding_rs` computes from the bytes.
/// The length bound keeps the crate's buffer-size computation from
/// overflowing, which would panic.
#[verifier::external_body]
fn decode_with(encoding: TextEncoding, bytes: &[u8]) -> (r: (String, bool))
    requires
        bytes@.len() <= usize::MAX / 4,
    ensures
        (r.0@, r.1) == decoded_with(encoding, bytes@),
{
    let enc = match encoding {
        TextEncoding::Utf16Le => encoding_rs::UTF_16LE,
        TextEncoding::Utf16Be => encoding_rs::UTF_16BE,
        TextEncoding::Big5 => encoding_rs::BIG5,
        TextEncoding::Gbk => encoding_rs::GBK,
    };
    let (cow, _, had_errors) = enc.decode(bytes);
    (cow.into_owned(), had_errors)
}

/// `std::str::from_utf8`: the bytes as text when they are valid UTF-8.
#[verifier::external_body]
fn utf8_text(bytes: &[u8]) -> (r: Option<&str>)
    ensures
        r is Some <==> valid_utf8(bytes@),
        r matches Some(s) ==> s.spec_bytes() == bytes@,
{
    std::str::from_utf8(bytes).ok()
}

/// `String::from_utf8_lossy`: the bytes as text, with each invalid sequence
/// replaced by U+FFFD. The contract names its result.
#[verifier::external_body]
fn utf8_lossy(bytes: &[u8]) -> (r: String)
    ensures
        r@ == utf8_lossy_text(bytes@),
{
    String::from_utf8_lossy(bytes).into_owned()
}

/// Number of U+FFFD replacement characters in `s`.
pub open spec fn replacement_count(s: Seq<char>) -> nat
    decreases s.len(),
{
    if s.len() == 0 {
        0
    } else {
        replacement_count(s.drop_last()) + if s.last() == '\u{FFFD}' {
            1nat
        } else {
            0nat
        }
    }
}

/// Whether Big5 is chosen over GBK for text whose first bytes are `probe`.
/// An encoding that decodes the probe cleanly wins over one that does not;
/// otherwise the one with fewer replacement characters wins, and a tie goes
/// to GBK.
pub open spec fn prefers_big5(probe: Seq<u8>) -> bool {
    let (b5, b5_err) = decoded_with(TextEncoding::Big5, probe);
    let (gk, gk_err) = decoded_with(TextEncoding::Gbk, probe);
    if !b5_err && gk_err {
        true
    } else if b5_err && !gk_err {
        false
    } else {
        replacement_count(b5) < replacement_count(gk)
    }
}

/// The text of file contents `bytes`: UTF-16 where a byte-order mark says
/// so, UTF-8 where a UTF-8 byte-order mark stands or the bytes are valid
/// UTF-8, else Big5 or GBK as the first 4 KB suggest.
pub open spec fn decoded_text(bytes: Seq<u8>) -> Seq<char> {
    if bytes.len() >= 2 && bytes[0] == 0xFF && bytes[1] == 0xFE {
        decoded_with(TextEncoding::Utf16Le, bytes).0
    } else if bytes.len() >= 2 && bytes[0] == 0xFE && bytes[1] == 0xFF {
        decoded_with(TextEncoding::Utf16Be, bytes).0
    } else if bytes.len() >= 3 && bytes[0] == 0xEF && bytes[1] == 0xBB && bytes[2] == 0xBF {
        let rest = bytes.skip(3);
        if valid_utf8(rest) {
            decode_utf8(rest)
        } else {
            utf8_lossy_text(rest)
        }
    } else if valid_utf8(bytes) {
        decode_utf8(bytes)
    } else {
        let probe = bytes.take(if bytes.len() < PROBE_LEN { bytes.len() as int } else { PROBE_LEN as int });
        if prefers_big5(probe) {
            decoded_with(TextEncoding::Big5, bytes).0
        } else {
            decoded_with(TextEncoding::Gbk, bytes).0
        }
    }
}

/// Number of U+FFFD replacement characters in `s`.
fn count_replacements(s: &str) -> (r: usize)
    ensures
        r == replacement_count(s@),
{
    let total = str_byte_len(s);
    proof {
        lemma_len_le_byte_len(s@);
    }
    let mut n: usize = 0;
    for c in it: s.chars()
        invariant
            it.seq() == s@,
            s@.len() <= total,
            n == replacement_count(it.seq().take(it.index() as int)),
            n <= it.index(),
    {
        let ghost prefix = it.seq().take(it.index() as int);
        proof {
            assert(it.seq().take(it.index() + 1).drop_last() =~= prefix);
        }
        if c == '\u{FFFD}' {
            n += 1;
        }
    }
    proof {
        assert(s@.take(s@.len() as int) =~= s@);
    }
    n
}

/// Copies the text of `s` into a new string.
fn owned_text(s: &str) -> (r: String)
    ensures
        r@ == s@,
{
    let mut r = String::new();
    for c in it: s.chars()
        invariant
            it.seq() == s@,
            r@ == it.seq().take(it.index() as int),
    {
        proof {
            assert(it.seq().take(it.index() + 1) =~= r@.push(c));
        }
        push_char(&mut r, c);
    }
    proof {
        assert(s@.take(s@.len() as int) =~= s@);
    }
    r
}

/// Decodes file contents into text. Only the first 4 KB are probed to choose
/// between Big5 and GBK; the whole input is then decoded once.
pub fn decode(bytes: &[u8]) -> (r: String)
    requires
        bytes@.len() <= usize::MAX / 4,
    ensures
        r@ == decoded_text(bytes@),
{
    let n = bytes.len();
    if n >= 2 && bytes[0] == 0xFF && bytes[1] == 0xFE {
        let (text, _) = decode_with(TextEncoding::Utf16Le, bytes);
        return text;
    }
    if n >= 2 && bytes[0] == 0xFE && bytes[1] == 0xFF {
        let (text, _) = decode_with(TextEncoding::Utf16Be, bytes);
        return text;
    }
    if n >= 3 && bytes[0] == 0xEF && bytes[1] == 0xBB && bytes[2] == 0xBF {
        let rest = slice_subrange(bytes, 3, n);
        assert(rest@ == bytes@.skip(3));
        return match utf8_text(rest) {
            Some(s) => {
                proof {
                    encode_utf8_decode_utf8(s@);
                }
                owned_text(s)
            },
            None => utf8_lossy(rest),
        };
    }
    if let Some(s) = utf8_text(bytes) {
        proof {
            encode_utf8_decode_utf8(s@);
        }
        return owned_text(s);
    }
    let plen = if n < PROBE_LEN { n } else { PROBE_LEN };
    let probe = slice_subrange(bytes, 0, plen);
    assert(probe@ == bytes@.take(plen as int));
    let (b5, big5_err) = decode_with(TextEncoding::Big5, probe);
    let (gk, gbk_err) = decode_with(TextEncoding::Gbk, probe);
    let use_big5 = if !big5_err && gbk_err {
        true
    } else if big5_err && !gbk_err {
        false
    } else {
        let b5_bad = count_replacements(b5.as_str());
        let gk_bad = count_replacements(gk.as_str());
        b5_bad < gk_bad
    };
    let (text, _) = if use_big5 {
        decode_with(TextEncoding::Big5, bytes)
    } else {
        decode_with(TextEncoding::Gbk, bytes)
    };
    text
}


/// UTF-16 text, marked by its byte-order mark, is never taken for binary.
pub proof fn law_utf16_is_text(data: Seq<u8>, check_len: int)
    requires
        check_len >= 2,
        has_utf16_bom(data),
    ensures
        !is_binary_spec(data, check_len),
{
    let sample = data.take(if data.len() < check_len { data.len() as int } else { check_len });
    assert(sample[0] == data[0] && sample[1] == data[1]);
}

/// Valid UTF-8 contents are decoded without loss: the text encodes back to
/// the bytes, after the UTF-8 byte-order mark where one stands.
pub proof fn law_utf8_lossless(bytes: Seq<u8>)
    requires
        valid_utf8(bytes),
    ensures
        bytes.len() >= 3 && bytes[0] == 0xEF && bytes[1] == 0xBB && bytes[2] == 0xBF
            ==> encode_utf8(decoded_text(bytes)) == bytes.skip(3),
        !(bytes.len() >= 3 && bytes[0] == 0xEF && bytes[1] == 0xBB && bytes[2] == 0xBF)
            ==> encode_utf8(decoded_text(bytes)) == bytes,
{
    if bytes.len() > 0 {
        assert(valid_leading_and_continuation_bytes_first_codepoint(bytes));
        assert(bytes[0] != 0xFF && bytes[0] != 0xFE);
    }
    if bytes.len() >= 3 && bytes[0] == 0xEF && bytes[1] == 0xBB && bytes[2] == 0xBF {
        let rest = bytes.skip(3);
        lemma_skip_bom_valid(bytes);
        decode_utf8_encode_utf8(rest);
    } else {
        decode_utf8_encode_utf8(bytes);
    }
}

proof fn lemma_skip_bom_valid(bytes: Seq<u8>)
    requires
        valid_utf8(bytes),
        bytes.len() >= 3,
        bytes[0] == 0xEF,
        bytes[1] == 0xBB,
        bytes[2] == 0xBF,
    ensures
        valid_utf8(bytes.skip(3)),
{
    assert(valid_first_scalar(bytes));
    assert(length_of_first_scalar(bytes) == 3);
    assert(pop_first_scalar(bytes) =~= bytes.skip(3));
}

} // verus!
