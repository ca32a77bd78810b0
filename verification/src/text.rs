//! Text from raw bytes: the binary check, encodings, and truncation.

use vstd::prelude::*;
use vstd::utf8::{
    valid_utf8, decode_utf8, valid_first_scalar, length_of_first_scalar, is_continuation_byte,
    is_char_boundary, pop_first_scalar, valid_utf8_split, decode_utf8_split,
    partial_valid_partial_invalid_utf8, is_char_boundary_iff_not_is_continuation_byte,
    is_char_boundary_start_end_of_seq,
};

verus! {

/// How many leading bytes the binary check looks at.
pub const BINARY_PROBE: usize = 8192;

/// The bytes the binary check looks at: the first `BINARY_PROBE` of them.
pub open spec fn binary_prefix(bytes: Seq<u8>) -> Seq<u8> {
    if bytes.len() <= BINARY_PROBE {
        bytes
    } else {
        bytes.take(BINARY_PROBE as int)
    }
}

/// A rough "is this text at all?" test: a zero byte among the first
/// `BINARY_PROBE` bytes means binary.
pub fn looks_binary(bytes: &[u8]) -> (r: bool)
    ensures
        r == binary_prefix(bytes@).contains(0u8),
{
    let n: usize = if bytes.len() < BINARY_PROBE { bytes.len() } else { BINARY_PROBE };
    let mut i: usize = 0;
    while i < n
        invariant
            n <= bytes.len(),
            n == binary_prefix(bytes@).len(),
            i <= n,
            forall|j: int| 0 <= j < i ==> bytes@[j] != 0u8,
        decreases n - i,
    {
        if bytes[i] == 0 {
            assert(binary_prefix(bytes@)[i as int] == 0u8);
            return true;
        }
        i = i + 1;
    }
    assert forall|j: int| 0 <= j < binary_prefix(bytes@).len() implies binary_prefix(bytes@)[j]
        != 0u8 by {
        assert(binary_prefix(bytes@)[j] == bytes@[j]);
    }
    false
}

/// The remaining bytes `rest` are the start of a character cut off by the end
/// of the input: some continuation would make them one complete character.
pub open spec fn cut_character(rest: Seq<u8>) -> bool {
    exists|more: Seq<u8>|
        valid_first_scalar(rest + more) && length_of_first_scalar(rest + more) > rest.len()
}

/// What `std::str::from_utf8` reports for `bytes`: `Ok(())` when they are valid
/// UTF-8, otherwise `Err((valid_up_to, cut))` from the `Utf8Error`, where `cut`
/// is `error_len().is_none()`. As the documentation states it, `valid_up_to` is
/// the largest index such that the bytes before it are valid UTF-8, and
/// `error_len()` is `None` when the end of the input was reached in the middle
/// of a character (then 1 to 3 bytes remain).
#[verifier::external_body]
fn utf8_check(bytes: &[u8]) -> (r: Result<(), (usize, bool)>)
    ensures
        r is Ok <==> valid_utf8(bytes@),
        r matches Err((k, cut)) ==> {
            &&& k <= bytes@.len()
            &&& valid_utf8(bytes@.take(k as int))
            &&& forall|j: int| k < j <= bytes@.len() ==> !valid_utf8(#[trigger] bytes@.take(j))
            &&& cut == cut_character(bytes@.skip(k as int))
            &&& cut ==> 1 <= bytes@.len() - k <= 3
        },
{
    match std::str::from_utf8(bytes) {
        Ok(_) => Ok(()),
        Err(e) => Err((e.valid_up_to(), e.error_len().is_none())),
    }
}

/// `String::from_utf8`: the string of the characters the bytes encode, when
/// they are valid UTF-8.
#[verifier::external_body]
fn string_from_utf8(bytes: Vec<u8>) -> (r: Option<String>)
    ensures
        r is Some <==> valid_utf8(bytes@),
        r matches Some(s) ==> s@ == decode_utf8(bytes@),
{
    String::from_utf8(bytes).ok()
}

/// What `encoding_rs::WINDOWS_1251.decode` makes of the bytes.
pub uninterp spec fn windows_1251_text(bytes: Seq<u8>) -> Seq<char>;

/// Decodes bytes as windows-1251 with `encoding_rs` (`Encoding::decode`, which
/// also honours a leading UTF-8 or UTF-16 byte order mark, and replaces
/// malformed sequences).
#[verifier::external_body]
fn decode_windows_1251(bytes: &[u8]) -> (r: String)
    ensures
        r@ == windows_1251_text(bytes@),
{
    encoding_rs::WINDOWS_1251.decode(bytes).0.into_owned()
}

/// The bytes kept of a read: at most `max_bytes`.
pub open spec fn kept_bytes(bytes: Seq<u8>, max_bytes: usize) -> Seq<u8> {
    if bytes.len() > max_bytes {
        bytes.take(max_bytes as int)
    } else {
        bytes
    }
}

/// `k` is the length of the longest prefix of `b` that is valid UTF-8.
pub open spec fn is_longest_valid_prefix(b: Seq<u8>, k: int) -> bool {
    &&& 0 <= k <= b.len()
    &&& valid_utf8(b.take(k))
    &&& forall|j: int| k < j <= b.len() ==> !valid_utf8(#[trigger] b.take(j))
}

/// The length of the longest prefix of `b` that is valid UTF-8.
pub open spec fn longest_valid_prefix(b: Seq<u8>) -> int {
    choose|k: int| is_longest_valid_prefix(b, k)
}

/// The text made of the bytes of a file: UTF-8 first; when the limit cut the
/// bytes and so cut a character in half, that character is dropped; bytes that
/// are not UTF-8 otherwise (an unfinished character at the end of a file that
/// was not cut included) are windows-1251.
pub open spec fn decoded_text(bytes: Seq<u8>, max_bytes: usize) -> Seq<char> {
    let b = kept_bytes(bytes, max_bytes);
    if valid_utf8(b) {
        decode_utf8(b)
    } else if bytes.len() > max_bytes && cut_character(b.skip(longest_valid_prefix(b))) {
        decode_utf8(b.take(longest_valid_prefix(b)))
    } else {
        windows_1251_text(b)
    }
}

proof fn lemma_longest_unique(b: Seq<u8>, k: int)
    requires
        is_longest_valid_prefix(b, k),
    ensures
        longest_valid_prefix(b) == k,
{
    let c = longest_valid_prefix(b);
    assert(is_longest_valid_prefix(b, c));
    if c < k {
        assert(!valid_utf8(b.take(k)));
    }
    if k < c {
        assert(!valid_utf8(b.take(c)));
    }
}

/// Turns the bytes read from a file (at most `max_bytes` of them are kept) into
/// text, and says whether anything was cut off.
///
/// Encoding: UTF-8 first. If the limit cut a character in half, the broken tail
/// is dropped. Bytes that are not UTF-8 otherwise are windows-1251: exports
/// from 1C and old government CSV files come that way.
pub fn decode_text(bytes: Vec<u8>, max_bytes: usize) -> (r: (String, bool))
    ensures
        r.1 == (bytes@.len() > max_bytes),
        r.0@ == decoded_text(bytes@, max_bytes),
{
    let mut buf = bytes;
    let truncated = buf.len() > max_bytes;
    if truncated {
        buf.truncate(max_bytes);
    }
    let ghost b = buf@;
    assert(b =~= kept_bytes(bytes@, max_bytes));
    match utf8_check(buf.as_slice()) {
        Ok(()) => {
            let s = string_from_utf8(buf);
            match s {
                Some(s) => (s, truncated),
                None => (String::new(), truncated),
            }
        },
        Err((k, cut)) => {
            proof {
                lemma_longest_unique(b, k as int);
            }
            if truncated && cut {
                buf.truncate(k);
                assert(buf@ =~= b.take(k as int));
                match string_from_utf8(buf) {
                    Some(s) => (s, truncated),
                    None => (String::new(), truncated),
                }
            } else {
                (decode_windows_1251(buf.as_slice()), truncated)
            }
        },
    }
}

/// The last character boundary at or before `j` in valid UTF-8 `bytes`: the
/// nearest position at or below `j` that does not hold a continuation byte.
pub open spec fn last_boundary(bytes: Seq<u8>, j: int) -> int
    decreases j,
{
    if j <= 0 || !is_continuation_byte(bytes[j]) {
        j
    } else {
        last_boundary(bytes, j - 1)
    }
}

/// Where the kept bytes of valid UTF-8 end up being cut: the whole input when it
/// fits the limit, else the last character boundary within the limit.
pub open spec fn cut_point(bytes: Seq<u8>, max_bytes: usize) -> int {
    if bytes.len() <= max_bytes {
        bytes.len() as int
    } else {
        last_boundary(bytes, max_bytes as int)
    }
}

proof fn lemma_last_boundary(bytes: Seq<u8>, j: int)
    requires
        0 <= j < bytes.len(),
    ensures
        0 <= last_boundary(bytes, j) <= j,
        last_boundary(bytes, j) == 0 || !is_continuation_byte(bytes[last_boundary(bytes, j)]),
        forall|i: int| last_boundary(bytes, j) < i <= j ==> is_continuation_byte(#[trigger] bytes[i]),
    decreases j,
{
    if j > 0 && is_continuation_byte(bytes[j]) {
        lemma_last_boundary(bytes, j - 1);
    }
}

/// In valid UTF-8, no prefix that ends just before a continuation byte is valid.
proof fn lemma_prefix_before_continuation(bytes: Seq<u8>, i: int)
    requires
        valid_utf8(bytes),
        0 < i < bytes.len(),
        is_continuation_byte(bytes[i]),
    ensures
        !valid_utf8(bytes.take(i)),
{
    let rest = bytes.subrange(i, bytes.len() as int);
    assert(rest[0] == bytes[i]);
    assert(!valid_first_scalar(rest));
    assert(!valid_utf8(rest));
    if valid_utf8(bytes.take(i)) {
        partial_valid_partial_invalid_utf8(bytes, i);
    }
}

/// A boundary found by `last_boundary` splits valid UTF-8 into two valid parts.
proof fn lemma_boundary_splits(bytes: Seq<u8>, c: int)
    requires
        valid_utf8(bytes),
        0 <= c <= bytes.len(),
        c == 0 || c == bytes.len() || !is_continuation_byte(bytes[c]),
    ensures
        is_char_boundary(bytes, c),
        valid_utf8(bytes.take(c)),
        valid_utf8(bytes.skip(c)),
        decode_utf8(bytes) == decode_utf8(bytes.take(c)) + decode_utf8(bytes.skip(c)),
{
    is_char_boundary_start_end_of_seq(bytes);
    if 0 < c < bytes.len() {
        is_char_boundary_iff_not_is_continuation_byte(bytes, c);
    }
    valid_utf8_split(bytes, c);
    decode_utf8_split(bytes, c);
}

/// Cutting UTF-8 text at the byte limit never turns it into windows-1251: the
/// text read is the UTF-8 text of the bytes up to the last whole character that
/// fits the limit, so it is the start of the full text, and at most three bytes
/// of a character cut in half are dropped.
pub proof fn law_cut_utf8_stays_utf8(bytes: Seq<u8>, max_bytes: usize)
    requires
        valid_utf8(bytes),
    ensures
        valid_utf8(bytes.take(cut_point(bytes, max_bytes))),
        decoded_text(bytes, max_bytes) == decode_utf8(bytes.take(cut_point(bytes, max_bytes))),
        decode_utf8(bytes) == decoded_text(bytes, max_bytes) + decode_utf8(
            bytes.skip(cut_point(bytes, max_bytes)),
        ),
        bytes.len() <= max_bytes ==> cut_point(bytes, max_bytes) == bytes.len(),
        bytes.len() > max_bytes ==> max_bytes - 3 <= cut_point(bytes, max_bytes) <= max_bytes,
{
    let n = bytes.len() as int;
    let m = max_bytes as int;
    if n <= m {
        assert(kept_bytes(bytes, max_bytes) == bytes);
        assert(bytes.take(n) =~= bytes);
        assert(bytes.skip(n) =~= Seq::<u8>::empty());
        lemma_boundary_splits(bytes, n);
        assert(decode_utf8(bytes.skip(n)) =~= Seq::<char>::empty());
        assert(decode_utf8(bytes.take(n)) + decode_utf8(bytes.skip(n)) =~= decode_utf8(bytes.take(n)));
    } else {
        let b = bytes.take(m);
        assert(kept_bytes(bytes, max_bytes) == b);
        lemma_last_boundary(bytes, m);
        let c = last_boundary(bytes, m);
        lemma_boundary_splits(bytes, c);
        let s = bytes.skip(c);
        assert(s.len() > 0);
        assert(valid_first_scalar(s));
        let l = length_of_first_scalar(s);
        // the character that starts at `c` runs past the limit
        if c + l <= m {
            let tail = pop_first_scalar(s);
            assert(valid_utf8(tail));
            assert(tail.len() > 0);
            assert(tail[0] == bytes[c + l]);
            assert(is_continuation_byte(bytes[c + l]));
            assert(!valid_first_scalar(tail));
            assert(false);
        }
        assert(l <= 4);
        if c == m {
            assert(b.take(m) =~= b);
            assert(valid_utf8(b));
        } else {
            lemma_prefix_before_continuation(bytes, m);
            assert(!valid_utf8(b));
            assert forall|j: int| c < j <= b.len() implies !valid_utf8(#[trigger] b.take(j)) by {
                assert(b.take(j) =~= bytes.take(j));
                lemma_prefix_before_continuation(bytes, j);
            }
            assert(b.take(c) =~= bytes.take(c));
            assert(is_longest_valid_prefix(b, c));
            lemma_longest_unique(b, c);
            let more = bytes.skip(m);
            assert(b.skip(c) + more =~= s);
            assert(cut_character(b.skip(c)));
        }
    }
}

/// The raw text of a file as the "show as is" mode presents it: a note is
/// added at the end when the text was cut at the limit.
pub fn source_view(text: String, truncated: bool) -> (r: String)
    ensures
        r@ == if truncated {
            text@ + "\n\n… файл обрезан на 2 МБ"@
        } else {
            text@
        },
{
    if truncated {
        let mut r = text;
        r.append("\n\n… файл обрезан на 2 МБ");
        r
    } else {
        text
    }
}

} // verus!
