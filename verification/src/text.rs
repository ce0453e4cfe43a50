//! Text handling for scanned lines: decoding raw bytes, deciding which
//! characters count as padding, and stripping padding from both ends.

use vstd::prelude::*;
use vstd::string::*;
use vstd::utf8::*;

verus! {

/// Unicode `White_Space` code points.
pub open spec fn is_whitespace(c: char) -> bool {
    let u = c as u32;
    ||| 0x09 <= u <= 0x0D
    ||| u == 0x20
    ||| u == 0x85
    ||| u == 0xA0
    ||| u == 0x1680
    ||| 0x2000 <= u <= 0x200A
    ||| u == 0x2028
    ||| u == 0x2029
    ||| u == 0x202F
    ||| u == 0x205F
    ||| u == 0x3000
}

/// Unicode general category `Cc`: the C0 controls, DEL and the C1 controls.
pub open spec fn is_control(c: char) -> bool {
    let u = c as u32;
    u <= 0x1F || 0x7F <= u <= 0x9F
}

/// A character that is stripped from the ends of a scanned line.
pub open spec fn is_padding(c: char) -> bool {
    is_whitespace(c) || is_control(c)
}

/// Index of the first character of `text` that is not padding, or the
/// length of `text` if there is none.
pub open spec fn trim_start(text: Seq<char>) -> int
    decreases text.len(),
{
    if text.len() == 0 || !is_padding(text.first()) {
        0
    } else {
        1 + trim_start(text.drop_first())
    }
}

/// One past the index of the last character of `text` that is not padding,
/// or zero if there is none.
pub open spec fn trim_end(text: Seq<char>) -> int
    decreases text.len(),
{
    if text.len() == 0 || !is_padding(text.last()) {
        text.len() as int
    } else {
        trim_end(text.drop_last())
    }
}

/// `text` without its leading and trailing padding.
pub open spec fn trimmed(text: Seq<char>) -> Seq<char> {
    if trim_start(text) < trim_end(text) {
        text.subrange(trim_start(text), trim_end(text))
    } else {
        Seq::empty()
    }
}

/// Everything in `text[from..to]` is padding.
pub open spec fn all_padding(text: Seq<char>, from: int, to: int) -> bool {
    forall|i: int| from <= i < to ==> is_padding(#[trigger] text[i])
}

/// `text[start..end]` is `text` without its leading and trailing padding:
/// everything outside the range is padding, and a non-empty range begins
/// and ends with a character that is not.
pub open spec fn is_trim_range(text: Seq<char>, start: int, end: int) -> bool {
    &&& 0 <= start <= end <= text.len()
    &&& all_padding(text, 0, start)
    &&& all_padding(text, end, text.len() as int)
    &&& start < end ==> !is_padding(text[start]) && !is_padding(text[end - 1])
}

/// Everything before `trim_start` is padding, and the character at
/// `trim_start`, if there is one, is not.
pub proof fn lemma_trim_start(text: Seq<char>)
    ensures
        0 <= trim_start(text) <= text.len(),
        forall|i: int| 0 <= i < trim_start(text) ==> is_padding(#[trigger] text[i]),
        trim_start(text) < text.len() ==> !is_padding(text[trim_start(text)]),
    decreases text.len(),
{
    if text.len() == 0 || !is_padding(text.first()) {
    } else {
        let rest = text.drop_first();
        lemma_trim_start(rest);
        assert forall|i: int| 0 <= i < trim_start(text) implies is_padding(#[trigger] text[i]) by {
            if i > 0 {
                assert(text[i] == rest[i - 1]);
            }
        }
        if trim_start(text) < text.len() {
            assert(text[trim_start(text)] == rest[trim_start(rest)]);
        }
    }
}

/// Everything from `trim_end` on is padding, and the character just before
/// `trim_end`, if there is one, is not.
pub proof fn lemma_trim_end(text: Seq<char>)
    ensures
        0 <= trim_end(text) <= text.len(),
        forall|i: int| trim_end(text) <= i < text.len() ==> is_padding(#[trigger] text[i]),
        0 < trim_end(text) ==> !is_padding(text[trim_end(text) - 1]),
    decreases text.len(),
{
    if text.len() == 0 || !is_padding(text.last()) {
    } else {
        let rest = text.drop_last();
        lemma_trim_end(rest);
        assert forall|i: int| trim_end(text) <= i < text.len() implies is_padding(
            #[trigger] text[i],
        ) by {
            if i < rest.len() {
                assert(text[i] == rest[i]);
            }
        }
        if 0 < trim_end(text) {
            assert(text[trim_end(text) - 1] == rest[trim_end(rest) - 1]);
        }
    }
}

/// Trimming is determined by what it removes: whenever everything outside
/// `start..end` is padding and a non-empty range begins and ends with a
/// character that is not, `text[start..end]` is `trimmed(text)`.
pub proof fn lemma_trim_range_unique(text: Seq<char>, start: int, end: int)
    requires
        is_trim_range(text, start, end),
    ensures
        text.subrange(start, end) == trimmed(text),
{
    lemma_trim_start(text);
    lemma_trim_end(text);
    if start < end {
        assert(trim_start(text) == start);
        assert(trim_end(text) == end);
    } else {
        if trim_start(text) < text.len() {
            assert(is_padding(text[trim_start(text)]));
        }
        assert(trim_start(text) == text.len());
        if 0 < trim_end(text) {
            assert(is_padding(text[trim_end(text) - 1]));
        }
        assert(text.subrange(start, end) =~= Seq::empty());
    }
}

/// `trimmed(text)` is a range of `text` outside of which everything is
/// padding; it is empty, or begins and ends with a character that is not
/// padding.
pub proof fn lemma_trimmed_is_trim_range(text: Seq<char>)
    ensures
        trim_start(text) < trim_end(text) ==> is_trim_range(
            text,
            trim_start(text),
            trim_end(text),
        ),
        trim_start(text) >= trim_end(text) ==> is_trim_range(text, 0, 0),
        trimmed(text).len() > 0 ==> !is_padding(trimmed(text).first()) && !is_padding(
            trimmed(text).last(),
        ),
{
    lemma_trim_start(text);
    lemma_trim_end(text);
    if trim_start(text) >= trim_end(text) {
        if trim_start(text) < text.len() {
            assert(is_padding(text[trim_start(text)]));
        }
    }
}

/// Trimming what is already trimmed changes nothing.
pub proof fn lemma_trimmed_idempotent(text: Seq<char>)
    ensures
        trimmed(trimmed(text)) == trimmed(text),
{
    lemma_trimmed_is_trim_range(text);
    let t = trimmed(text);
    assert(is_trim_range(t, 0, t.len() as int));
    lemma_trim_range_unique(t, 0, t.len() as int);
    assert(t.subrange(0, t.len() as int) =~= t);
}

/// Decides whether `c` is stripped from the ends of a scanned line.
pub fn is_padding_char(c: char) -> (b: bool)
    ensures
        b == is_padding(c),
{
    let u: u32 = c as u32;
    u <= 0x20 || (0x7F <= u && u <= 0xA0) || u == 0x1680 || (0x2000 <= u && u <= 0x200A)
        || u == 0x2028 || u == 0x2029 || u == 0x202F || u == 0x205F || u == 0x3000
}

/// Finds the range of `text`, in characters, that trimming keeps.
pub fn trim_bounds(text: &str) -> (range: (usize, usize))
    ensures
        is_trim_range(text@, range.0 as int, range.1 as int),
        text@.subrange(range.0 as int, range.1 as int) == trimmed(text@),
{
    broadcast use group_string_axioms;

    let n: usize = text.unicode_len();
    // `first` is the index of the first character that is not padding, and
    // `n` until one is seen; `end` is one past the last such character.
    let mut first: usize = n;
    let mut end: usize = 0;
    let mut idx: usize = 0;
    for c in it: text.chars()
        invariant
            it.seq() == text@,
            n == text@.len(),
            idx == it.index(),
            first == n || first < idx,
            first == n ==> end == 0 && all_padding(text@, 0, idx as int),
            first < n ==> {
                &&& first < end <= idx
                &&& !is_padding(text@[first as int])
                &&& !is_padding(text@[end - 1])
                &&& all_padding(text@, 0, first as int)
                &&& all_padding(text@, end as int, idx as int)
            },
    {
        if !is_padding_char(c) {
            if first == n {
                first = idx;
            }
            end = idx + 1;
        }
        idx = idx + 1;
    }
    let range = if first == n {
        (0, 0)
    } else {
        (first, end)
    };
    proof {
        lemma_trim_range_unique(text@, range.0 as int, range.1 as int);
    }
    range
}

/// Copies `text` without its leading and trailing padding.
pub fn trim_padding(text: &str) -> (out: String)
    ensures
        out@ == trimmed(text@),
{
    let (start, end) = trim_bounds(text);
    text.substring_char(start, end).to_owned()
}

/// The text of a scanned line once its padding is gone, or `None` for a
/// line that holds nothing but padding.
pub open spec fn cleaned(text: Seq<char>) -> Option<Seq<char>> {
    if trimmed(text).len() == 0 {
        None
    } else {
        Some(trimmed(text))
    }
}

/// Trims a decoded line and drops it if nothing is left.
pub fn clean_line(text: &str) -> (out: Option<String>)
    ensures
        out matches Some(s) ==> cleaned(text@) == Some(s@),
        out is None ==> cleaned(text@) is None,
{
    let kept = trim_padding(text);
    if kept.as_str().is_empty() {
        None
    } else {
        Some(kept)
    }
}

/// What lossy UTF-8 decoding makes of `bytes`: their text, with U+FFFD in
/// place of each ill-formed sequence.
pub uninterp spec fn lossy_text(bytes: Seq<u8>) -> Seq<char>;

/// The text that `bytes` decode to. Well-formed UTF-8 decodes to exactly
/// the characters it encodes; anything else goes through lossy decoding.
pub open spec fn decoded_text(bytes: Seq<u8>) -> Seq<char> {
    if valid_utf8(bytes) {
        decode_utf8(bytes)
    } else {
        lossy_text(bytes)
    }
}

/// `String::from_utf8_lossy`, taken on trust: well-formed UTF-8 comes back
/// as the string it encodes, and any other input as its lossy decoding,
/// which depends on the bytes alone.
#[verifier::external_body]
fn decode_lossy(bytes: &[u8]) -> (text: String)
    ensures
        valid_utf8(bytes@) ==> text@ == decode_utf8(bytes@),
        !valid_utf8(bytes@) ==> text@ == lossy_text(bytes@),
{
    String::from_utf8_lossy(bytes).into_owned()
}

/// The characters of a sequence of ASCII bytes, one for each byte.
pub open spec fn ascii_chars(bytes: Seq<u8>) -> Seq<char> {
    Seq::new(bytes.len(), |i: int| bytes[i] as char)
}

/// ASCII decodes byte by byte: when every byte is below 0x80, the decoded
/// text has one character for each byte, with the same code.
pub proof fn lemma_ascii_decodes_bytewise(bytes: Seq<u8>)
    requires
        forall|i: int| 0 <= i < bytes.len() ==> bytes[i] < 0x80,
    ensures
        valid_utf8(bytes),
        decoded_text(bytes) == ascii_chars(bytes),
{
    let chars = ascii_chars(bytes);
    assert(is_ascii_chars(chars));
    is_ascii_chars_encode_utf8(chars);
    assert(encode_utf8(chars) =~= bytes);
    encode_utf8_valid_utf8(chars);
    encode_utf8_decode_utf8(chars);
}

/// The barcode carried by one raw line: its decoded text without padding,
/// or `None` if that leaves nothing.
pub open spec fn barcode_text(raw: Seq<u8>) -> Option<Seq<char>> {
    cleaned(decoded_text(raw))
}

/// Decodes one complete raw line. Decoding never fails: ill-formed bytes
/// are replaced, and a line that is blank after trimming gives `None`.
pub fn decode_line(raw: &[u8]) -> (out: Option<String>)
    ensures
        out matches Some(s) ==> barcode_text(raw@) == Some(s@),
        out is None ==> barcode_text(raw@) is None,
{
    let text = decode_lossy(raw);
    clean_line(text.as_str())
}

} // verus!
