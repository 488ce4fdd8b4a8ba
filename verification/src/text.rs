//! Text as the protocol uses it: characters out of bytes, ASCII case, and the
//! quoted form that error messages show.

use vstd::prelude::*;
use vstd::utf8::{decode_utf8, encode_utf8, valid_utf8};

verus! {

/// The text that stands for bytes that are not UTF-8: every invalid sequence
/// replaced by U+FFFD.
pub uninterp spec fn replaced_utf8(bytes: Seq<u8>) -> Seq<char>;

/// Bytes read as text, lossily: what UTF-8 says where the bytes are UTF-8, and
/// the text with replacement characters where they are not.
pub open spec fn lossy(bytes: Seq<u8>) -> Seq<char> {
    if valid_utf8(bytes) {
        decode_utf8(bytes)
    } else {
        replaced_utf8(bytes)
    }
}

/// Calls `String::from_utf8_lossy`. Bytes that are UTF-8 come back as the text
/// they encode; what comes back for other bytes is a function of the bytes.
/// What replaces an invalid sequence is U+FFFD, so that no line feed comes back
/// where there was none.
#[verifier::external_body]
pub(crate) fn lossy_text(bytes: &[u8]) -> (text: String)
    ensures
        text@ == (if valid_utf8(bytes@) {
            decode_utf8(bytes@)
        } else {
            replaced_utf8(bytes@)
        }),
        !bytes@.contains(10u8) ==> !text@.contains('\n'),
{
    String::from_utf8_lossy(bytes).into_owned()
}

/// The form in which `{:?}` shows a text: in double quotes, with what does not
/// print escaped.
pub uninterp spec fn quoted(text: Seq<char>) -> Seq<char>;

/// Formats a `str` with `{:?}`. The result is a function of the text, and a
/// line feed in the text is escaped: the result holds none.
#[verifier::external_body]
pub(crate) fn quoted_text(text: &str) -> (shown: String)
    ensures
        shown@ == quoted(text@),
        !shown@.contains('\n'),
{
    format!("{text:?}")
}

/// The form in which `{:?}` shows a character: in single quotes, escaped where
/// it does not print.
pub uninterp spec fn quoted_char(c: char) -> Seq<char>;

/// Formats a `char` with `{:?}`. The result is a function of the character.
#[verifier::external_body]
pub(crate) fn quoted_letter(c: char) -> (shown: String)
    ensures
        shown@ == quoted_char(c),
{
    format!("{c:?}")
}

/// `String::push` appends one character to the end of the text.
pub assume_specification[ String::push ](text: &mut String, c: char)
    ensures
        final(text)@ == old(text)@.push(c),
;

/// The ASCII upper-case equivalent of a character; any other stays as it is.
pub open spec fn upper_char(c: char) -> char {
    if 'a' <= c <= 'z' {
        ((c as u32) - 32) as char
    } else {
        c
    }
}

/// A text with its ASCII letters in upper case.
pub open spec fn upper(text: Seq<char>) -> Seq<char> {
    text.map_values(|c: char| upper_char(c))
}

/// Whether two texts are the same but for the case of ASCII letters.
pub open spec fn same_but_case(a: Seq<char>, b: Seq<char>) -> bool {
    upper(a) == upper(b)
}

/// Texts with the same UTF-8 bytes are the same text.
pub proof fn lemma_encode_injective(a: Seq<char>, b: Seq<char>)
    requires
        encode_utf8(a) == encode_utf8(b),
    ensures
        a == b,
{
    vstd::utf8::encode_utf8_decode_utf8(a);
    vstd::utf8::encode_utf8_decode_utf8(b);
}

/// Text that becomes bytes and is read back lossily is unchanged.
pub proof fn lemma_lossy_of_text(text: Seq<char>)
    ensures
        lossy(encode_utf8(text)) == text,
{
    vstd::utf8::encode_utf8_valid_utf8(text);
    vstd::utf8::encode_utf8_decode_utf8(text);
}

/// The characters of `text`.
pub(crate) fn chars_of(text: &str) -> (chars: Vec<char>)
    ensures
        chars@ == text@,
{
    let mut chars: Vec<char> = Vec::new();
    for c in it: text.chars()
        invariant
            chars@ == it.seq().take(it.index() as int),
            it.seq() == text@,
    {
        chars.push(c);
    }
    chars
}

/// Whether two byte strings are equal.
pub(crate) fn same_bytes(a: &[u8], b: &[u8]) -> (same: bool)
    ensures
        same == (a@ == b@),
{
    if a.len() != b.len() {
        return false;
    }
    for i in 0..a.len()
        invariant
            a@.len() == b@.len(),
            forall|j: int| 0 <= j < i ==> a@[j] == b@[j],
    {
        if a[i] != b[i] {
            return false;
        }
    }
    assert(a@ =~= b@);
    true
}

/// Whether two texts are equal.
pub(crate) fn same_text(a: &str, b: &str) -> (same: bool)
    ensures
        same == (a@ == b@),
{
    let same = same_bytes(a.as_bytes(), b.as_bytes());
    proof {
        if same {
            lemma_encode_injective(a@, b@);
        }
    }
    same
}

/// The ASCII upper-case equivalent of `c`.
fn upper_letter(c: char) -> (u: char)
    ensures
        u == upper_char(c),
{
    if 'a' <= c && c <= 'z' {
        ((c as u8) - 32) as char
    } else {
        c
    }
}

/// `text` with its ASCII letters in upper case.
pub(crate) fn upper_text(text: &str) -> (shouted: String)
    ensures
        shouted@ == upper(text@),
{
    let mut shouted = String::new();
    for c in it: text.chars()
        invariant
            shouted@ == upper(it.seq().take(it.index() as int)),
            it.seq() == text@,
    {
        shouted.push(upper_letter(c));
        assert(shouted@ =~= upper(it.seq().take(it.index() + 1)));
    }
    shouted
}

/// Whether two texts are equal but for the case of ASCII letters.
pub(crate) fn same_text_but_case(a: &str, b: &str) -> (same: bool)
    ensures
        same == same_but_case(a@, b@),
{
    let a = upper_text(a);
    let b = upper_text(b);
    a == b
}

} // verus!
