//! Character classes and elementary string operations shared by the
//! tokenizer, the sentence splitter and the dictionary.

use vstd::prelude::*;

verus! {

/// ASCII letter, the only characters that form word tokens.
pub open spec fn is_letter(c: char) -> bool {
    ('a' <= c && c <= 'z') || ('A' <= c && c <= 'Z')
}

/// A single apostrophe or hyphen may join two letter runs inside one token.
pub open spec fn is_joiner(c: char) -> bool {
    c == '\'' || c == '-'
}

/// Whitespace (the Unicode White_Space characters), used for sentence
/// trimming and for splitting surface forms into words.
pub open spec fn is_space(c: char) -> bool {
    ||| c == '\t'
    ||| c == '\n'
    ||| c == '\u{0b}'
    ||| c == '\u{0c}'
    ||| c == '\r'
    ||| c == ' '
    ||| c == '\u{85}'
    ||| c == '\u{a0}'
    ||| c == '\u{1680}'
    ||| ('\u{2000}' <= c && c <= '\u{200a}')
    ||| c == '\u{2028}'
    ||| c == '\u{2029}'
    ||| c == '\u{202f}'
    ||| c == '\u{205f}'
    ||| c == '\u{3000}'
}

/// Sentence boundary characters.
pub open spec fn is_terminator(c: char) -> bool {
    c == '.' || c == '!' || c == '?'
}

/// Lowercase an ASCII letter; any other character is unchanged.
pub open spec fn lc_char(c: char) -> char {
    if 'A' <= c && c <= 'Z' {
        (c as u8 + 32) as char
    } else {
        c
    }
}

/// Lowercase every character of a string.
pub open spec fn lc_seq(s: Seq<char>) -> Seq<char> {
    s.map_values(|c: char| lc_char(c))
}

pub fn exec_is_letter(c: char) -> (r: bool)
    ensures
        r == is_letter(c),
{
    ('a' <= c && c <= 'z') || ('A' <= c && c <= 'Z')
}

pub fn exec_is_space(c: char) -> (r: bool)
    ensures
        r == is_space(c),
{
    c == '\t' || c == '\n' || c == '\u{0b}' || c == '\u{0c}' || c == '\r' || c == ' ' || c
        == '\u{85}' || c == '\u{a0}' || c == '\u{1680}' || ('\u{2000}' <= c && c <= '\u{200a}') || c
        == '\u{2028}' || c == '\u{2029}' || c == '\u{202f}' || c == '\u{205f}' || c == '\u{3000}'
}

pub fn exec_is_terminator(c: char) -> (r: bool)
    ensures
        r == is_terminator(c),
{
    c == '.' || c == '!' || c == '?'
}

pub fn exec_lc_char(c: char) -> (r: char)
    ensures
        r == lc_char(c),
{
    if 'A' <= c && c <= 'Z' {
        (c as u8 + 32) as char
    } else {
        c
    }
}

/// Relies on `String::push`: appends one character at the end.
#[verifier::external_body]
pub fn string_push(s: &mut String, c: char)
    ensures
        final(s)@ == old(s)@.push(c),
{
    s.push(c)
}

/// Character-wise string equality.
pub fn str_eq(a: &str, b: &str) -> (r: bool)
    ensures
        r == (a@ == b@),
{
    let alen = a.unicode_len();
    let blen = b.unicode_len();
    if alen != blen {
        return false;
    }
    for i in 0..alen
        invariant
            alen == a@.len(),
            blen == b@.len(),
            alen == blen,
            forall|j: int| 0 <= j < i ==> a@[j] == b@[j],
    {
        if a.get_char(i) != b.get_char(i) {
            return false;
        }
    }
    proof {
        assert(a@ =~= b@);
    }
    true
}

/// Lowercase a string.
pub fn lc_str(s: &str) -> (r: String)
    ensures
        r@ == lc_seq(s@),
{
    let len = s.unicode_len();
    let mut out = String::new();
    for i in 0..len
        invariant
            len == s@.len(),
            out@ =~= lc_seq(s@.take(i as int)),
    {
        let c = exec_lc_char(s.get_char(i));
        string_push(&mut out, c);
        proof {
            assert(s@.take(i + 1).map_values(|c: char| lc_char(c)) =~= s@.take(i as int)
                .map_values(|c: char| lc_char(c)).push(lc_char(s@[i as int])));
        }
    }
    proof {
        assert(s@.take(len as int) =~= s@);
    }
    out
}

} // verus!
