//! Character classification and text normalization.
//!
//! Normalized text is text lower-cased (ASCII case folding) with all
//! non-alphanumeric characters removed; it is the input to entropy and
//! frequency accumulation.  Unicode character classes come from the
//! standard library behind two trusted wrappers; everything else here is
//! verified against the spec functions below.

use vstd::prelude::*;

verus! {

/// What `char::is_alphanumeric` returns on characters beyond ASCII:
/// a property of the character alone.
pub uninterp spec fn alnum_beyond_ascii(c: char) -> bool;

/// What `char::is_whitespace` returns on characters beyond ASCII:
/// a property of the character alone.
pub uninterp spec fn space_beyond_ascii(c: char) -> bool;

/// Alphanumeric test restricted to the ASCII range, written out.
pub open spec fn ascii_alnum(c: char) -> bool {
    ('a' <= c && c <= 'z') || ('A' <= c && c <= 'Z') || ('0' <= c && c <= '9')
}

/// Whitespace test restricted to the ASCII range, written out.
/// The ASCII characters with the Unicode `White_Space` property are
/// space, tab, line feed, vertical tab, form feed and carriage return.
pub open spec fn ascii_space(c: char) -> bool {
    c == ' ' || c == '\t' || c == '\n' || c == '\u{b}' || c == '\u{c}' || c == '\r'
}

/// Whether a character counts as alphanumeric: within ASCII exactly the
/// letters and decimal digits, beyond ASCII whatever the Unicode tables
/// say.
pub open spec fn is_alnum(c: char) -> bool {
    if (c as u32) < 128 {
        ascii_alnum(c)
    } else {
        alnum_beyond_ascii(c)
    }
}

/// Whether a character counts as whitespace: within ASCII the six
/// classic whitespace characters, beyond ASCII whatever the Unicode
/// tables say.
pub open spec fn is_space(c: char) -> bool {
    if (c as u32) < 128 {
        ascii_space(c)
    } else {
        space_beyond_ascii(c)
    }
}

/// Relies on `char::is_alphanumeric`: true exactly for characters in the
/// Unicode `Alphabetic` or `Number` categories.  Within ASCII those are
/// exactly the letters and the decimal digits.
#[verifier::external_body]
pub fn char_is_alnum(c: char) -> (r: bool)
    ensures
        r == is_alnum(c),
        (c as u32) >= 128 ==> r == alnum_beyond_ascii(c),
{
    c.is_alphanumeric()
}

/// Relies on `char::is_whitespace`: true exactly for characters with the
/// Unicode `White_Space` property.  Within ASCII those are space, tab,
/// line feed, vertical tab, form feed and carriage return.
#[verifier::external_body]
pub fn char_is_space(c: char) -> (r: bool)
    ensures
        r == is_space(c),
        (c as u32) >= 128 ==> r == space_beyond_ascii(c),
{
    c.is_whitespace()
}

/// Relies on `String::push`: appends one character at the end.
#[verifier::external_body]
pub fn push_char(s: &mut String, c: char)
    ensures
        final(s)@ == old(s)@.push(c),
{
    s.push(c);
}

/// Collects the characters of a string, in order.
pub fn str_to_chars(s: &str) -> (v: Vec<char>)
    ensures
        v@ == s@,
{
    broadcast use vstd::string::axiom_spec_iter;
    broadcast use vstd::string::next_postcondition;

    let mut it = s.chars();
    let mut v: Vec<char> = Vec::new();
    proof {
        assert(vstd::std_specs::iter::IteratorSpec::remaining(&it) == s@);
    }
    loop
        invariant
            vstd::std_specs::iter::IteratorSpec::obeys_prophetic_iter_laws(&it),
            v@ + vstd::std_specs::iter::IteratorSpec::remaining(&it) == s@,
            vstd::std_specs::iter::IteratorSpec::decrease(&it) is Some,
        decreases vstd::std_specs::iter::IteratorSpec::decrease(&it)->Some_0,
    {
        match it.next() {
            Some(c) => {
                v.push(c);
                proof {
                    assert(v@ + vstd::std_specs::iter::IteratorSpec::remaining(&it) =~= s@);
                }
            },
            None => {
                proof {
                    assert(v@ =~= s@);
                }
                return v;
            },
        }
    }
}

/// ASCII case folding of one character.
pub open spec fn lower_char(c: char) -> char {
    if 'A' <= c && c <= 'Z' {
        ((c as u32) + 32) as char
    } else {
        c
    }
}

/// Lower-cases one ASCII letter; leaves every other character unchanged.
pub fn to_lower_char(c: char) -> (r: char)
    ensures
        r == lower_char(c),
{
    let u = c as u32;
    if 65 <= u && u <= 90 {
        ((u + 32) as u8) as char
    } else {
        c
    }
}

/// The normalized form of a character sequence: alphanumeric characters
/// only, each ASCII-lower-cased.
pub open spec fn normalize_seq(s: Seq<char>) -> Seq<char>
    decreases s.len(),
{
    if s.len() == 0 {
        Seq::<char>::empty()
    } else {
        normalize_seq(s.drop_last())
            + if is_alnum(s.last()) {
                seq![lower_char(s.last())]
            } else {
                Seq::<char>::empty()
            }
    }
}

/// Normalization distributes over concatenation.
pub proof fn lemma_normalize_concat(a: Seq<char>, b: Seq<char>)
    ensures
        normalize_seq(a + b) == normalize_seq(a) + normalize_seq(b),
    decreases b.len(),
{
    if b.len() == 0 {
        assert(a + b == a);
        assert(normalize_seq(a) + Seq::<char>::empty() == normalize_seq(a));
    } else {
        lemma_normalize_concat(a, b.drop_last());
        assert((a + b).drop_last() == a + b.drop_last());
        assert((a + b).last() == b.last());
        assert(normalize_seq(a) + normalize_seq(b.drop_last())
            + (if is_alnum(b.last()) { seq![lower_char(b.last())] } else { Seq::<char>::empty() })
            == normalize_seq(a) + normalize_seq(b));
    }
}

/// Lower-cases the text and removes every character that is neither
/// alphanumeric nor whitespace.
pub open spec fn normalize_text_spec(s: Seq<char>) -> Seq<char>
    decreases s.len(),
{
    if s.len() == 0 {
        Seq::<char>::empty()
    } else {
        normalize_text_spec(s.drop_last())
            + if is_alnum(s.last()) || is_space(s.last()) {
                seq![lower_char(s.last())]
            } else {
                Seq::<char>::empty()
            }
    }
}

/// Removes every non-alphanumeric character, keeping the case.
pub open spec fn clean_text_spec(s: Seq<char>) -> Seq<char>
    decreases s.len(),
{
    if s.len() == 0 {
        Seq::<char>::empty()
    } else {
        clean_text_spec(s.drop_last())
            + if is_alnum(s.last()) {
                seq![s.last()]
            } else {
                Seq::<char>::empty()
            }
    }
}

/// Normalization never lengthens a sequence.
pub proof fn lemma_normalize_len_le(s: Seq<char>)
    ensures
        normalize_seq(s).len() <= s.len(),
    decreases s.len(),
{
    if s.len() > 0 {
        lemma_normalize_len_le(s.drop_last());
    }
}

/// Lower-cases the text and keeps only alphanumeric and whitespace
/// characters.
pub fn normalize_text(text: &str) -> (r: String)
    ensures
        r@ == normalize_text_spec(text@),
{
    let chars = str_to_chars(text);
    let mut out = String::new();
    let mut i: usize = 0;
    while i < chars.len()
        invariant
            i <= chars.len(),
            chars@ == text@,
            out@ == normalize_text_spec(text@.subrange(0, i as int)),
        decreases chars.len() - i,
    {
        let c = chars[i];
        proof {
            assert(text@.subrange(0, i + 1).drop_last() == text@.subrange(0, i as int));
            assert(text@.subrange(0, i + 1).last() == text@[i as int]);
        }
        if char_is_alnum(c) || char_is_space(c) {
            push_char(&mut out, to_lower_char(c));
        }
        i += 1;
    }
    proof {
        assert(text@.subrange(0, text@.len() as int) == text@);
    }
    out
}

/// Keeps only the alphanumeric characters of the text, case unchanged.
pub fn clean_text(text: &str) -> (r: String)
    ensures
        r@ == clean_text_spec(text@),
{
    let chars = str_to_chars(text);
    let mut out = String::new();
    let mut i: usize = 0;
    while i < chars.len()
        invariant
            i <= chars.len(),
            chars@ == text@,
            out@ == clean_text_spec(text@.subrange(0, i as int)),
        decreases chars.len() - i,
    {
        let c = chars[i];
        proof {
            assert(text@.subrange(0, i + 1).drop_last() == text@.subrange(0, i as int));
            assert(text@.subrange(0, i + 1).last() == text@[i as int]);
        }
        if char_is_alnum(c) {
            push_char(&mut out, c);
        }
        i += 1;
    }
    proof {
        assert(text@.subrange(0, text@.len() as int) == text@);
    }
    out
}

} // verus!
