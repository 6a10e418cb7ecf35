//! Typed detectors for personally identifiable information.
//!
//! Five fixed pattern kinds are recognised: phone numbers, social
//! security numbers, credit card numbers, IP addresses and email
//! addresses.  Each detector is a character-level grammar written out
//! as a spec function; the executable scanner is verified to report
//! exactly the spans that the grammar accepts, with a type-specific
//! confidence score in thousandths.

use vstd::prelude::*;
use crate::textnorm::is_alnum;
use crate::textnorm::char_is_alnum;
use crate::textnorm::str_to_chars;
use crate::frequency::chars_to_string;

verus! {

/// The closed catalogue of PII pattern kinds.
#[derive(Clone, Copy, PartialEq, Eq, Structural, Debug)]
pub enum PIIKind {
    Phone,
    Ssn,
    CreditCard,
    IpAddress,
    Email,
}

impl PIIKind {
    /// The conventional snake-case name of the kind.
    pub fn label(&self) -> (r: String)
        ensures
            *self == PIIKind::Phone ==> r@ == "phone"@,
            *self == PIIKind::Ssn ==> r@ == "ssn"@,
            *self == PIIKind::CreditCard ==> r@ == "credit_card"@,
            *self == PIIKind::IpAddress ==> r@ == "ip_address"@,
            *self == PIIKind::Email ==> r@ == "email"@,
    {
        match self {
            PIIKind::Phone => "phone".to_owned(),
            PIIKind::Ssn => "ssn".to_owned(),
            PIIKind::CreditCard => "credit_card".to_owned(),
            PIIKind::IpAddress => "ip_address".to_owned(),
            PIIKind::Email => "email".to_owned(),
        }
    }
}

/// One PII finding.
#[derive(Debug)]
pub struct PIIPattern {
    /// Which detector fired.
    pub kind: PIIKind,
    /// The matched text, exactly as it stood in the stream.
    pub pattern: String,
    /// Character offset of the match from the start of the whole
    /// stream.
    pub position: u64,
    /// Confidence in thousandths (950 stands for 0.95).
    pub confidence: u64,
}

/// Ghost image of a finding: kind, text, global position, confidence.
pub open spec fn pii_view(m: PIIPattern) -> (PIIKind, Seq<char>, int, int) {
    (m.kind, m.pattern@, m.position as int, m.confidence as int)
}

pub open spec fn pii_views(ms: Seq<PIIPattern>) -> Seq<(PIIKind, Seq<char>, int, int)> {
    ms.map_values(|m: PIIPattern| pii_view(m))
}

// ---------------------------------------------------------------------
// Character classes and small helpers.
// ---------------------------------------------------------------------

pub open spec fn is_digit(c: char) -> bool {
    '0' <= c && c <= '9'
}

pub open spec fn digit_val(c: char) -> int {
    c as u32 - 48
}

pub open spec fn is_ascii_letter(c: char) -> bool {
    ('a' <= c && c <= 'z') || ('A' <= c && c <= 'Z')
}

/// Characters allowed in the local part of an email address.
pub open spec fn is_local_char(c: char) -> bool {
    is_ascii_letter(c) || is_digit(c) || c == '.' || c == '_' || c == '%' || c == '+' || c == '-'
}

/// Characters allowed in the domain of an email address.
pub open spec fn is_domain_char(c: char) -> bool {
    is_ascii_letter(c) || is_digit(c) || c == '.' || c == '-'
}

/// No word character just before position `p`.
pub open spec fn bnd_before(s: Seq<char>, p: int) -> bool {
    p == 0 || !is_alnum(s[p - 1])
}

/// No word character at position `e` (the position just after a span).
pub open spec fn bnd_after(s: Seq<char>, e: int) -> bool {
    e == s.len() || !is_alnum(s[e])
}

/// `n` digits starting at `p`.
pub open spec fn digits_at(s: Seq<char>, p: int, n: int) -> bool {
    &&& 0 <= p
    &&& p + n <= s.len()
    &&& forall|j: int| 0 <= j < n ==> is_digit(#[trigger] s[p + j])
}

/// Length of the digit run starting at `p`, counted up to `cap`.
pub open spec fn digit_run(s: Seq<char>, p: int, cap: int) -> int
    decreases cap,
{
    if cap <= 0 || p < 0 || p >= s.len() || !is_digit(s[p]) {
        0
    } else {
        1 + digit_run(s, p + 1, cap - 1)
    }
}

/// Length of the local-character run starting at `p`, up to `cap`.
pub open spec fn local_run(s: Seq<char>, p: int, cap: int) -> int
    decreases cap,
{
    if cap <= 0 || p < 0 || p >= s.len() || !is_local_char(s[p]) {
        0
    } else {
        1 + local_run(s, p + 1, cap - 1)
    }
}

/// Length of the domain-character run starting at `p`, up to `cap`.
pub open spec fn domain_run(s: Seq<char>, p: int, cap: int) -> int
    decreases cap,
{
    if cap <= 0 || p < 0 || p >= s.len() || !is_domain_char(s[p]) {
        0
    } else {
        1 + domain_run(s, p + 1, cap - 1)
    }
}

/// Numeric value of a digit string.
pub open spec fn digits_val(ds: Seq<char>) -> int
    decreases ds.len(),
{
    if ds.len() == 0 {
        0
    } else {
        digits_val(ds.drop_last()) * 10 + digit_val(ds.last())
    }
}

/// The Luhn sum, walked from the rightmost character; every second
/// digit is doubled (with digit-sum correction), non-digits are
/// skipped without advancing the alternation.
pub open spec fn luhn_sum(ds: Seq<char>, alt: bool) -> int
    decreases ds.len(),
{
    if ds.len() == 0 {
        0
    } else if is_digit(ds.last()) {
        let d = digit_val(ds.last());
        let dd = if alt {
            if 2 * d > 9 {
                2 * d % 10 + 1
            } else {
                2 * d
            }
        } else {
            d
        };
        dd + luhn_sum(ds.drop_last(), !alt)
    } else {
        luhn_sum(ds.drop_last(), alt)
    }
}

/// Whether a digit string passes the Luhn checksum.
pub open spec fn luhn_ok(ds: Seq<char>) -> bool {
    luhn_sum(ds, false) % 10 == 0
}

// ---------------------------------------------------------------------
// The five grammars, each as "match attempt at one position".
// A successful attempt yields (span length, confidence in thousandths).
// ---------------------------------------------------------------------

/// Phone confidence: with ten digits, 900 when a separator is present
/// and 800 when the digits are contiguous; anything else rates 600.
pub open spec fn phone_confidence_spec(digit_count: int, has_separator: bool) -> int {
    if digit_count == 10 {
        if has_separator {
            900
        } else {
            800
        }
    } else {
        600
    }
}

/// Phone numbers: three, three and four digits with an optional `-` or
/// `.` after each of the first two groups, word-bounded.
pub open spec fn phone_try(s: Seq<char>, p: int) -> Option<(int, int)> {
    if !(bnd_before(s, p) && digits_at(s, p, 3)) {
        None
    } else {
        let q1 = p + 3;
        let sep1 = q1 < s.len() && (s[q1] == '-' || s[q1] == '.');
        let a2 = if sep1 {
            q1 + 1
        } else {
            q1
        };
        if !digits_at(s, a2, 3) {
            None
        } else {
            let q2 = a2 + 3;
            let sep2 = q2 < s.len() && (s[q2] == '-' || s[q2] == '.');
            let a3 = if sep2 {
                q2 + 1
            } else {
                q2
            };
            if digits_at(s, a3, 4) && bnd_after(s, a3 + 4) {
                Some(((a3 + 4 - p) as int, phone_confidence_spec(10, sep1 || sep2)))
            } else {
                None
            }
        }
    }
}

/// Social security numbers: exactly `###-##-####`, word-bounded;
/// fixed confidence 950.
pub open spec fn ssn_try(s: Seq<char>, p: int) -> Option<(int, int)> {
    if bnd_before(s, p) && digits_at(s, p, 3) && p + 3 < s.len() && s[p + 3] == '-' && digits_at(
        s,
        p + 4,
        2,
    ) && p + 6 < s.len() && s[p + 6] == '-' && digits_at(s, p + 7, 4) && bnd_after(s, p + 11) {
        Some((11, 950))
    } else {
        None
    }
}

/// Credit-card confidence: with sixteen digits, 950 when the Luhn
/// checksum passes and 700 when it fails; other digit counts rate 500.
pub open spec fn card_confidence_spec(digit_count: int, luhn_passes: bool) -> int {
    if digit_count == 16 {
        if luhn_passes {
            950
        } else {
            700
        }
    } else {
        500
    }
}

/// Credit cards: four groups of four digits with an optional `-` or
/// space after each of the first three groups, word-bounded.  The
/// sixteen digits are Luhn-checked for the confidence score.
pub open spec fn card_try(s: Seq<char>, p: int) -> Option<(int, int)> {
    if !(bnd_before(s, p) && digits_at(s, p, 4)) {
        None
    } else {
        let q1 = p + 4;
        let sep1 = q1 < s.len() && (s[q1] == '-' || s[q1] == ' ');
        let a2 = if sep1 {
            q1 + 1
        } else {
            q1
        };
        if !digits_at(s, a2, 4) {
            None
        } else {
            let q2 = a2 + 4;
            let sep2 = q2 < s.len() && (s[q2] == '-' || s[q2] == ' ');
            let a3 = if sep2 {
                q2 + 1
            } else {
                q2
            };
            if !digits_at(s, a3, 4) {
                None
            } else {
                let q3 = a3 + 4;
                let sep3 = q3 < s.len() && (s[q3] == '-' || s[q3] == ' ');
                let a4 = if sep3 {
                    q3 + 1
                } else {
                    q3
                };
                if digits_at(s, a4, 4) && bnd_after(s, a4 + 4) {
                    let ds = s.subrange(p, p + 4) + s.subrange(a2, a2 + 4) + s.subrange(
                        a3,
                        a3 + 4,
                    ) + s.subrange(a4, a4 + 4);
                    Some(((a4 + 4 - p) as int, card_confidence_spec(16, luhn_ok(ds))))
                } else {
                    None
                }
            }
        }
    }
}

/// IP addresses: four dot-separated groups of one to three digits,
/// word-bounded, each group at most 255; fixed confidence 900.
/// A candidate with an out-of-range group is discarded entirely.
pub open spec fn ip_try(s: Seq<char>, p: int) -> Option<(int, int)> {
    if !bnd_before(s, p) {
        None
    } else {
        let r1 = digit_run(s, p, 4);
        if !(1 <= r1 <= 3 && p + r1 < s.len() && s[p + r1] == '.') {
            None
        } else {
            let a2 = p + r1 + 1;
            let r2 = digit_run(s, a2, 4);
            if !(1 <= r2 <= 3 && a2 + r2 < s.len() && s[a2 + r2] == '.') {
                None
            } else {
                let a3 = a2 + r2 + 1;
                let r3 = digit_run(s, a3, 4);
                if !(1 <= r3 <= 3 && a3 + r3 < s.len() && s[a3 + r3] == '.') {
                    None
                } else {
                    let a4 = a3 + r3 + 1;
                    let r4 = digit_run(s, a4, 4);
                    if !(1 <= r4 <= 3 && bnd_after(s, a4 + r4)) {
                        None
                    } else {
                        if digits_val(s.subrange(p, p + r1)) <= 255 && digits_val(
                            s.subrange(a2, a2 + r2),
                        ) <= 255 && digits_val(s.subrange(a3, a3 + r3)) <= 255 && digits_val(
                            s.subrange(a4, a4 + r4),
                        ) <= 255 {
                            Some(((a4 + r4 - p) as int, 900))
                        } else {
                            None
                        }
                    }
                }
            }
        }
    }
}

/// Longest cap on the local part of an email address.
pub const EMAIL_LOCAL_MAX: usize = 64;

/// Longest cap on the domain of an email address.
pub const EMAIL_DOMAIN_MAX: usize = 255;

/// Whether `[a, e)` is a valid domain: all domain characters, with a
/// final dot-separated label of at least two ASCII letters, a nonempty
/// part before that dot, and no word character at `e`.
pub open spec fn email_end_ok(s: Seq<char>, a: int, e: int, ld: int) -> bool {
    &&& a < ld
    &&& ld + 3 <= e
    &&& s[ld] == '.'
    &&& (forall|j: int| ld < j < e ==> is_ascii_letter(#[trigger] s[j]))
    &&& bnd_after(s, e)
}

/// The position of the last dot in `[a, e)`, or -1.
pub open spec fn last_dot(s: Seq<char>, a: int, e: int) -> int
    decreases e - a,
{
    if e <= a {
        -1
    } else if s[e - 1] == '.' {
        e - 1
    } else {
        last_dot(s, a, e - 1)
    }
}

/// The largest valid domain end in `(a, m]`, or -1.
pub open spec fn best_email_end(s: Seq<char>, a: int, m: int) -> int
    decreases m - a,
{
    if m <= a {
        -1
    } else if email_end_ok(s, a, m, last_dot(s, a, m)) {
        m
    } else {
        best_email_end(s, a, m - 1)
    }
}

/// A nonnegative result of `best_email_end` is a valid domain end.
pub proof fn lemma_best_email_end_ok(s: Seq<char>, a: int, m: int)
    requires
        0 <= a <= m,
    ensures
        best_email_end(s, a, m) >= 0 ==> {
            let e = best_email_end(s, a, m);
            &&& a < e <= m
            &&& email_end_ok(s, a, e, last_dot(s, a, e))
        },
    decreases m - a,
{
    if m > a && !email_end_ok(s, a, m, last_dot(s, a, m)) {
        lemma_best_email_end_ok(s, a, m - 1);
    }
}

/// Email addresses: a maximal run of local characters (letters,
/// digits, `._%+-`), an `@`, and a domain of domain characters ending
/// in a dot-separated all-letter label of length at least two.  The
/// longest domain end that fits is taken; fixed confidence 850.
pub open spec fn email_try(s: Seq<char>, p: int) -> Option<(int, int)> {
    if !(0 <= p && p < s.len() && (p == 0 || !is_local_char(s[p - 1])) && is_local_char(s[p])) {
        None
    } else {
        let l = local_run(s, p, EMAIL_LOCAL_MAX as int);
        if !(p + l < s.len() && s[p + l] == '@') {
            None
        } else {
            let a = p + l + 1;
            let d = domain_run(s, a, EMAIL_DOMAIN_MAX as int);
            if !(d >= 1 && !(d == EMAIL_DOMAIN_MAX as int && a + d < s.len() && is_domain_char(
                s[a + d],
            ))) {
                None
            } else {
                let e = best_email_end(s, a, a + d);
                if e < 0 {
                    None
                } else {
                    Some(((e - p) as int, 850))
                }
            }
        }
    }
}

/// One attempt of the detector of `kind` at position `p`.
pub open spec fn pii_try(s: Seq<char>, kind: PIIKind, p: int) -> Option<(int, int)> {
    match kind {
        PIIKind::Phone => phone_try(s, p),
        PIIKind::Ssn => ssn_try(s, p),
        PIIKind::CreditCard => card_try(s, p),
        PIIKind::IpAddress => ip_try(s, p),
        PIIKind::Email => email_try(s, p),
    }
}

/// All matches of one detector at or after `from`: (position, length,
/// confidence), ascending by position.
pub open spec fn pii_scan(s: Seq<char>, kind: PIIKind, from: int) -> Seq<(int, int, int)>
    decreases s.len() - from,
{
    if from < 0 || from >= s.len() {
        Seq::<(int, int, int)>::empty()
    } else {
        let rest = pii_scan(s, kind, from + 1);
        match pii_try(s, kind, from) {
            Some(lc) => seq![(from, lc.0, lc.1)] + rest,
            None => rest,
        }
    }
}

// ---------------------------------------------------------------------
// Bounds of a successful attempt.
// ---------------------------------------------------------------------

pub proof fn lemma_digit_run_le(s: Seq<char>, p: int, cap: int)
    ensures
        0 <= digit_run(s, p, cap),
        digit_run(s, p, cap) <= cap || cap < 0,
        0 <= p <= s.len() ==> p + digit_run(s, p, cap) <= s.len(),
    decreases cap,
{
    if !(cap <= 0 || p < 0 || p >= s.len() || !is_digit(s[p])) {
        lemma_digit_run_le(s, p + 1, cap - 1);
    }
}

pub proof fn lemma_local_run_le(s: Seq<char>, p: int, cap: int)
    ensures
        0 <= local_run(s, p, cap),
        local_run(s, p, cap) <= cap || cap < 0,
        0 <= p <= s.len() ==> p + local_run(s, p, cap) <= s.len(),
    decreases cap,
{
    if !(cap <= 0 || p < 0 || p >= s.len() || !is_local_char(s[p])) {
        lemma_local_run_le(s, p + 1, cap - 1);
    }
}

pub proof fn lemma_domain_run_le(s: Seq<char>, p: int, cap: int)
    ensures
        0 <= domain_run(s, p, cap),
        domain_run(s, p, cap) <= cap || cap < 0,
        0 <= p <= s.len() ==> p + domain_run(s, p, cap) <= s.len(),
    decreases cap,
{
    if !(cap <= 0 || p < 0 || p >= s.len() || !is_domain_char(s[p])) {
        lemma_domain_run_le(s, p + 1, cap - 1);
    }
}

pub proof fn lemma_best_email_end_le(s: Seq<char>, a: int, m: int)
    requires
        0 <= a <= m,
    ensures
        best_email_end(s, a, m) <= m,
    decreases m - a,
{
    if m > a && !email_end_ok(s, a, m, last_dot(s, a, m)) {
        lemma_best_email_end_le(s, a, m - 1);
    }
}

/// A successful attempt spans at least one character and stays inside
/// the text.
pub proof fn lemma_pii_try_in_range(s: Seq<char>, kind: PIIKind, p: int)
    requires
        0 <= p,
    ensures
        pii_try(s, kind, p) matches Some(lc) ==> 1 <= lc.0 && p + lc.0 <= s.len(),
{
    match kind {
        PIIKind::Phone => {
            assert(pii_try(s, kind, p) == phone_try(s, p));
            let q1 = p + 3;
            let sep1 = q1 < s.len() && (s[q1] == '-' || s[q1] == '.');
            let a2 = if sep1 { q1 + 1 } else { q1 };
            let q2 = a2 + 3;
            let sep2 = q2 < s.len() && (s[q2] == '-' || s[q2] == '.');
            let a3 = if sep2 { q2 + 1 } else { q2 };
            if phone_try(s, p) is Some {
                assert(phone_try(s, p)->Some_0.0 == a3 + 4 - p);
            }
        },
        PIIKind::Ssn => {
            assert(pii_try(s, kind, p) == ssn_try(s, p));
        },
        PIIKind::CreditCard => {
            assert(pii_try(s, kind, p) == card_try(s, p));
            let q1 = p + 4;
            let sep1 = q1 < s.len() && (s[q1] == '-' || s[q1] == ' ');
            let a2 = if sep1 { q1 + 1 } else { q1 };
            let q2 = a2 + 4;
            let sep2 = q2 < s.len() && (s[q2] == '-' || s[q2] == ' ');
            let a3 = if sep2 { q2 + 1 } else { q2 };
            let q3 = a3 + 4;
            let sep3 = q3 < s.len() && (s[q3] == '-' || s[q3] == ' ');
            let a4 = if sep3 { q3 + 1 } else { q3 };
            if card_try(s, p) is Some {
                assert(card_try(s, p)->Some_0.0 == a4 + 4 - p);
            }
        },
        PIIKind::IpAddress => {
            assert(pii_try(s, kind, p) == ip_try(s, p));
            lemma_digit_run_le(s, p, 4);
            let r1 = digit_run(s, p, 4);
            lemma_digit_run_le(s, p + r1 + 1, 4);
            let r2 = digit_run(s, p + r1 + 1, 4);
            lemma_digit_run_le(s, p + r1 + 1 + r2 + 1, 4);
            let r3 = digit_run(s, p + r1 + 1 + r2 + 1, 4);
            lemma_digit_run_le(s, p + r1 + 1 + r2 + 1 + r3 + 1, 4);
        },
        PIIKind::Email => {
            assert(pii_try(s, kind, p) == email_try(s, p));
            if 0 <= p && p < s.len() {
                lemma_local_run_le(s, p, EMAIL_LOCAL_MAX as int);
                let l = local_run(s, p, EMAIL_LOCAL_MAX as int);
                if p + l < s.len() {
                    lemma_domain_run_le(s, p + l + 1, EMAIL_DOMAIN_MAX as int);
                    let d = domain_run(s, p + l + 1, EMAIL_DOMAIN_MAX as int);
                    lemma_best_email_end_ok(s, p + l + 1, p + l + 1 + d);
                }
            }
        },
    }
}

// ---------------------------------------------------------------------
// Executable character tests.
// ---------------------------------------------------------------------

pub fn is_digit_exec(c: char) -> (r: bool)
    ensures
        r == is_digit(c),
{
    let u = c as u32;
    48 <= u && u <= 57
}

pub fn is_letter_exec(c: char) -> (r: bool)
    ensures
        r == is_ascii_letter(c),
{
    let u = c as u32;
    (97 <= u && u <= 122) || (65 <= u && u <= 90)
}

pub fn is_local_char_exec(c: char) -> (r: bool)
    ensures
        r == is_local_char(c),
{
    let u = c as u32;
    is_letter_exec(c) || is_digit_exec(c) || u == 46 || u == 95 || u == 37 || u == 43 || u == 45
}

pub fn is_domain_char_exec(c: char) -> (r: bool)
    ensures
        r == is_domain_char(c),
{
    let u = c as u32;
    is_letter_exec(c) || is_digit_exec(c) || u == 46 || u == 45
}

/// `n` digits starting at `p`?
pub fn digits_at_exec(win: &Vec<char>, p: usize, n: usize) -> (r: bool)
    ensures
        r == digits_at(win@, p as int, n as int),
{
    if n > win.len() || p > win.len() - n {
        proof {
            assert(!digits_at(win@, p as int, n as int));
        }
        return false;
    }
    let mut j: usize = 0;
    while j < n
        invariant
            j <= n,
            p + n <= win@.len(),
            win@.len() <= usize::MAX,
            forall|t: int| 0 <= t < j ==> is_digit(#[trigger] win@[p + t]),
        decreases n - j,
    {
        if !is_digit_exec(win[p + j]) {
            proof {
                assert(!is_digit(win@[p + j]));
            }
            return false;
        }
        j += 1;
    }
    true
}

/// Length of the digit run at `p`, up to `cap`.
pub fn digit_run_exec(win: &Vec<char>, p: usize, cap: usize) -> (r: usize)
    requires
        p <= win@.len(),
    ensures
        r as int == digit_run(win@, p as int, cap as int),
        p + r <= win@.len(),
        r <= cap,
{
    let wl = win.len();
    let mut r: usize = 0;
    while r < cap && p + r < win.len() && is_digit_exec(win[p + r])
        invariant
            r <= cap,
            p + r <= win@.len(),
            win@.len() <= usize::MAX,
            digit_run(win@, p as int, cap as int) == r + digit_run(
                win@,
                p + r,
                (cap - r) as int,
            ),
        decreases cap - r,
    {
        r += 1;
    }
    proof {
        assert(digit_run(win@, p + r, (cap - r) as int) == 0);
    }
    r
}

/// Length of the local-character run at `p`, up to `cap`.
pub fn local_run_exec(win: &Vec<char>, p: usize, cap: usize) -> (r: usize)
    requires
        p <= win@.len(),
    ensures
        r as int == local_run(win@, p as int, cap as int),
        p + r <= win@.len(),
        r <= cap,
{
    let wl = win.len();
    let mut r: usize = 0;
    while r < cap && p + r < win.len() && is_local_char_exec(win[p + r])
        invariant
            r <= cap,
            p + r <= win@.len(),
            win@.len() <= usize::MAX,
            local_run(win@, p as int, cap as int) == r + local_run(
                win@,
                p + r,
                (cap - r) as int,
            ),
        decreases cap - r,
    {
        r += 1;
    }
    proof {
        assert(local_run(win@, p + r, (cap - r) as int) == 0);
    }
    r
}

/// Length of the domain-character run at `p`, up to `cap`.
pub fn domain_run_exec(win: &Vec<char>, p: usize, cap: usize) -> (r: usize)
    requires
        p <= win@.len(),
    ensures
        r as int == domain_run(win@, p as int, cap as int),
        p + r <= win@.len(),
        r <= cap,
{
    let wl = win.len();
    let mut r: usize = 0;
    while r < cap && p + r < win.len() && is_domain_char_exec(win[p + r])
        invariant
            r <= cap,
            p + r <= win@.len(),
            win@.len() <= usize::MAX,
            domain_run(win@, p as int, cap as int) == r + domain_run(
                win@,
                p + r,
                (cap - r) as int,
            ),
        decreases cap - r,
    {
        r += 1;
    }
    proof {
        assert(domain_run(win@, p + r, (cap - r) as int) == 0);
    }
    r
}

/// No word character just before `p`?
pub fn bnd_before_exec(win: &Vec<char>, p: usize) -> (r: bool)
    requires
        p <= win@.len(),
    ensures
        r == bnd_before(win@, p as int),
{
    if p == 0 {
        true
    } else {
        !char_is_alnum(win[p - 1])
    }
}

/// No word character at `e`?
pub fn bnd_after_exec(win: &Vec<char>, e: usize) -> (r: bool)
    requires
        e <= win@.len(),
    ensures
        r == bnd_after(win@, e as int),
{
    if e == win.len() {
        true
    } else {
        !char_is_alnum(win[e])
    }
}

/// The Luhn sum of a character vector, from the right.
pub fn luhn_sum_exec(ds: &Vec<char>) -> (r: u128)
    ensures
        r as int == luhn_sum(ds@, false),
{
    let mut acc: u128 = 0;
    let mut alt = false;
    let mut i: usize = ds.len();
    proof {
        assert(ds@.subrange(0, ds@.len() as int) == ds@);
    }
    while i > 0
        invariant
            i <= ds@.len(),
            ds@.len() <= usize::MAX,
            acc <= 18 * (ds@.len() - i),
            luhn_sum(ds@, false) == acc + luhn_sum(ds@.subrange(0, i as int), alt),
        decreases i,
    {
        let ghost pre = ds@.subrange(0, i as int);
        proof {
            assert(pre.drop_last() == ds@.subrange(0, i - 1));
            assert(pre.last() == ds@[i - 1]);
        }
        let c = ds[i - 1];
        if is_digit_exec(c) {
            let d = (c as u32) - 48;
            let dd: u32 = if alt {
                if 2 * d > 9 {
                    2 * d % 10 + 1
                } else {
                    2 * d
                }
            } else {
                d
            };
            acc = acc + (dd as u128);
            alt = !alt;
        }
        i -= 1;
    }
    acc
}

/// Whether the digits of `digits` pass the Luhn checksum, walked from
/// the right with every second digit doubled; non-digit characters are
/// skipped.
pub fn luhn_check(digits: &str) -> (r: bool)
    ensures
        r == luhn_ok(digits@),
{
    let ds = str_to_chars(digits);
    let sum = luhn_sum_exec(&ds);
    proof {
        lemma_luhn_sum_nonneg(ds@, false);
    }
    sum % 10 == 0
}

pub proof fn lemma_luhn_sum_nonneg(ds: Seq<char>, alt: bool)
    ensures
        luhn_sum(ds, alt) >= 0,
    decreases ds.len(),
{
    if ds.len() > 0 {
        lemma_luhn_sum_nonneg(ds.drop_last(), !alt);
        lemma_luhn_sum_nonneg(ds.drop_last(), alt);
    }
}

// ---------------------------------------------------------------------
// IP address validation on whole strings.
// ---------------------------------------------------------------------

/// Index of the first dot of `s`, or -1.
pub open spec fn first_dot(s: Seq<char>) -> int
    decreases s.len(),
{
    if s.len() == 0 {
        -1
    } else if s[0] == '.' {
        0
    } else {
        let r = first_dot(s.drop_first());
        if r < 0 {
            -1
        } else {
            r + 1
        }
    }
}

/// A valid octet: one or more characters, all digits, value at most
/// 255.
pub open spec fn octet_ok(part: Seq<char>) -> bool {
    &&& part.len() >= 1
    &&& (forall|j: int| 0 <= j < part.len() ==> is_digit(#[trigger] part[j]))
    &&& digits_val(part) <= 255
}

/// Every dot-separated part of `s` is a valid octet.
pub open spec fn ip_ok(s: Seq<char>) -> bool
    decreases s.len(),
{
    let fd = first_dot(s);
    if fd < 0 || fd >= s.len() {
        octet_ok(s)
    } else {
        octet_ok(s.subrange(0, fd)) && ip_ok(s.subrange(fd + 1, s.len() as int))
    }
}

pub proof fn lemma_first_dot_range(s: Seq<char>)
    ensures
        first_dot(s) < s.len(),
        first_dot(s) >= 0 ==> s[first_dot(s)] == '.',
        first_dot(s) < 0 ==> first_dot(s) == -1 && forall|j: int| 0 <= j < s.len() ==> s[j] != '.',
        first_dot(s) >= 0 ==> forall|j: int| 0 <= j < first_dot(s) ==> s[j] != '.',
    decreases s.len(),
{
    if s.len() > 0 && s[0] != '.' {
        lemma_first_dot_range(s.drop_first());
        if first_dot(s) < 0 {
            assert forall|j: int| 0 <= j < s.len() implies s[j] != '.' by {
                if j >= 1 {
                    assert(s.drop_first()[j - 1] == s[j]);
                }
            }
        } else {
            assert(s.drop_first()[first_dot(s) - 1] == s[first_dot(s)]);
            assert forall|j: int| 0 <= j < first_dot(s) implies s[j] != '.' by {
                if j >= 1 {
                    assert(s.drop_first()[j - 1] == s[j]);
                }
            }
        }
    }
}

pub proof fn lemma_first_dot_at(s: Seq<char>, i: int)
    requires
        0 <= i < s.len(),
        s[i] == '.',
        forall|j: int| 0 <= j < i ==> s[j] != '.',
    ensures
        first_dot(s) == i,
    decreases s.len(),
{
    if s[0] != '.' {
        assert(i >= 1);
        assert(forall|j: int| 0 <= j < i - 1 ==> s.drop_first()[j] == s[j + 1]);
        lemma_first_dot_at(s.drop_first(), i - 1);
    }
}

pub proof fn lemma_digits_val_nonneg(part: Seq<char>)
    requires
        forall|j: int| 0 <= j < part.len() ==> is_digit(#[trigger] part[j]),
    ensures
        digits_val(part) >= 0,
    decreases part.len(),
{
    if part.len() > 0 {
        assert(forall|j: int|
            0 <= j < part.drop_last().len() ==> part.drop_last()[j] == part[j]);
        lemma_digits_val_nonneg(part.drop_last());
    }
}

/// Checks one octet of `s`: the half-open range `[start, end)`.
fn octet_ok_exec(chars: &Vec<char>, start: usize, end: usize) -> (r: bool)
    requires
        start <= end <= chars@.len(),
    ensures
        r == octet_ok(chars@.subrange(start as int, end as int)),
{
    let ghost part = chars@.subrange(start as int, end as int);
    if end == start {
        return false;
    }
    // Saturating value: 256 stands for "too large".
    let mut v: u32 = 0;
    let mut i: usize = start;
    while i < end
        invariant
            start <= i <= end,
            end <= chars@.len(),
            forall|j: int| start <= j < i ==> is_digit(#[trigger] chars@[j]),
            v <= 256,
            digits_val(chars@.subrange(start as int, i as int)) <= 255 ==> v as int == digits_val(
                chars@.subrange(start as int, i as int),
            ),
            digits_val(chars@.subrange(start as int, i as int)) > 255 ==> v == 256,
        decreases end - i,
    {
        let c = chars[i];
        if !is_digit_exec(c) {
            proof {
                let partl = chars@.subrange(start as int, end as int);
                assert(0 <= i - start < partl.len());
                assert(partl[i - start] == chars@[i as int]);
                assert(!is_digit(partl[i - start]));
                assert(!octet_ok(partl));
            }
            return false;
        }
        let d = (c as u32) - 48;
        proof {
            let pre = chars@.subrange(start as int, i as int);
            let pre1 = chars@.subrange(start as int, i + 1);
            assert(pre1.drop_last() == pre);
            assert(pre1.last() == chars@[i as int]);
            lemma_digits_val_nonneg(pre);
        }
        v = v * 10 + d;
        if v > 255 {
            v = 256;
        }
        i += 1;
    }
    proof {
        assert(chars@.subrange(start as int, end as int) == part);
        assert(forall|j: int| 0 <= j < part.len() ==> part[j] == chars@[start + j]);
        lemma_digits_val_nonneg(part);
    }
    v <= 255
}

/// Whether every dot-separated part of the text is a number from 0 to
/// 255 written in decimal digits.
pub fn is_valid_ip_address(ip: &str) -> (r: bool)
    ensures
        r == ip_ok(ip@),
{
    let chars = str_to_chars(ip);
    let n = chars.len();
    let mut start: usize = 0;
    let mut i: usize = 0;
    proof {
        assert(chars@.subrange(0, n as int) == chars@);
    }
    while i < n
        invariant
            start <= i <= n,
            n == chars@.len(),
            forall|j: int| start <= j < i ==> chars@[j] != '.',
            ip_ok(ip@) == ip_ok(chars@.subrange(start as int, n as int)),
            chars@ == ip@,
        decreases n - i,
    {
        if chars[i] == '.' {
            let ghost suffix = chars@.subrange(start as int, n as int);
            proof {
                assert(chars@[i as int] == '.');
                assert(forall|j: int|
                    0 <= j < i - start ==> suffix[j] == chars@[start + j] && suffix[j] != '.');
                assert(suffix[i - start] == '.');
                lemma_first_dot_at(suffix, i - start);
                assert(suffix.subrange(0, i - start) =~= chars@.subrange(
                    start as int,
                    i as int,
                ));
                assert(suffix.subrange(i - start + 1, suffix.len() as int) =~= chars@.subrange(
                    i + 1,
                    n as int,
                ));
            }
            let ok = octet_ok_exec(&chars, start, i);
            if !ok {
                return false;
            }
            start = i + 1;
        }
        i += 1;
    }
    let ghost suffix = chars@.subrange(start as int, n as int);
    proof {
        assert(forall|j: int| 0 <= j < suffix.len() ==> suffix[j] == chars@[start + j]);
        if suffix.len() > 0 {
            lemma_first_dot_range(suffix);
            if first_dot(suffix) >= 0 {
                assert(suffix[first_dot(suffix)] == '.');
                assert(false);
            }
        }
    }
    octet_ok_exec(&chars, start, n)
}

// ---------------------------------------------------------------------
// Executable attempts, one per kind.
// ---------------------------------------------------------------------

/// Whether an executable attempt result agrees with a spec attempt.
pub open spec fn try_agrees(r: Option<(usize, u64)>, sp: Option<(int, int)>) -> bool {
    match r {
        Some(v) => sp is Some && v.0 as int == sp->Some_0.0 && v.1 as int == sp->Some_0.1,
        None => sp is None,
    }
}

fn phone_try_exec(win: &Vec<char>, p: usize) -> (r: Option<(usize, u64)>)
    requires
        p < win@.len(),
    ensures
        try_agrees(r, phone_try(win@, p as int)),
{
    let wl = win.len();
    if !bnd_before_exec(win, p) {
        return None;
    }
    if !digits_at_exec(win, p, 3) {
        return None;
    }
    let q1 = p + 3;
    let sep1 = q1 < wl && (win[q1] == '-' || win[q1] == '.');
    let a2 = if sep1 {
        q1 + 1
    } else {
        q1
    };
    if !digits_at_exec(win, a2, 3) {
        return None;
    }
    let q2 = a2 + 3;
    let sep2 = q2 < wl && (win[q2] == '-' || win[q2] == '.');
    let a3 = if sep2 {
        q2 + 1
    } else {
        q2
    };
    if !digits_at_exec(win, a3, 4) {
        return None;
    }
    if !bnd_after_exec(win, a3 + 4) {
        return None;
    }
    let conf: u64 = if sep1 || sep2 {
        900
    } else {
        800
    };
    Some((a3 + 4 - p, conf))
}

fn ssn_try_exec(win: &Vec<char>, p: usize) -> (r: Option<(usize, u64)>)
    requires
        p < win@.len(),
    ensures
        try_agrees(r, ssn_try(win@, p as int)),
{
    let wl = win.len();
    if !bnd_before_exec(win, p) {
        return None;
    }
    if !digits_at_exec(win, p, 3) {
        return None;
    }
    if !(p + 3 < wl && win[p + 3] == '-') {
        return None;
    }
    if !digits_at_exec(win, p + 4, 2) {
        return None;
    }
    if !(p + 6 < wl && win[p + 6] == '-') {
        return None;
    }
    if !digits_at_exec(win, p + 7, 4) {
        return None;
    }
    if !bnd_after_exec(win, p + 11) {
        return None;
    }
    Some((11, 950))
}

fn card_try_exec(win: &Vec<char>, p: usize) -> (r: Option<(usize, u64)>)
    requires
        p < win@.len(),
    ensures
        try_agrees(r, card_try(win@, p as int)),
{
    let wl = win.len();
    if !bnd_before_exec(win, p) {
        return None;
    }
    if !digits_at_exec(win, p, 4) {
        return None;
    }
    let q1 = p + 4;
    let sep1 = q1 < wl && (win[q1] == '-' || win[q1] == ' ');
    let a2 = if sep1 {
        q1 + 1
    } else {
        q1
    };
    if !digits_at_exec(win, a2, 4) {
        return None;
    }
    let q2 = a2 + 4;
    let sep2 = q2 < wl && (win[q2] == '-' || win[q2] == ' ');
    let a3 = if sep2 {
        q2 + 1
    } else {
        q2
    };
    if !digits_at_exec(win, a3, 4) {
        return None;
    }
    let q3 = a3 + 4;
    let sep3 = q3 < wl && (win[q3] == '-' || win[q3] == ' ');
    let a4 = if sep3 {
        q3 + 1
    } else {
        q3
    };
    if !digits_at_exec(win, a4, 4) {
        return None;
    }
    if !bnd_after_exec(win, a4 + 4) {
        return None;
    }
    // Collect the sixteen digits and run the Luhn checksum.
    let mut ds: Vec<char> = Vec::new();
    push_group(&mut ds, win, p);
    push_group(&mut ds, win, a2);
    push_group(&mut ds, win, a3);
    push_group(&mut ds, win, a4);
    proof {
        assert(ds@ =~= win@.subrange(p as int, p + 4) + win@.subrange(a2 as int, a2 + 4)
            + win@.subrange(a3 as int, a3 + 4) + win@.subrange(a4 as int, a4 + 4));
        assert(ds@.len() == 16);
    }
    let pass = luhn_sum_exec(&ds);
    proof {
        lemma_luhn_sum_nonneg(ds@, false);
    }
    let conf: u64 = if pass % 10 == 0 {
        950
    } else {
        700
    };
    Some((a4 + 4 - p, conf))
}

/// Appends four characters starting at `st` to the digit collector.
#[verifier::loop_isolation(false)]
fn push_group(ds: &mut Vec<char>, win: &Vec<char>, st: usize)
    requires
        st + 4 <= win@.len(),
    ensures
        final(ds)@ == old(ds)@ + win@.subrange(st as int, st + 4),
{
    let ghost base = ds@;
    let wl = win.len();
    let mut j: usize = 0;
    while j < 4
        invariant
            j <= 4,
            st + 4 <= win@.len(),
            ds@ == base + win@.subrange(st as int, st + j),
        decreases 4 - j,
    {
        ds.push(win[st + j]);
        proof {
            assert(win@.subrange(st as int, st + j).push(win@[st + j]) =~= win@.subrange(
                st as int,
                st + j + 1,
            ));
            assert(base + win@.subrange(st as int, st + j).push(win@[st + j]) =~= (base
                + win@.subrange(st as int, st + j)).push(win@[st + j]));
        }
        j += 1;
    }
}

fn ip_try_exec(win: &Vec<char>, p: usize) -> (r: Option<(usize, u64)>)
    requires
        p < win@.len(),
    ensures
        try_agrees(r, ip_try(win@, p as int)),
{
    let wl = win.len();
    if !bnd_before_exec(win, p) {
        return None;
    }
    let r1 = digit_run_exec(win, p, 4);
    if !(1 <= r1 && r1 <= 3 && p + r1 < wl && win[p + r1] == '.') {
        return None;
    }
    let a2 = p + r1 + 1;
    let r2 = digit_run_exec(win, a2, 4);
    if !(1 <= r2 && r2 <= 3 && a2 + r2 < wl && win[a2 + r2] == '.') {
        return None;
    }
    let a3 = a2 + r2 + 1;
    let r3 = digit_run_exec(win, a3, 4);
    if !(1 <= r3 && r3 <= 3 && a3 + r3 < wl && win[a3 + r3] == '.') {
        return None;
    }
    let a4 = a3 + r3 + 1;
    let r4 = digit_run_exec(win, a4, 4);
    if !(1 <= r4 && r4 <= 3 && bnd_after_exec(win, a4 + r4)) {
        return None;
    }
    let ok1 = octet_ok_exec(win, p, p + r1);
    let ok2 = octet_ok_exec(win, a2, a2 + r2);
    let ok3 = octet_ok_exec(win, a3, a3 + r3);
    let ok4 = octet_ok_exec(win, a4, a4 + r4);
    proof {
        lemma_run_is_digits(win@, p as int, r1 as int);
        lemma_run_is_digits(win@, a2 as int, r2 as int);
        lemma_run_is_digits(win@, a3 as int, r3 as int);
        lemma_run_is_digits(win@, a4 as int, r4 as int);
    }
    if ok1 && ok2 && ok3 && ok4 {
        Some((a4 + r4 - p, 900))
    } else {
        None
    }
}

/// Every character inside a digit run is a digit.
pub proof fn lemma_run_is_digits(s: Seq<char>, p: int, r: int)
    requires
        0 <= p,
        r <= digit_run(s, p, 4),
        0 <= r <= 4,
        p + r <= s.len(),
    ensures
        forall|j: int| 0 <= j < r ==> is_digit(#[trigger] s[p + j]),
        octet_ok(s.subrange(p, p + r)) <==> (r >= 1 && digits_val(s.subrange(p, p + r)) <= 255),
    decreases r,
{
    if r > 0 {
        assert(digit_run(s, p, 4) > 0);
        assert(is_digit(s[p]));
        lemma_run_digits_helper(s, p, r, 4);
        let part = s.subrange(p, p + r);
        assert forall|j: int| 0 <= j < part.len() implies is_digit(#[trigger] part[j]) by {
            assert(part[j] == s[p + j]);
            assert(is_digit(s[p + j]));
        }
        assert(octet_ok(part) <==> digits_val(part) <= 255);
    }
}

proof fn lemma_run_digits_helper(s: Seq<char>, p: int, r: int, cap: int)
    requires
        0 <= p,
        0 <= r <= digit_run(s, p, cap),
    ensures
        forall|j: int| 0 <= j < r ==> is_digit(#[trigger] s[p + j]),
    decreases r,
{
    if r > 0 {
        assert(digit_run(s, p, cap) > 0);
        assert(is_digit(s[p]));
        lemma_run_digits_helper(s, p + 1, r - 1, cap - 1);
        assert forall|j: int| 0 <= j < r implies is_digit(#[trigger] s[p + j]) by {
            if j >= 1 {
                assert(is_digit(s[(p + 1) + (j - 1)]));
            }
        }
    }
}

/// Position of the last dot in `[a, e)`, if any.
fn last_dot_exec(win: &Vec<char>, a: usize, e: usize) -> (r: Option<usize>)
    requires
        a <= e <= win@.len(),
    ensures
        r matches Some(i) ==> i as int == last_dot(win@, a as int, e as int),
        r is None ==> last_dot(win@, a as int, e as int) == -1,
{
    let mut cur = e;
    while cur > a
        invariant
            a <= cur <= e <= win@.len(),
            last_dot(win@, a as int, e as int) == last_dot(win@, a as int, cur as int),
        decreases cur,
    {
        if win[cur - 1] == '.' {
            return Some(cur - 1);
        }
        cur -= 1;
    }
    None
}

#[verifier::loop_isolation(false)]
fn email_try_exec(win: &Vec<char>, p: usize) -> (r: Option<(usize, u64)>)
    requires
        p < win@.len(),
    ensures
        try_agrees(r, email_try(win@, p as int)),
{
    let wl = win.len();
    if p > 0 && is_local_char_exec(win[p - 1]) {
        return None;
    }
    if !is_local_char_exec(win[p]) {
        return None;
    }
    let l = local_run_exec(win, p, EMAIL_LOCAL_MAX);
    if !(p + l < wl && win[p + l] == '@') {
        return None;
    }
    let a = p + l + 1;
    let d = domain_run_exec(win, a, EMAIL_DOMAIN_MAX);
    if d < 1 {
        return None;
    }
    if d == EMAIL_DOMAIN_MAX && a + d < wl && is_domain_char_exec(win[a + d]) {
        return None;
    }
    // Longest valid domain end.
    let mut e = a + d;
    while e > a
        invariant
            a <= e <= a + d,
            a + d <= win@.len(),

            best_email_end(win@, a as int, (a + d) as int) == best_email_end(
                win@,
                a as int,
                e as int,
            ),
        decreases e,
    {
        let valid = email_end_ok_exec(win, a, e);
        if valid {
            proof {
                assert(best_email_end(win@, a as int, e as int) == e as int);
            }
            return Some((e - p, 850));
        }
        e -= 1;
    }
    proof {
        assert(best_email_end(win@, a as int, e as int) == -1);
    }
    None
}

/// Checks `email_end_ok` for one candidate end.
#[verifier::loop_isolation(false)]
fn email_end_ok_exec(win: &Vec<char>, a: usize, e: usize) -> (r: bool)
    requires
        a <= e <= win@.len(),
    ensures
        r == email_end_ok(win@, a as int, e as int, last_dot(win@, a as int, e as int)),
{
    proof {
        lemma_last_dot_range(win@, a as int, e as int);
    }
    let ld_opt = last_dot_exec(win, a, e);
    if ld_opt.is_none() {
        proof {
            assert(!email_end_ok(win@, a as int, e as int, -1));
        }
        return false;
    }
    let ldu = ld_opt.unwrap();
    if !(a < ldu && e >= 3 && ldu <= e - 3) {
        return false;
    }
    if !bnd_after_exec(win, e) {
        return false;
    }
    let wl = win.len();
    let mut j = ldu + 1;
    while j < e
        invariant
            ldu < j <= e,
            e <= win@.len(),
            forall|t: int| ldu < t < j ==> is_ascii_letter(#[trigger] win@[t]),
        decreases e - j,
    {
        if !is_letter_exec(win[j]) {
            proof {
                assert(!is_ascii_letter(win@[j as int]));
            }
            return false;
        }
        j += 1;
    }
    proof {
        assert(win@[ldu as int] == '.');
    }
    true
}

/// The last dot lies inside `[a, e)` and is a dot; when there is none,
/// the result is -1.
pub proof fn lemma_last_dot_range(s: Seq<char>, a: int, e: int)
    requires
        0 <= a,
        e <= s.len(),
    ensures
        last_dot(s, a, e) == -1 || (a <= last_dot(s, a, e) < e && s[last_dot(s, a, e)] == '.'),
    decreases e - a,
{
    if e > a && s[e - 1] != '.' {
        lemma_last_dot_range(s, a, e - 1);
    }
}

/// One executable attempt of the detector of `kind` at `p`.
fn pii_try_exec(win: &Vec<char>, kind: PIIKind, p: usize) -> (r: Option<(usize, u64)>)
    requires
        p < win@.len(),
    ensures
        try_agrees(r, pii_try(win@, kind, p as int)),
{
    match kind {
        PIIKind::Phone => phone_try_exec(win, p),
        PIIKind::Ssn => ssn_try_exec(win, p),
        PIIKind::CreditCard => card_try_exec(win, p),
        PIIKind::IpAddress => ip_try_exec(win, p),
        PIIKind::Email => email_try_exec(win, p),
    }
}

// ---------------------------------------------------------------------
// Scanning a window.
// ---------------------------------------------------------------------

/// Keeps the matches whose span end lies in `[lo, hi]`.
pub open spec fn keep_pii(ms: Seq<(int, int, int)>, lo: int, hi: int) -> Seq<(int, int, int)>
    decreases ms.len(),
{
    if ms.len() == 0 {
        Seq::<(int, int, int)>::empty()
    } else {
        (if lo <= ms[0].0 + ms[0].1 <= hi {
            seq![ms[0]]
        } else {
            Seq::<(int, int, int)>::empty()
        }) + keep_pii(ms.drop_first(), lo, hi)
    }
}

/// The committed findings of one detector in a window: every match
/// whose span end lies in `[lo, hi]`, positions ascending, shifted to
/// global positions by `offset`, paired with the matched text.
pub open spec fn pii_commits_kind(
    win: Seq<char>,
    kind: PIIKind,
    lo: int,
    hi: int,
    offset: int,
) -> Seq<(PIIKind, Seq<char>, int, int)> {
    keep_pii(pii_scan(win, kind, 0), lo, hi).map_values(
        |t: (int, int, int)| (kind, win.subrange(t.0, t.0 + t.1), t.0 + offset, t.2),
    )
}

/// The committed findings of all five detectors, kind by kind in the
/// fixed order phone, ssn, credit card, IP address, email.
pub open spec fn pii_commits(win: Seq<char>, lo: int, hi: int, offset: int) -> Seq<
    (PIIKind, Seq<char>, int, int),
> {
    pii_commits_kind(win, PIIKind::Phone, lo, hi, offset) + pii_commits_kind(
        win,
        PIIKind::Ssn,
        lo,
        hi,
        offset,
    ) + pii_commits_kind(win, PIIKind::CreditCard, lo, hi, offset) + pii_commits_kind(
        win,
        PIIKind::IpAddress,
        lo,
        hi,
        offset,
    ) + pii_commits_kind(win, PIIKind::Email, lo, hi, offset)
}

/// Scans the window with one detector and appends the findings whose
/// span end lies in `[lo, hi]`, at global positions `offset + p`.
#[verifier::loop_isolation(false)]
fn scan_one_kind(
    out: &mut Vec<PIIPattern>,
    win: &Vec<char>,
    kind: PIIKind,
    lo: usize,
    hi: usize,
    offset: u64,
)
    requires
        offset + win@.len() <= u64::MAX,
    ensures
        pii_views(final(out)@) == pii_views(old(out)@) + pii_commits_kind(
            win@,
            kind,
            lo as int,
            hi as int,
            offset as int,
        ),
        final(out)@.len() >= old(out)@.len(),
{
    let ghost base = pii_views(out@);
    let ghost f = |t: (int, int, int)|
        (kind, win@.subrange(t.0, t.0 + t.1), t.0 + offset as int, t.2);
    let wlen = win.len();
    let mut p: usize = 0;
    while p < wlen
        invariant
            p <= wlen,
            pii_views(out@) + keep_pii(pii_scan(win@, kind, p as int), lo as int, hi as int)
                .map_values(f) == base + pii_commits_kind(
                win@,
                kind,
                lo as int,
                hi as int,
                offset as int,
            ),
            out@.len() >= old(out)@.len(),
        decreases wlen - p,
    {
        let attempt = pii_try_exec(win, kind, p);
        let ghost ms = pii_scan(win@, kind, p as int);
        match attempt {
            Some(lc) => {
                proof {
                    lemma_pii_try_in_range(win@, kind, p as int);
                    assert(ms == seq![(p as int, lc.0 as int, lc.1 as int)] + pii_scan(
                        win@,
                        kind,
                        p + 1,
                    ));
                    assert(ms[0] == (p as int, lc.0 as int, lc.1 as int));
                    assert(ms.drop_first() == pii_scan(win@, kind, p + 1));
                }
                let (l, conf) = lc;
                let pend = p + l;
                if lo <= pend && pend <= hi {
                    // Copy the matched text.
                    let mut mt: Vec<char> = Vec::new();
                    let mut t: usize = p;
                    while t < pend
                        invariant
                            p <= t <= pend,
                            pend <= win@.len(),
                            mt@ == win@.subrange(p as int, t as int),
                        decreases pend - t,
                    {
                        mt.push(win[t]);
                        proof {
                            assert(win@.subrange(p as int, t as int).push(win@[t as int])
                                =~= win@.subrange(p as int, t + 1));
                        }
                        t += 1;
                    }
                    let pattern = chars_to_string(&mt);
                    let m = PIIPattern {
                        kind,
                        pattern,
                        position: offset + (p as u64),
                        confidence: conf,
                    };
                    let ghost before = pii_views(out@);
                    out.push(m);
                    proof {
                        assert(pii_views(out@) =~= before + seq![f(ms[0])]);
                        let kept = keep_pii(ms, lo as int, hi as int);
                        assert(kept == seq![ms[0]] + keep_pii(
                            pii_scan(win@, kind, p + 1),
                            lo as int,
                            hi as int,
                        ));
                        assert(kept.map_values(f) =~= seq![f(ms[0])] + keep_pii(
                            pii_scan(win@, kind, p + 1),
                            lo as int,
                            hi as int,
                        ).map_values(f));
                    }
                } else {
                    proof {
                        assert(keep_pii(ms, lo as int, hi as int) =~= keep_pii(
                            pii_scan(win@, kind, p + 1),
                            lo as int,
                            hi as int,
                        ));
                    }
                }
            },
            None => {
                proof {
                    assert(ms == pii_scan(win@, kind, p + 1));
                }
            },
        }
        p += 1;
    }
    proof {
        assert(pii_scan(win@, kind, p as int) == Seq::<(int, int, int)>::empty());
        assert(keep_pii(Seq::<(int, int, int)>::empty(), lo as int, hi as int).map_values(f)
            =~= Seq::<(PIIKind, Seq<char>, int, int)>::empty());
        assert(pii_views(out@) + Seq::<(PIIKind, Seq<char>, int, int)>::empty() =~= pii_views(
            out@,
        ));
    }
}

/// Scans a window with all five detectors and appends every finding
/// whose span end lies in `[lo, hi]`, kind by kind, positions
/// ascending, at global positions `offset + p`.
pub fn scan_pii(out: &mut Vec<PIIPattern>, win: &Vec<char>, lo: usize, hi: usize, offset: u64)
    requires
        offset + win@.len() <= u64::MAX,
    ensures
        pii_views(final(out)@) == pii_views(old(out)@) + pii_commits(
            win@,
            lo as int,
            hi as int,
            offset as int,
        ),
        final(out)@.len() >= old(out)@.len(),
{
    scan_one_kind(out, win, PIIKind::Phone, lo, hi, offset);
    scan_one_kind(out, win, PIIKind::Ssn, lo, hi, offset);
    scan_one_kind(out, win, PIIKind::CreditCard, lo, hi, offset);
    scan_one_kind(out, win, PIIKind::IpAddress, lo, hi, offset);
    scan_one_kind(out, win, PIIKind::Email, lo, hi, offset);
    proof {
        assert(pii_views(out@) =~= pii_views(old(out)@) + pii_commits(
            win@,
            lo as int,
            hi as int,
            offset as int,
        ));
    }
}

/// Finds every occurrence of the five PII patterns in the text,
/// detector by detector (phone, ssn, credit card, IP address, email),
/// positions ascending, each with its matched text and its confidence
/// in thousandths.
pub fn detect_pii_patterns(text: &str) -> (r: Vec<PIIPattern>)
    ensures
        pii_views(r@) == pii_commits(text@, 0, text@.len() as int, 0),
{
    let win = str_to_chars(text);
    let mut out: Vec<PIIPattern> = Vec::new();
    let hi = win.len();
    proof {
        assert(pii_views(out@) =~= Seq::<(PIIKind, Seq<char>, int, int)>::empty());
    }
    scan_pii(&mut out, &win, 0, hi, 0);
    proof {
        assert(Seq::<(PIIKind, Seq<char>, int, int)>::empty() + pii_commits(
            win@,
            0,
            hi as int,
            0,
        ) =~= pii_commits(win@, 0, hi as int, 0));
    }
    out
}

} // verus!
