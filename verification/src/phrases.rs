//! Banned-phrase detection: case-insensitive, word-boundary-aware
//! substring search.
//!
//! A phrase matches at a position when the text there equals the phrase
//! under ASCII case folding and the characters immediately before and
//! after the span are absent or non-alphanumeric.  Matches carry the
//! global stream position and a context snippet clipped to twenty
//! characters on each side of the span.

use vstd::prelude::*;
use crate::textnorm::is_alnum;
use crate::textnorm::lower_char;
use crate::textnorm::char_is_alnum;
use crate::textnorm::to_lower_char;
use crate::textnorm::str_to_chars;
use crate::frequency::chars_to_string;

verus! {

/// How gravely a phrase match is rated.  Exact case-insensitive matches
/// rate `High`; `Medium` is reserved for approximate matching, which
/// this matcher does not perform.
#[derive(Clone, Copy, PartialEq, Eq, Structural, Debug)]
pub enum Severity {
    High,
    Medium,
}

impl Severity {
    /// The conventional lower-case name of the severity.
    pub fn label(&self) -> (r: String)
        ensures
            *self == Severity::High ==> r@ == "high"@,
            *self == Severity::Medium ==> r@ == "medium"@,
    {
        match self {
            Severity::High => "high".to_owned(),
            Severity::Medium => "medium".to_owned(),
        }
    }
}

/// One occurrence of a banned phrase.
#[derive(Debug)]
pub struct BannedPhraseMatch {
    /// The configured phrase that matched.
    pub phrase: String,
    /// Character offset of the match from the start of the whole
    /// stream.
    pub position: u64,
    /// Text around the match, clipped to twenty characters on each
    /// side of the span within the window that was scanned.
    pub context: String,
    /// Rating of the match.
    pub severity: Severity,
}

/// Ghost image of a phrase match: phrase, global position, context.
pub open spec fn pm_view(m: BannedPhraseMatch) -> (Seq<char>, int, Seq<char>) {
    (m.phrase@, m.position as int, m.context@)
}

pub open spec fn pm_views(ms: Seq<BannedPhraseMatch>) -> Seq<(Seq<char>, int, Seq<char>)> {
    ms.map_values(|m: BannedPhraseMatch| pm_view(m))
}

/// Whether `ph` occurs in `s` at position `p`, case-insensitively and
/// bounded by non-alphanumeric characters (or the ends of `s`).
pub open spec fn phrase_match_at(s: Seq<char>, ph: Seq<char>, p: int) -> bool {
    &&& ph.len() > 0
    &&& 0 <= p
    &&& p + ph.len() <= s.len()
    &&& (forall|j: int| 0 <= j < ph.len() ==> lower_char(s[p + j]) == lower_char(ph[j]))
    &&& (p == 0 || !is_alnum(s[p - 1]))
    &&& (p + ph.len() == s.len() || !is_alnum(s[p + ph.len()]))
}

/// All match positions of `ph` in `s` at or after `from`, ascending.
pub open spec fn phrase_positions(s: Seq<char>, ph: Seq<char>, from: int) -> Seq<int>
    decreases s.len() - from,
{
    if ph.len() <= 0 || from + ph.len() > s.len() {
        Seq::<int>::empty()
    } else {
        let rest = phrase_positions(s, ph, from + 1);
        if phrase_match_at(s, ph, from) {
            seq![from] + rest
        } else {
            rest
        }
    }
}

/// The positions list holds exactly the match positions at or after
/// `from`.
pub proof fn lemma_phrase_positions_iff(s: Seq<char>, ph: Seq<char>, from: int, p: int)
    ensures
        phrase_positions(s, ph, from).contains(p) <==> (p >= from && phrase_match_at(s, ph, p)),
    decreases s.len() - from,
{
    if ph.len() <= 0 || from + ph.len() > s.len() {
        assert(!phrase_positions(s, ph, from).contains(p));
        if p >= from && phrase_match_at(s, ph, p) {
            assert(false);
        }
    } else {
        lemma_phrase_positions_iff(s, ph, from + 1, p);
        let rest = phrase_positions(s, ph, from + 1);
        if phrase_match_at(s, ph, from) {
            let whole = seq![from] + rest;
            assert(phrase_positions(s, ph, from) == whole);
            if p >= from && phrase_match_at(s, ph, p) {
                if p == from {
                    assert(whole[0] == p);
                    assert(whole.contains(p));
                } else {
                    assert(rest.contains(p));
                    let i = choose|i: int| 0 <= i < rest.len() && rest[i] == p;
                    assert(whole[i + 1] == p);
                    assert(whole.contains(p));
                }
            }
            if whole.contains(p) {
                let i = choose|i: int| 0 <= i < whole.len() && whole[i] == p;
                if i == 0 {
                    assert(p == from);
                } else {
                    assert(rest[i - 1] == p);
                    assert(rest.contains(p));
                }
            }
        } else {
            if p == from {
                assert(!phrase_match_at(s, ph, p));
            }
        }
    }
}

/// The context snippet of a span `[p, p + len)` of `win`: up to twenty
/// characters on each side, clipped at the window edges.
pub open spec fn ctx_of(win: Seq<char>, p: int, len: int) -> Seq<char> {
    let lo = if p - 20 >= 0 {
        p - 20
    } else {
        0
    };
    let hi = if p + len + 20 <= win.len() {
        p + len + 20
    } else {
        win.len() as int
    };
    win.subrange(lo, hi)
}

/// Keeps the positions whose span end lies in `[lo, hi]`.
pub open spec fn keep_ends(ps: Seq<int>, len: int, lo: int, hi: int) -> Seq<int>
    decreases ps.len(),
{
    if ps.len() == 0 {
        Seq::<int>::empty()
    } else {
        (if lo <= ps[0] + len <= hi {
            seq![ps[0]]
        } else {
            Seq::<int>::empty()
        }) + keep_ends(ps.drop_first(), len, lo, hi)
    }
}

pub proof fn lemma_keep_ends_iff(ps: Seq<int>, len: int, lo: int, hi: int, p: int)
    ensures
        keep_ends(ps, len, lo, hi).contains(p) <==> (ps.contains(p) && lo <= p + len <= hi),
    decreases ps.len(),
{
    if ps.len() > 0 {
        lemma_keep_ends_iff(ps.drop_first(), len, lo, hi, p);
        let rest = keep_ends(ps.drop_first(), len, lo, hi);
        let head = if lo <= ps[0] + len <= hi {
            seq![ps[0]]
        } else {
            Seq::<int>::empty()
        };
        let whole = head + rest;
        if whole.contains(p) {
            let i = choose|i: int| 0 <= i < whole.len() && whole[i] == p;
            if i < head.len() {
                assert(p == ps[0]);
                assert(ps.contains(p)) by {
                    assert(ps[0] == p);
                }
            } else {
                assert(rest[i - head.len()] == p);
                assert(rest.contains(p));
                let j = choose|j: int| 0 <= j < ps.drop_first().len() && ps.drop_first()[j] == p;
                assert(ps[j + 1] == p);
            }
        }
        if ps.contains(p) && lo <= p + len <= hi {
            let i = choose|i: int| 0 <= i < ps.len() && ps[i] == p;
            if i == 0 {
                assert(head[0] == p);
                assert(whole[0] == p);
            } else {
                assert(ps.drop_first()[i - 1] == p);
                assert(ps.drop_first().contains(p));
                assert(rest.contains(p));
                let j = choose|j: int| 0 <= j < rest.len() && rest[j] == p;
                assert(whole[head.len() + j] == p);
            }
        }
    }
}

/// The committed matches of one phrase in a window: every match
/// position whose span end lies in `[lo, hi]`, in ascending order,
/// shifted to global positions by `offset` and paired with its context.
pub open spec fn phrase_commits_one(
    win: Seq<char>,
    ph: Seq<char>,
    lo: int,
    hi: int,
    offset: int,
) -> Seq<(Seq<char>, int, Seq<char>)> {
    keep_ends(phrase_positions(win, ph, 0), ph.len() as int, lo, hi).map_values(
        |p: int| (ph, p + offset, ctx_of(win, p, ph.len() as int)),
    )
}

/// The committed matches of a phrase list in a window, phrase by
/// phrase in the configured order.
pub open spec fn phrase_commits(
    win: Seq<char>,
    phs: Seq<Seq<char>>,
    lo: int,
    hi: int,
    offset: int,
) -> Seq<(Seq<char>, int, Seq<char>)>
    decreases phs.len(),
{
    if phs.len() == 0 {
        Seq::<(Seq<char>, int, Seq<char>)>::empty()
    } else {
        phrase_commits_one(win, phs[0], lo, hi, offset) + phrase_commits(
            win,
            phs.drop_first(),
            lo,
            hi,
            offset,
        )
    }
}

/// Whether `ph` matches at `p`, by direct comparison.
pub fn phrase_match_at_exec(win: &Vec<char>, ph: &Vec<char>, p: usize) -> (r: bool)
    requires
        p + ph@.len() <= win@.len(),
        ph@.len() > 0,
    ensures
        r == phrase_match_at(win@, ph@, p as int),
{
    let wl = win.len();
    let pl = ph.len();
    // Word boundary before.
    if p > 0 {
        if char_is_alnum(win[p - 1]) {
            return false;
        }
    }
    // Word boundary after.
    if p + pl < wl {
        if char_is_alnum(win[p + pl]) {
            return false;
        }
    }
    // Case-insensitive comparison.
    let mut j: usize = 0;
    while j < ph.len()
        invariant
            j <= ph@.len(),
            p + ph@.len() <= win@.len(),
            win@.len() <= usize::MAX,
            forall|t: int| 0 <= t < j ==> lower_char(win@[p + t]) == lower_char(ph@[t]),
        decreases ph@.len() - j,
    {
        let a = to_lower_char(win[p + j]);
        let b = to_lower_char(ph[j]);
        if a != b {
            return false;
        }
        j += 1;
    }
    true
}

/// Scans the window for one phrase and appends the matches whose span
/// end lies in `[lo, hi]`, with positions shifted by `offset`.
fn scan_one_phrase(
    out: &mut Vec<BannedPhraseMatch>,
    win: &Vec<char>,
    phrase: &String,
    lo: usize,
    hi: usize,
    offset: u64,
)
    requires
        offset + win@.len() <= u64::MAX,
    ensures
        pm_views(final(out)@) == pm_views(old(out)@) + phrase_commits_one(
            win@,
            phrase@,
            lo as int,
            hi as int,
            offset as int,
        ),
        final(out)@.len() >= old(out)@.len(),
        forall|i: int|
            0 <= i < final(out).len() ==> #[trigger] final(out)@[i].severity == (if i
                < old(out).len() {
                old(out)@[i].severity
            } else {
                Severity::High
            }),
{
    let ph = str_to_chars(phrase.as_str());
    let ghost base = pm_views(out@);
    let ghost olen = out@.len() as int;
    if ph.len() == 0 || ph.len() > win.len() {
        proof {
            assert(phrase_positions(win@, ph@, 0) == Seq::<int>::empty());
            assert(keep_ends(Seq::<int>::empty(), ph@.len() as int, lo as int, hi as int)
                =~= Seq::<int>::empty());
            assert(phrase_commits_one(win@, phrase@, lo as int, hi as int, offset as int)
                =~= Seq::<(Seq<char>, int, Seq<char>)>::empty());
            assert(pm_views(out@) =~= base + Seq::<(Seq<char>, int, Seq<char>)>::empty());
        }
        return ;
    }
    let ghost allpos = phrase_positions(win@, ph@, 0);
    let plen = ph.len();
    let wlen = win.len();
    let mut p: usize = 0;
    proof {
        assert(base + keep_ends(allpos, plen as int, lo as int, hi as int).map_values(
            |q: int| (ph@, q + offset, ctx_of(win@, q, plen as int)),
        ) == base + phrase_commits_one(win@, phrase@, lo as int, hi as int, offset as int));
    }
    while p <= wlen - plen
        invariant
            plen == ph@.len(),
            wlen == win@.len(),
            plen > 0,
            plen <= wlen,
            p <= wlen,
            offset + win@.len() <= u64::MAX,
            ph@ == phrase@,
            pm_views(out@) + keep_ends(
                phrase_positions(win@, ph@, p as int),
                plen as int,
                lo as int,
                hi as int,
            ).map_values(|q: int| (ph@, q + offset, ctx_of(win@, q, plen as int))) == base
                + phrase_commits_one(win@, phrase@, lo as int, hi as int, offset as int),
            forall|i: int|
                0 <= i < out.len() ==> #[trigger] out@[i].severity == (if i < olen {
                    old(out)@[i].severity
                } else {
                    Severity::High
                }),
            olen <= out@.len(),
            old(out)@.len() == olen,
            forall|i: int| 0 <= i < olen ==> #[trigger] out@[i].severity == old(out)@[i].severity,
        decreases wlen - p,
    {
        proof {
            assert(p + plen <= wlen);
        }
        let hit = phrase_match_at_exec(win, &ph, p);
        let ghost ps = phrase_positions(win@, ph@, p as int);
        proof {
            assert(ps == if phrase_match_at(win@, ph@, p as int) {
                seq![p as int] + phrase_positions(win@, ph@, p + 1)
            } else {
                phrase_positions(win@, ph@, p + 1)
            });
        }
        if hit {
            let pend = p + plen;
            if lo <= pend && pend <= hi {
                // Build the context snippet.
                let cstart = if p >= 20 {
                    p - 20
                } else {
                    0
                };
                let cend = if wlen - pend >= 20 {
                    pend + 20
                } else {
                    wlen
                };
                let mut ctx_chars: Vec<char> = Vec::new();
                let mut t: usize = cstart;
                while t < cend
                    invariant
                        cstart <= t <= cend,
                        cend <= win@.len(),
                        ctx_chars@ == win@.subrange(cstart as int, t as int),
                    decreases cend - t,
                {
                    ctx_chars.push(win[t]);
                    proof {
                        assert(win@.subrange(cstart as int, t as int).push(win@[t as int])
                            =~= win@.subrange(cstart as int, t + 1));
                    }
                    t += 1;
                }
                let context = chars_to_string(&ctx_chars);
                let m = BannedPhraseMatch {
                    phrase: phrase.clone(),
                    position: offset + (p as u64),
                    context,
                    severity: Severity::High,
                };
                let ghost before = pm_views(out@);
                out.push(m);
                proof {
                    assert(pm_views(out@) =~= before + seq![
                        (ph@, p + offset as int, ctx_of(win@, p as int, plen as int)),
                    ]);
                    let kept = keep_ends(ps, plen as int, lo as int, hi as int);
                    assert(kept == seq![p as int] + keep_ends(
                        phrase_positions(win@, ph@, p + 1),
                        plen as int,
                        lo as int,
                        hi as int,
                    )) by {
                        assert(ps[0] == p as int);
                        assert(ps.drop_first() == phrase_positions(win@, ph@, p + 1));
                    }
                    let f = |q: int| (ph@, q + offset, ctx_of(win@, q, plen as int));
                    assert(kept.map_values(f) =~= seq![f(p as int)] + keep_ends(
                        phrase_positions(win@, ph@, p + 1),
                        plen as int,
                        lo as int,
                        hi as int,
                    ).map_values(f));
                    assert(before + kept.map_values(f) =~= pm_views(out@) + keep_ends(
                        phrase_positions(win@, ph@, p + 1),
                        plen as int,
                        lo as int,
                        hi as int,
                    ).map_values(f));
                }
            } else {
                proof {
                    let kept = keep_ends(ps, plen as int, lo as int, hi as int);
                    assert(ps[0] == p as int);
                    assert(ps.drop_first() == phrase_positions(win@, ph@, p + 1));
                    assert(kept =~= keep_ends(
                        phrase_positions(win@, ph@, p + 1),
                        plen as int,
                        lo as int,
                        hi as int,
                    ));
                }
            }
        } else {
            proof {
                assert(ps == phrase_positions(win@, ph@, p + 1));
            }
        }
        p += 1;
    }
    proof {
        assert(phrase_positions(win@, ph@, p as int) == Seq::<int>::empty());
        assert(keep_ends(Seq::<int>::empty(), plen as int, lo as int, hi as int)
            == Seq::<int>::empty());
        assert(Seq::<int>::empty().map_values(
            |q: int| (ph@, q + offset, ctx_of(win@, q, plen as int)),
        ) =~= Seq::<(Seq<char>, int, Seq<char>)>::empty());
        assert(pm_views(out@) =~= pm_views(out@) + Seq::<(Seq<char>, int, Seq<char>)>::empty());
    }
}

/// Ghost image of a phrase list.
pub open spec fn str_views(ss: Seq<String>) -> Seq<Seq<char>> {
    ss.map_values(|s: String| s@)
}

/// Scans a window against a phrase list and appends every match whose
/// span end lies in `[lo, hi]`, phrase by phrase, positions ascending,
/// at global positions `offset + p`.  Every appended match has
/// severity `High`.
pub fn scan_phrases(
    out: &mut Vec<BannedPhraseMatch>,
    win: &Vec<char>,
    phrases: &Vec<String>,
    lo: usize,
    hi: usize,
    offset: u64,
)
    requires
        offset + win@.len() <= u64::MAX,
    ensures
        pm_views(final(out)@) == pm_views(old(out)@) + phrase_commits(
            win@,
            str_views(phrases@),
            lo as int,
            hi as int,
            offset as int,
        ),
        forall|i: int|
            0 <= i < final(out).len() ==> #[trigger] final(out)@[i].severity == (if i
                < old(out).len() {
                old(out)@[i].severity
            } else {
                Severity::High
            }),
{
    let ghost base = pm_views(out@);
    let ghost olen = out@.len() as int;
    let mut k: usize = 0;
    proof {
        assert(str_views(phrases@).subrange(0, 0) =~= Seq::<Seq<char>>::empty());
        assert(base + phrase_commits(
            win@,
            Seq::<Seq<char>>::empty(),
            lo as int,
            hi as int,
            offset as int,
        ) =~= base);
    }
    while k < phrases.len()
        invariant
            k <= phrases@.len(),
            offset + win@.len() <= u64::MAX,
            pm_views(out@) == base + phrase_commits(
                win@,
                str_views(phrases@).subrange(0, k as int),
                lo as int,
                hi as int,
                offset as int,
            ),
            forall|i: int|
                0 <= i < out.len() ==> #[trigger] out@[i].severity == (if i < olen {
                    old(out)@[i].severity
                } else {
                    Severity::High
                }),
            olen <= out@.len(),
            old(out)@.len() == olen,
        decreases phrases@.len() - k,
    {
        scan_one_phrase(out, win, &phrases[k], lo, hi, offset);
        proof {
            let pv = str_views(phrases@);
            lemma_phrase_commits_snoc(
                win@,
                pv,
                k as int,
                lo as int,
                hi as int,
                offset as int,
            );
        }
        k += 1;
    }
    proof {
        assert(str_views(phrases@).subrange(0, phrases@.len() as int) == str_views(phrases@));
    }
}

/// Appending one more phrase to the prefix appends its commits.
proof fn lemma_phrase_commits_snoc(
    win: Seq<char>,
    phs: Seq<Seq<char>>,
    k: int,
    lo: int,
    hi: int,
    offset: int,
)
    requires
        0 <= k < phs.len(),
    ensures
        phrase_commits(win, phs.subrange(0, k + 1), lo, hi, offset) == phrase_commits(
            win,
            phs.subrange(0, k),
            lo,
            hi,
            offset,
        ) + phrase_commits_one(win, phs[k], lo, hi, offset),
    decreases k,
{
    if k == 0 {
        let one = phs.subrange(0, 1);
        assert(one[0] == phs[0]);
        assert(one.drop_first() =~= Seq::<Seq<char>>::empty());
        assert(phrase_commits(win, Seq::<Seq<char>>::empty(), lo, hi, offset)
            =~= Seq::<(Seq<char>, int, Seq<char>)>::empty());
        assert(phrase_commits(win, one, lo, hi, offset) == phrase_commits_one(
            win,
            phs[0],
            lo,
            hi,
            offset,
        ) + Seq::<(Seq<char>, int, Seq<char>)>::empty());
        assert(phs.subrange(0, 0) =~= Seq::<Seq<char>>::empty());
        assert(phrase_commits(win, phs.subrange(0, 0), lo, hi, offset)
            =~= Seq::<(Seq<char>, int, Seq<char>)>::empty());
        assert(phrase_commits(win, one, lo, hi, offset) =~= Seq::<(
            Seq<char>,
            int,
            Seq<char>,
        )>::empty() + phrase_commits_one(win, phs[0], lo, hi, offset));
    } else {
        lemma_phrase_commits_snoc(win, phs.drop_first(), k - 1, lo, hi, offset);
        let pre1 = phs.subrange(0, k + 1);
        let pre = phs.subrange(0, k);
        assert(pre1[0] == phs[0] && pre[0] == phs[0]);
        assert(pre1.drop_first() =~= phs.drop_first().subrange(0, k));
        assert(pre.drop_first() =~= phs.drop_first().subrange(0, k - 1));
        assert(phs.drop_first()[k - 1] == phs[k]);
    }
}

/// The default catalogue of banned phrases.
pub fn default_banned_phrases() -> (r: Vec<String>)
    ensures
        str_views(r@) == seq!["confidential"@, "do not share"@],
{
    let mut r: Vec<String> = Vec::new();
    r.push("confidential".to_owned());
    r.push("do not share".to_owned());
    proof {
        assert(str_views(r@) =~= seq!["confidential"@, "do not share"@]);
    }
    r
}

/// Finds every occurrence of the default banned phrases in the text:
/// case-insensitive, word-bounded, reported phrase by phrase with
/// ascending character positions, context snippets and severity
/// `High`.
pub fn detect_banned_phrases(text: &str) -> (r: Vec<BannedPhraseMatch>)
    ensures
        pm_views(r@) == phrase_commits(
            text@,
            seq!["confidential"@, "do not share"@],
            0,
            text@.len() as int,
            0,
        ),
        forall|i: int| 0 <= i < r.len() ==> #[trigger] r@[i].severity == Severity::High,
{
    let win = str_to_chars(text);
    let phrases = default_banned_phrases();
    let mut out: Vec<BannedPhraseMatch> = Vec::new();
    let hi = win.len();
    proof {
        assert(pm_views(out@) =~= Seq::<(Seq<char>, int, Seq<char>)>::empty());
    }
    scan_phrases(&mut out, &win, &phrases, 0, hi, 0);
    proof {
        assert(Seq::<(Seq<char>, int, Seq<char>)>::empty() + phrase_commits(
            win@,
            str_views(phrases@),
            0,
            hi as int,
            0,
        ) =~= phrase_commits(win@, str_views(phrases@), 0, hi as int, 0));
    }
    out
}

} // verus!
