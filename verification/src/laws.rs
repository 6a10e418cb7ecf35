//! Laws of the streaming analyzer.
//!
//! The analyzer's behaviour is a fold of [`spec_step`] over the
//! chunks.  The lemmas here show that the accumulated tables depend
//! only on the concatenation of the chunks — never on where the
//! stream was cut — so the entropy and the ranked words of the final
//! report are invariant under re-chunking.

use vstd::prelude::*;
use crate::streaming::AStateG;
use crate::streaming::CfgV;
use crate::streaming::init_state;
use crate::streaming::spec_step;
use crate::streaming::spec_finalize;
use crate::streaming::carry_cap;
use crate::streaming::max_phrase_len;
use crate::entropy::cc_fold;
use crate::entropy::lemma_cc_fold_from_concat;
use crate::frequency::tok_fold;
use crate::frequency::lemma_tok_fold_from_concat;
use crate::textnorm::normalize_seq;
use crate::textnorm::lemma_normalize_concat;
use crate::phrases::phrase_match_at;
use crate::phrases::phrase_positions;
use crate::phrases::phrase_commits;
use crate::phrases::phrase_commits_one;
use crate::phrases::keep_ends;
use crate::phrases::lemma_phrase_positions_iff;
use crate::phrases::lemma_keep_ends_iff;
use crate::pii::PIIKind;
use crate::pii::pii_try;
use crate::pii::pii_scan;
use crate::pii::pii_commits;
use crate::pii::pii_commits_kind;
use crate::pii::keep_pii;
use crate::pii::digit_run;
use crate::pii::digits_at;
use crate::pii::phone_try;
use crate::pii::ssn_try;
use crate::pii::card_try;
use crate::pii::ip_try;

verus! {

/// Feeding a sequence of chunks, one `spec_step` per chunk.
pub open spec fn feed(cfg: CfgV, st: AStateG, chunks: Seq<Seq<char>>) -> AStateG
    decreases chunks.len(),
{
    if chunks.len() == 0 {
        st
    } else {
        spec_step(
            cfg,
            feed(cfg, st, chunks.drop_last()),
            chunks.last(),
            chunks.last().len() as int,
        )
    }
}

/// The concatenation of a sequence of chunks.
pub open spec fn concat_chunks(chunks: Seq<Seq<char>>) -> Seq<char>
    decreases chunks.len(),
{
    if chunks.len() == 0 {
        Seq::<char>::empty()
    } else {
        concat_chunks(chunks.drop_last()) + chunks.last()
    }
}

/// After feeding any sequence of chunks, the stream is their
/// concatenation, and the character table, the word table and the
/// pending token are exactly the fold of that concatenation: no trace
/// of the cut points remains.
pub proof fn lemma_feed_counts(cfg: CfgV, chunks: Seq<Seq<char>>)
    ensures
        feed(cfg, init_state(), chunks).stream == concat_chunks(chunks),
        feed(cfg, init_state(), chunks).chars == cc_fold(normalize_seq(concat_chunks(chunks))),
        (feed(cfg, init_state(), chunks).words, feed(cfg, init_state(), chunks).pending)
            == tok_fold(concat_chunks(chunks)),
        feed(cfg, init_state(), chunks).chunks == chunks.len(),
    decreases chunks.len(),
{
    if chunks.len() == 0 {
        assert(normalize_seq(Seq::<char>::empty()) == Seq::<char>::empty());
    } else {
        lemma_feed_counts(cfg, chunks.drop_last());
        let pre = concat_chunks(chunks.drop_last());
        let c = chunks.last();
        lemma_normalize_concat(pre, c);
        lemma_cc_fold_from_concat(
            Seq::<(char, int)>::empty(),
            normalize_seq(pre),
            normalize_seq(c),
        );
        lemma_tok_fold_from_concat(
            (Seq::<(Seq<char>, int)>::empty(), Seq::<char>::empty()),
            pre,
            c,
        );
    }
}

/// Chunk-invariance of the aggregate signals: two ways of cutting the
/// same text into chunks give a report with the same entropy and the
/// same ranked words.
pub proof fn lemma_chunk_invariance_counts(cfg: CfgV, a: Seq<Seq<char>>, b: Seq<Seq<char>>)
    requires
        concat_chunks(a) == concat_chunks(b),
    ensures
        spec_finalize(cfg, feed(cfg, init_state(), a)).entropy == spec_finalize(
            cfg,
            feed(cfg, init_state(), b),
        ).entropy,
        spec_finalize(cfg, feed(cfg, init_state(), a)).top_words == spec_finalize(
            cfg,
            feed(cfg, init_state(), b),
        ).top_words,
{
    lemma_feed_counts(cfg, a);
    lemma_feed_counts(cfg, b);
    let sa = feed(cfg, init_state(), a);
    let sb = feed(cfg, init_state(), b);
    assert(sa.chars == sb.chars);
    assert(sa.words == sb.words && sa.pending == sb.pending);
}

// ---------------------------------------------------------------------
// Entropy bounds and insensitivity.
// ---------------------------------------------------------------------

/// Entropy is never negative.
pub proof fn lemma_entropy_nonnegative(es: Seq<(char, int)>)
    ensures
        crate::entropy::entropy_millibits_of(es) >= 0,
{
    let q = crate::entropy::entropy_q16_of(es);
    assert(q >= 0);
    assert(q * 1000 >= 0) by (nonlinear_arith)
        requires
            q >= 0,
    ;
    vstd::arithmetic::div_mod::lemma_div_pos_is_pos(q * 1000, 65536);
}

/// Lower-casing first changes nothing: normalization already folds
/// case, so entropy is case-insensitive.
pub proof fn lemma_normalize_case_insensitive(s: Seq<char>)
    ensures
        normalize_seq(s.map_values(|c: char| crate::textnorm::lower_char(c))) == normalize_seq(s),
    decreases s.len(),
{
    let m = s.map_values(|c: char| crate::textnorm::lower_char(c));
    if s.len() > 0 {
        lemma_normalize_case_insensitive(s.drop_last());
        assert(m.drop_last() =~= s.drop_last().map_values(
            |c: char| crate::textnorm::lower_char(c),
        ));
        let c = s.last();
        assert(m.last() == crate::textnorm::lower_char(c));
        assert(crate::textnorm::is_alnum(crate::textnorm::lower_char(c))
            == crate::textnorm::is_alnum(c));
        assert(crate::textnorm::lower_char(crate::textnorm::lower_char(c))
            == crate::textnorm::lower_char(c));
    } else {
        assert(m.len() == 0);
    }
}

/// Entropy is case-insensitive: the character table of the lower-cased
/// text is the table of the text itself.
pub proof fn lemma_entropy_case_insensitive(s: Seq<char>)
    ensures
        crate::entropy::entropy_millibits_of(
            cc_fold(normalize_seq(s.map_values(|c: char| crate::textnorm::lower_char(c)))),
        ) == crate::entropy::entropy_millibits_of(cc_fold(normalize_seq(s))),
{
    lemma_normalize_case_insensitive(s);
}

// ---------------------------------------------------------------------
// The ranking order.
// ---------------------------------------------------------------------

/// Lexicographic order is connex: one of the two directions always
/// holds.
pub proof fn lemma_lex_le_connex(a: Seq<char>, b: Seq<char>)
    ensures
        crate::frequency::lex_le(a, b) || crate::frequency::lex_le(b, a),
    decreases a.len(),
{
    if a.len() > 0 && b.len() > 0 {
        if a[0] == b[0] {
            lemma_lex_le_connex(a.drop_first(), b.drop_first());
        } else {
            vstd::utf8::char_u32_cast(a[0], a[0] as u32);
            vstd::utf8::char_u32_cast(b[0], b[0] as u32);
        }
    }
}

/// Lexicographic order is antisymmetric.
pub proof fn lemma_lex_le_antisym(a: Seq<char>, b: Seq<char>)
    requires
        crate::frequency::lex_le(a, b),
        crate::frequency::lex_le(b, a),
    ensures
        a == b,
    decreases a.len(),
{
    if a.len() == 0 {
        assert(b.len() == 0);
        assert(a =~= b);
    } else {
        assert(b.len() > 0);
        if a[0] != b[0] {
            vstd::utf8::char_u32_cast(a[0], a[0] as u32);
            vstd::utf8::char_u32_cast(b[0], b[0] as u32);
            assert(false);
        }
        lemma_lex_le_antisym(a.drop_first(), b.drop_first());
        assert(a =~= b) by {
            assert(a.drop_first() == b.drop_first());
            assert(forall|i: int|
                1 <= i < a.len() ==> #[trigger] a[i] == a.drop_first()[i - 1]);
            assert(forall|i: int|
                1 <= i < b.len() ==> #[trigger] b[i] == b.drop_first()[i - 1]);
        }
    }
}

/// Lexicographic order is transitive.
pub proof fn lemma_lex_le_trans(a: Seq<char>, b: Seq<char>, c: Seq<char>)
    requires
        crate::frequency::lex_le(a, b),
        crate::frequency::lex_le(b, c),
    ensures
        crate::frequency::lex_le(a, c),
    decreases a.len(),
{
    if a.len() > 0 && b.len() > 0 && c.len() > 0 {
        if a[0] == b[0] && b[0] == c[0] {
            lemma_lex_le_trans(a.drop_first(), b.drop_first(), c.drop_first());
        }
    }
}

/// The ranking order (count descending, ties by ascending token) is a
/// total order: any two entries are comparable, and two entries
/// ordered both ways are equal.
pub proof fn lemma_rank_le_total_ordering()
    ensures
        vstd::relations::total_ordering(
            |x: (Seq<char>, int), y: (Seq<char>, int)| crate::frequency::rank_le(x, y),
        ),
{
    let leq = |x: (Seq<char>, int), y: (Seq<char>, int)| crate::frequency::rank_le(x, y);
    assert forall|x: (Seq<char>, int), y: (Seq<char>, int)| #[trigger] leq(x, y) || #[trigger] leq(
        y,
        x,
    ) by {
        lemma_lex_le_connex(x.0, y.0);
    }
    assert forall|x: (Seq<char>, int), y: (Seq<char>, int)| #[trigger] leq(x, y) && #[trigger] leq(
        y,
        x,
    ) implies x == y by {
        lemma_lex_le_antisym(x.0, y.0);
    }
    assert forall|x: (Seq<char>, int), y: (Seq<char>, int), z: (Seq<char>, int)|
        #[trigger] leq(x, y) && #[trigger] leq(y, z) implies leq(x, z) by {
        if x.1 == y.1 && y.1 == z.1 {
            lemma_lex_le_trans(x.0, y.0, z.0);
        }
    }
    assert forall|x: (Seq<char>, int)| #[trigger] leq(x, x) by {
        lemma_lex_le_connex(x.0, x.0);
    }
}

/// Inserting under the ranking order keeps a ranked list ranked.
pub proof fn lemma_insert_ranked_sorted(es: Seq<(Seq<char>, int)>, x: (Seq<char>, int))
    requires
        vstd::relations::sorted_by(
            es,
            |a: (Seq<char>, int), b: (Seq<char>, int)| crate::frequency::rank_le(a, b),
        ),
    ensures
        vstd::relations::sorted_by(
            crate::frequency::insert_ranked(es, x),
            |a: (Seq<char>, int), b: (Seq<char>, int)| crate::frequency::rank_le(a, b),
        ),
    decreases es.len(),
{
    let leq = |a: (Seq<char>, int), b: (Seq<char>, int)| crate::frequency::rank_le(a, b);
    let out = crate::frequency::insert_ranked(es, x);
    if es.len() == 0 {
        assert(vstd::relations::sorted_by(out, leq));
    } else if crate::frequency::rank_le(x, es.first()) {
        assert(out == seq![x] + es);
        assert forall|i: int, j: int| 0 <= i < j < out.len() implies leq(out[i], out[j]) by {
            if i == 0 {
                if j == 1 {
                    assert(out[1] == es[0]);
                } else {
                    assert(out[j] == es[j - 1]);
                    assert(leq(es[0], es[j - 1]));
                    lemma_rank_le_total_ordering();
                    lemma_lex_le_trans_rank(x, es[0], es[j - 1]);
                }
            } else {
                assert(out[i] == es[i - 1] && out[j] == es[j - 1]);
            }
        }
    } else {
        assert(vstd::relations::sorted_by(es.drop_first(), leq)) by {
            assert(forall|i: int, j: int|
                0 <= i < j < es.drop_first().len() ==> leq(
                    #[trigger] es.drop_first()[i],
                    #[trigger] es.drop_first()[j],
                ));
        }
        lemma_insert_ranked_sorted(es.drop_first(), x);
        let inner = crate::frequency::insert_ranked(es.drop_first(), x);
        assert(out == seq![es.first()] + inner);
        // The head precedes everything inside.
        lemma_lex_le_connex(x.0, es.first().0);
        assert(crate::frequency::rank_le(es.first(), x)) by {
            lemma_lex_le_connex(x.0, es.first().0);
        }
        assert forall|i: int|
            0 <= i < es.drop_first().len() implies crate::frequency::rank_le(
            es.first(),
            #[trigger] es.drop_first()[i],
        ) by {
            assert(es.drop_first()[i] == es[i + 1]);
            assert(leq(es[0], es[i + 1]));
        }
        assert forall|i: int, j: int| 0 <= i < j < out.len() implies leq(out[i], out[j]) by {
            if i == 0 {
                assert(out[j] == inner[j - 1]);
                lemma_insert_ranked_head_bound(es.drop_first(), x, es.first(), j - 1);
            } else {
                assert(out[i] == inner[i - 1] && out[j] == inner[j - 1]);
            }
        }
    }
}

/// A lower bound below a ranked list and the inserted entry stays a
/// lower bound of the insertion.
proof fn lemma_insert_ranked_head_bound(
    es: Seq<(Seq<char>, int)>,
    x: (Seq<char>, int),
    h: (Seq<char>, int),
    j: int,
)
    requires
        crate::frequency::rank_le(h, x),
        forall|i: int| 0 <= i < es.len() ==> crate::frequency::rank_le(h, #[trigger] es[i]),
        0 <= j < crate::frequency::insert_ranked(es, x).len(),
    ensures
        crate::frequency::rank_le(h, crate::frequency::insert_ranked(es, x)[j]),
    decreases es.len(),
{
    let out = crate::frequency::insert_ranked(es, x);
    if es.len() == 0 {
        assert(out[j] == x);
    } else if crate::frequency::rank_le(x, es.first()) {
        if j == 0 {
            assert(out[0] == x);
        } else {
            assert(out[j] == es[j - 1]);
        }
    } else {
        if j == 0 {
            assert(out[0] == es.first());
        } else {
            assert(out[j] == crate::frequency::insert_ranked(es.drop_first(), x)[j - 1]);
            assert(forall|i: int|
                0 <= i < es.drop_first().len() ==> crate::frequency::rank_le(
                    h,
                    #[trigger] es.drop_first()[i],
                ));
            lemma_insert_ranked_head_bound(es.drop_first(), x, h, j - 1);
        }
    }
}

/// Transitivity of the ranking order, as a lemma on entries.
proof fn lemma_lex_le_trans_rank(x: (Seq<char>, int), y: (Seq<char>, int), z: (Seq<char>, int))
    requires
        crate::frequency::rank_le(x, y),
        crate::frequency::rank_le(y, z),
    ensures
        crate::frequency::rank_le(x, z),
{
    if x.1 == y.1 && y.1 == z.1 {
        lemma_lex_le_trans(x.0, y.0, z.0);
    }
}

/// The ranking sort really ranks: its output is sorted under the
/// ranking order (and, by `lemma_sort_ranked_wf_total`, holds exactly
/// the entries it was given).
pub proof fn lemma_sort_ranked_sorted(es: Seq<(Seq<char>, int)>)
    ensures
        vstd::relations::sorted_by(
            crate::frequency::sort_ranked(es),
            |a: (Seq<char>, int), b: (Seq<char>, int)| crate::frequency::rank_le(a, b),
        ),
    decreases es.len(),
{
    if es.len() > 0 {
        lemma_sort_ranked_sorted(es.drop_last());
        lemma_insert_ranked_sorted(crate::frequency::sort_ranked(es.drop_last()), es.last());
    }
}

// ---------------------------------------------------------------------
// Locality of phrase matching.
// ---------------------------------------------------------------------

/// A phrase match reads only the characters from one before to one
/// after its span, so matching in a window equals matching in the
/// whole stream, as long as the character before the span is in the
/// window too (or the span starts the stream).
pub proof fn lemma_shift_phrase_match(pre: Seq<char>, win: Seq<char>, ph: Seq<char>, p: int)
    requires
        0 <= p,
        p >= 1 || pre.len() == 0,
    ensures
        phrase_match_at(pre + win, ph, pre.len() + p) == phrase_match_at(win, ph, p),
{
    let s = pre + win;
    let q = pre.len() + p;
    assert(s.len() == pre.len() + win.len());
    assert(forall|i: int| 0 <= i < win.len() ==> s[pre.len() + i] == win[i]);
    if phrase_match_at(win, ph, p) {
        assert forall|j: int| 0 <= j < ph.len() implies crate::textnorm::lower_char(
            #[trigger] s[q + j],
        ) == crate::textnorm::lower_char(ph[j]) by {
            assert(s[q + j] == win[p + j]);
        }
        if q > 0 {
            if p > 0 {
                assert(s[q - 1] == win[p - 1]);
            }
        }
        if q + ph.len() < s.len() {
            assert(s[q + ph.len()] == win[p + ph.len()]);
        }
        assert(phrase_match_at(s, ph, q));
    }
    if phrase_match_at(s, ph, q) {
        assert forall|j: int| 0 <= j < ph.len() implies crate::textnorm::lower_char(
            #[trigger] win[p + j],
        ) == crate::textnorm::lower_char(ph[j]) by {
            assert(s[q + j] == win[p + j]);
        }
        if p > 0 {
            assert(s[q - 1] == win[p - 1]);
        }
        if p + ph.len() < win.len() {
            assert(s[q + ph.len()] == win[p + ph.len()]);
        }
        assert(phrase_match_at(win, ph, p));
    }
}

/// A phrase match that ends strictly inside the stream is unaffected
/// by anything appended later.
pub proof fn lemma_phrase_match_stable(s: Seq<char>, ext: Seq<char>, ph: Seq<char>, p: int)
    requires
        0 <= p,
        p + ph.len() < s.len(),
    ensures
        phrase_match_at(s, ph, p) == phrase_match_at(s + ext, ph, p),
{
    let t = s + ext;
    assert(forall|i: int| 0 <= i < s.len() ==> t[i] == s[i]);
    if phrase_match_at(s, ph, p) {
        assert forall|j: int| 0 <= j < ph.len() implies crate::textnorm::lower_char(
            #[trigger] t[p + j],
        ) == crate::textnorm::lower_char(ph[j]) by {
            assert(t[p + j] == s[p + j]);
        }
        assert(!crate::textnorm::is_alnum(s[p + ph.len()]));
        assert(t[p + ph.len()] == s[p + ph.len()]);
        if p > 0 {
            assert(t[p - 1] == s[p - 1]);
        }
        assert(phrase_match_at(t, ph, p));
    }
    if phrase_match_at(t, ph, p) {
        assert forall|j: int| 0 <= j < ph.len() implies crate::textnorm::lower_char(
            #[trigger] s[p + j],
        ) == crate::textnorm::lower_char(ph[j]) by {
            assert(t[p + j] == s[p + j]);
        }
        assert(t[p + ph.len()] == s[p + ph.len()]);
        if p > 0 {
            assert(t[p - 1] == s[p - 1]);
        }
        assert(phrase_match_at(s, ph, p));
    }
}

/// Every phrase of the list is at most the longest.
pub proof fn lemma_phrase_le_max(phs: Seq<Seq<char>>, k: int)
    requires
        0 <= k < phs.len(),
    ensures
        phs[k].len() <= crate::streaming::max_phrase_len(phs),
    decreases k,
{
    if k == 0 {
    } else {
        lemma_phrase_le_max(phs.drop_first(), k - 1);
        assert(phs.drop_first()[k - 1] == phs[k]);
    }
}

/// Membership in the committed matches of a window scan: exactly the
/// window matches of a listed phrase whose span end lies in the
/// bounds, at shifted positions.
pub proof fn lemma_phrase_commits_member(
    win: Seq<char>,
    phs: Seq<Seq<char>>,
    lo: int,
    hi: int,
    off: int,
    ph: Seq<char>,
    g: int,
)
    ensures
        (exists|i: int|
            0 <= i < phrase_commits(win, phs, lo, hi, off).len()
                && (#[trigger] phrase_commits(win, phs, lo, hi, off)[i]).0 == ph
                && phrase_commits(win, phs, lo, hi, off)[i].1 == g) <==> ((exists|k: int|
            0 <= k < phs.len() && phs[k] == ph) && phrase_match_at(win, ph, g - off) && lo <= g
            - off + ph.len() <= hi),
    decreases phs.len(),
{
    let cs = phrase_commits(win, phs, lo, hi, off);
    if phs.len() == 0 {
        assert(!(exists|i: int|
            0 <= i < cs.len() && (#[trigger] cs[i]).0 == ph && cs[i].1 == g));
    } else {
        lemma_phrase_commits_member(win, phs.drop_first(), lo, hi, off, ph, g);
        let head = phrase_commits_one(win, phs[0], lo, hi, off);
        let rest = phrase_commits(win, phs.drop_first(), lo, hi, off);
        assert(cs == head + rest);
        let kept = keep_ends(phrase_positions(win, phs[0], 0), phs[0].len() as int, lo, hi);
        // Membership in the head: a kept position of the first phrase.
        lemma_keep_ends_iff(phrase_positions(win, phs[0], 0), phs[0].len() as int, lo, hi, g - off);
        lemma_phrase_positions_iff(win, phs[0], 0, g - off);
        if exists|i: int| 0 <= i < cs.len() && (#[trigger] cs[i]).0 == ph && cs[i].1 == g {
            let i = choose|i: int|
                0 <= i < cs.len() && (#[trigger] cs[i]).0 == ph && cs[i].1 == g;
            if i < head.len() {
                assert(head[i] == cs[i]);
                assert(head[i].0 == phs[0] && head[i].1 == kept[i] + off);
                assert(kept.contains(kept[i]));
                assert(ph == phs[0]);
                assert(phrase_match_at(win, ph, g - off) && lo <= g - off + ph.len() <= hi);
            } else {
                assert(rest[i - head.len()] == cs[i]);
                assert(exists|j: int|
                    0 <= j < rest.len() && (#[trigger] rest[j]).0 == ph && rest[j].1 == g) by {
                    assert(rest[i - head.len()].0 == ph && rest[i - head.len()].1 == g);
                }
                let k = choose|k: int| 0 <= k < phs.drop_first().len() && phs.drop_first()[k] == ph;
                assert(phs[k + 1] == ph);
            }
        }
        if (exists|k: int| 0 <= k < phs.len() && phs[k] == ph) && phrase_match_at(win, ph, g - off)
            && lo <= g - off + ph.len() <= hi {
            let k = choose|k: int| 0 <= k < phs.len() && phs[k] == ph;
            if phs[0] == ph {
                assert(kept.contains(g - off));
                let j = choose|j: int| 0 <= j < kept.len() && kept[j] == g - off;
                assert(head[j].0 == ph && head[j].1 == g);
                assert(cs[j] == head[j]);
            } else {
                assert(k >= 1);
                assert(phs.drop_first()[k - 1] == ph);
                assert(exists|i: int|
                    0 <= i < rest.len() && (#[trigger] rest[i]).0 == ph && rest[i].1 == g);
                let i = choose|i: int|
                    0 <= i < rest.len() && (#[trigger] rest[i]).0 == ph && rest[i].1 == g;
                assert(cs[head.len() + i] == rest[i]);
            }
        }
    }
}

// ---------------------------------------------------------------------
// Chunk invariance of the phrase match set.
// ---------------------------------------------------------------------

/// The (phrase, global position) pairs of a match list.
pub open spec fn phrase_pair_set(ms: Seq<(Seq<char>, int, Seq<char>)>) -> Set<(Seq<char>, int)> {
    Set::new(
        |t: (Seq<char>, int)|
            exists|i: int|
                0 <= i < ms.len() && (#[trigger] ms[i]).0 == t.0 && ms[i].1 == t.1,
    )
}

/// The matches of a whole stream whose span end lies in `[lo, hi]`:
/// pairs of a listed phrase and the position where it stands
/// case-insensitively on word boundaries.
pub open spec fn decided_phrases(s: Seq<char>, phs: Seq<Seq<char>>, lo: int, hi: int) -> Set<
    (Seq<char>, int),
> {
    Set::new(
        |t: (Seq<char>, int)|
            (exists|k: int| 0 <= k < phs.len() && phs[k] == t.0) && phrase_match_at(s, t.0, t.1)
                && lo <= t.1 + t.0.len() <= hi,
    )
}

/// The streaming invariant behind exact boundary handling: the carry
/// is the longest-needed suffix of the stream, and the committed
/// matches are exactly the stream matches that end strictly inside
/// the stream.
pub open spec fn phrases_inv(cfg: CfgV, st: AStateG) -> bool {
    &&& st.carry.len() == (if carry_cap(cfg.phrases) <= st.stream.len() {
        carry_cap(cfg.phrases)
    } else {
        st.stream.len() as int
    })
    &&& st.carry == st.stream.subrange(
        st.stream.len() - st.carry.len(),
        st.stream.len() as int,
    )
    &&& phrase_pair_set(st.phrases) == decided_phrases(
        st.stream,
        cfg.phrases,
        0,
        st.stream.len() - 1,
    )
}

/// One step preserves the invariant: the window scan commits exactly
/// the matches that became decided with this chunk.
pub proof fn lemma_step_phrases(cfg: CfgV, st: AStateG, chunk: Seq<char>, nbytes: int)
    requires
        phrases_inv(cfg, st),
    ensures
        phrases_inv(cfg, spec_step(cfg, st, chunk, nbytes)),
{
    let st2 = spec_step(cfg, st, chunk, nbytes);
    let win = st.carry + chunk;
    let off = st.stream.len() - st.carry.len();
    let lo = st.carry.len() as int;
    let hi = if win.len() == 0 {
        0int
    } else {
        win.len() - 1
    };
    let cap = carry_cap(cfg.phrases);
    let s2 = st.stream + chunk;
    let prefix = st.stream.subrange(0, off);
    assert(prefix + win =~= s2);
    assert(st2.stream == s2);
    // The new carry is again the longest-needed suffix.
    let k = if cap <= win.len() {
        cap
    } else {
        win.len() as int
    };
    assert(st2.carry == win.subrange(win.len() - k, win.len() as int));
    assert(st2.carry.len() == k);
    if cap <= win.len() {
        assert(k == cap);
        assert(cap <= s2.len());
    } else {
        // The carry was the whole stream, so the window is the whole
        // new stream.
        assert(st.carry.len() == st.stream.len());
        assert(win.len() == s2.len());
        assert(k == s2.len());
    }
    assert(st2.carry.len() == (if cap <= s2.len() {
        cap
    } else {
        s2.len() as int
    }));
    assert(st2.carry =~= s2.subrange(s2.len() - k, s2.len() as int)) by {
        assert(forall|i: int|
            0 <= i < win.len() ==> #[trigger] win[i] == s2[off + i]);
        assert(forall|i: int|
            0 <= i < k ==> st2.carry[i] == win[win.len() - k + i]
                && s2.subrange(s2.len() - k, s2.len() as int)[i] == s2[s2.len() - k + i]);
    }
    // The committed set advances to "everything decided in the new
    // stream".
    let pairs2 = phrase_pair_set(st2.phrases);
    let want = decided_phrases(s2, cfg.phrases, 0, s2.len() - 1);
    let cs = phrase_commits(win, cfg.phrases, lo, hi, off);
    assert(st2.phrases == st.phrases + cs);
    assert forall|t: (Seq<char>, int)| pairs2.contains(t) implies want.contains(t) by {
        let i = choose|i: int|
            0 <= i < st2.phrases.len() && (#[trigger] st2.phrases[i]).0 == t.0
                && st2.phrases[i].1 == t.1;
        if i < st.phrases.len() {
            assert(st2.phrases[i] == st.phrases[i]);
            assert(phrase_pair_set(st.phrases).contains(t)) by {
                assert(st.phrases[i].0 == t.0 && st.phrases[i].1 == t.1);
            }
            assert(decided_phrases(st.stream, cfg.phrases, 0, st.stream.len() - 1).contains(t));
            lemma_phrase_match_stable(st.stream, chunk, t.0, t.1);
        } else {
            assert(cs[i - st.phrases.len()] == st2.phrases[i]);
            assert(exists|j: int|
                0 <= j < cs.len() && (#[trigger] cs[j]).0 == t.0 && cs[j].1 == t.1) by {
                assert(cs[i - st.phrases.len()].0 == t.0 && cs[i - st.phrases.len()].1 == t.1);
            }
            lemma_phrase_commits_member(win, cfg.phrases, lo, hi, off, t.0, t.1);
            let kk = choose|kk: int| 0 <= kk < cfg.phrases.len() && cfg.phrases[kk] == t.0;
            lemma_phrase_le_max(cfg.phrases, kk);
            assert(t.0.len() <= max_phrase_len(cfg.phrases));
            if off > 0 {
                assert(st.carry.len() == cap);
                assert(t.1 - off >= lo - t.0.len());
                assert(t.1 - off >= 1);
            } else {
                assert(prefix.len() == 0);
            }
            lemma_shift_phrase_match(prefix, win, t.0, t.1 - off);
            assert(phrase_match_at(prefix + win, t.0, t.1));
            assert(phrase_match_at(s2, t.0, t.1));
        }
    }
    assert forall|t: (Seq<char>, int)| want.contains(t) implies pairs2.contains(t) by {
        let g = t.1;
        let len = t.0.len() as int;
        if g + len <= st.stream.len() - 1 {
            lemma_phrase_match_stable(st.stream, chunk, t.0, g);
            assert(decided_phrases(st.stream, cfg.phrases, 0, st.stream.len() - 1).contains(t));
            assert(phrase_pair_set(st.phrases).contains(t));
            let i = choose|i: int|
                0 <= i < st.phrases.len() && (#[trigger] st.phrases[i]).0 == t.0
                    && st.phrases[i].1 == t.1;
            assert(st2.phrases[i] == st.phrases[i]);
            assert(pairs2.contains(t)) by {
                assert(st2.phrases[i].0 == t.0 && st2.phrases[i].1 == t.1);
            }
        } else {
            // Newly decided: ends inside the window range.
            assert(g + len >= st.stream.len());
            assert(g + len <= s2.len() - 1);
            let kk = choose|kk: int| 0 <= kk < cfg.phrases.len() && cfg.phrases[kk] == t.0;
            lemma_phrase_le_max(cfg.phrases, kk);
            if off > 0 {
                assert(st.carry.len() == cap);
                assert(g - off >= 1);
            } else {
                assert(prefix.len() == 0);
            }
            assert(g - off >= 0);
            lemma_shift_phrase_match(prefix, win, t.0, g - off);
            assert(phrase_match_at(prefix + win, t.0, g));
            assert(phrase_match_at(win, t.0, g - off));
            assert(lo <= g - off + len <= hi);
            lemma_phrase_commits_member(win, cfg.phrases, lo, hi, off, t.0, g);
            let j = choose|j: int|
                0 <= j < cs.len() && (#[trigger] cs[j]).0 == t.0 && cs[j].1 == g;
            assert(st2.phrases[st.phrases.len() + j] == cs[j]);
            assert(pairs2.contains(t)) by {
                assert(st2.phrases[st.phrases.len() + j].0 == t.0
                    && st2.phrases[st.phrases.len() + j].1 == t.1);
            }
        }
    }
    assert(pairs2 =~= want);
}

/// The invariant holds after feeding any chunk sequence from a fresh
/// state.
pub proof fn lemma_feed_phrases(cfg: CfgV, chunks: Seq<Seq<char>>)
    ensures
        phrases_inv(cfg, feed(cfg, init_state(), chunks)),
    decreases chunks.len(),
{
    if chunks.len() == 0 {
        let st = init_state();
        assert(st.carry =~= st.stream.subrange(0, 0));
        assert(phrase_pair_set(st.phrases) =~= decided_phrases(st.stream, cfg.phrases, 0, -1))
            by {
            assert forall|t: (Seq<char>, int)|
                !(#[trigger] decided_phrases(st.stream, cfg.phrases, 0, -1).contains(t)) by {
                if phrase_match_at(st.stream, t.0, t.1) {
                    assert(false);
                }
            }
            assert forall|t: (Seq<char>, int)|
                !(#[trigger] phrase_pair_set(st.phrases).contains(t)) by {
            }
        }
    } else {
        lemma_feed_phrases(cfg, chunks.drop_last());
        lemma_step_phrases(
            cfg,
            feed(cfg, init_state(), chunks.drop_last()),
            chunks.last(),
            chunks.last().len() as int,
        );
    }
}

/// The report's match set is exactly the match set of the whole
/// stream: the committed matches plus the tail scan cover every
/// position.
pub proof fn lemma_finalize_phrase_set(cfg: CfgV, st: AStateG)
    requires
        phrases_inv(cfg, st),
    ensures
        phrase_pair_set(spec_finalize(cfg, st).phrases) == decided_phrases(
            st.stream,
            cfg.phrases,
            0,
            st.stream.len() as int,
        ),
{
    let off = st.stream.len() - st.carry.len();
    let tlo = st.carry.len() as int;
    let cap = carry_cap(cfg.phrases);
    let prefix = st.stream.subrange(0, off);
    assert(prefix + st.carry =~= st.stream);
    let tail = phrase_commits(st.carry, cfg.phrases, tlo, tlo, off);
    let all = spec_finalize(cfg, st).phrases;
    assert(all == st.phrases + tail);
    let want = decided_phrases(st.stream, cfg.phrases, 0, st.stream.len() as int);
    assert forall|t: (Seq<char>, int)| phrase_pair_set(all).contains(t) implies want.contains(
        t,
    ) by {
        let i = choose|i: int|
            0 <= i < all.len() && (#[trigger] all[i]).0 == t.0 && all[i].1 == t.1;
        if i < st.phrases.len() {
            assert(phrase_pair_set(st.phrases).contains(t)) by {
                assert(st.phrases[i].0 == t.0 && st.phrases[i].1 == t.1);
            }
            assert(decided_phrases(st.stream, cfg.phrases, 0, st.stream.len() - 1).contains(t));
        } else {
            assert(tail[i - st.phrases.len()] == all[i]);
            assert(exists|j: int|
                0 <= j < tail.len() && (#[trigger] tail[j]).0 == t.0 && tail[j].1 == t.1) by {
                assert(tail[i - st.phrases.len()].0 == t.0 && tail[i - st.phrases.len()].1
                    == t.1);
            }
            lemma_phrase_commits_member(st.carry, cfg.phrases, tlo, tlo, off, t.0, t.1);
            let kk = choose|kk: int| 0 <= kk < cfg.phrases.len() && cfg.phrases[kk] == t.0;
            lemma_phrase_le_max(cfg.phrases, kk);
            if off > 0 {
                assert(st.carry.len() == cap);
                assert(t.1 - off >= 1);
            } else {
                assert(prefix.len() == 0);
            }
            lemma_shift_phrase_match(prefix, st.carry, t.0, t.1 - off);
            assert(phrase_match_at(st.stream, t.0, t.1));
        }
    }
    assert forall|t: (Seq<char>, int)| want.contains(t) implies phrase_pair_set(all).contains(
        t,
    ) by {
        let g = t.1;
        let len = t.0.len() as int;
        if g + len <= st.stream.len() - 1 {
            assert(phrase_pair_set(st.phrases).contains(t));
            let i = choose|i: int|
                0 <= i < st.phrases.len() && (#[trigger] st.phrases[i]).0 == t.0
                    && st.phrases[i].1 == t.1;
            assert(all[i] == st.phrases[i]);
            assert(phrase_pair_set(all).contains(t)) by {
                assert(all[i].0 == t.0 && all[i].1 == t.1);
            }
        } else {
            // Ends exactly at the stream end: the tail scan finds it.
            assert(g + len == st.stream.len());
            let kk = choose|kk: int| 0 <= kk < cfg.phrases.len() && cfg.phrases[kk] == t.0;
            lemma_phrase_le_max(cfg.phrases, kk);
            if off > 0 {
                assert(st.carry.len() == cap);
                assert(g - off >= 1);
            } else {
                assert(prefix.len() == 0);
            }
            assert(g - off >= 0);
            lemma_shift_phrase_match(prefix, st.carry, t.0, g - off);
            assert(phrase_match_at(st.carry, t.0, g - off));
            assert(tlo <= g - off + len <= tlo);
            lemma_phrase_commits_member(st.carry, cfg.phrases, tlo, tlo, off, t.0, g);
            let j = choose|j: int|
                0 <= j < tail.len() && (#[trigger] tail[j]).0 == t.0 && tail[j].1 == g;
            assert(all[st.phrases.len() + j] == tail[j]);
            assert(phrase_pair_set(all).contains(t)) by {
                assert(all[st.phrases.len() + j].0 == t.0 && all[st.phrases.len() + j].1 == t.1);
            }
        }
    }
    assert(phrase_pair_set(all) =~= want);
}

/// Chunk invariance of phrase matching: however the same text is cut
/// into chunks, the report holds the same set of (phrase, position)
/// matches.
pub proof fn lemma_chunk_invariance_phrases(cfg: CfgV, a: Seq<Seq<char>>, b: Seq<Seq<char>>)
    requires
        concat_chunks(a) == concat_chunks(b),
    ensures
        phrase_pair_set(spec_finalize(cfg, feed(cfg, init_state(), a)).phrases)
            == phrase_pair_set(spec_finalize(cfg, feed(cfg, init_state(), b)).phrases),
{
    lemma_feed_counts(cfg, a);
    lemma_feed_counts(cfg, b);
    lemma_feed_phrases(cfg, a);
    lemma_feed_phrases(cfg, b);
    lemma_finalize_phrase_set(cfg, feed(cfg, init_state(), a));
    lemma_finalize_phrase_set(cfg, feed(cfg, init_state(), b));
}

// ---------------------------------------------------------------------
// Locality of the bounded PII detectors (every kind but email).
// ---------------------------------------------------------------------

/// A digit run is pinned down by a digit block and its stop: `r`
/// digits followed by the cap, the end, or a non-digit.
proof fn lemma_digit_run_eq(t: Seq<char>, a: int, cap: int, r: int)
    requires
        0 <= r <= cap,
        0 <= a,
        digits_at(t, a, r),
        r < cap ==> (a + r >= t.len() || !crate::pii::is_digit(t[a + r])),
    ensures
        digit_run(t, a, cap) == r,
    decreases r,
{
    if r == 0 {
        if cap > 0 && a < t.len() && crate::pii::is_digit(t[a]) {
            assert(false);
        }
    } else {
        assert(crate::pii::is_digit(t[a + 0]));
        assert(a < t.len());
        assert(digits_at(t, a + 1, r - 1)) by {
            assert(forall|j: int|
                0 <= j < r - 1 ==> #[trigger] t[(a + 1) + j] == t[a + (j + 1)]);
            assert(forall|j: int|
                0 <= j < r - 1 ==> crate::pii::is_digit(#[trigger] t[a + (j + 1)]));
        }
        lemma_digit_run_eq(t, a + 1, cap - 1, r - 1);
    }
}

/// Conversely, a digit run is a digit block with a stop.
proof fn lemma_digit_run_inv(t: Seq<char>, a: int, cap: int)
    requires
        0 <= a <= t.len(),
        0 <= cap,
    ensures
        digits_at(t, a, digit_run(t, a, cap)),
        digit_run(t, a, cap) < cap ==> (a + digit_run(t, a, cap) >= t.len()
            || !crate::pii::is_digit(t[a + digit_run(t, a, cap)])),
    decreases cap,
{
    crate::pii::lemma_digit_run_le(t, a, cap);
    let r = digit_run(t, a, cap);
    if !(cap <= 0 || a >= t.len() || !crate::pii::is_digit(t[a])) {
        lemma_digit_run_inv(t, a + 1, cap - 1);
        let r1 = digit_run(t, a + 1, cap - 1);
        assert(r == 1 + r1);
        assert(digits_at(t, a + 1, r1));
        assert forall|j: int| 0 <= j < r implies crate::pii::is_digit(#[trigger] t[a + j]) by {
            if j >= 1 {
                assert(crate::pii::is_digit(t[(a + 1) + (j - 1)]));
            }
        }
    }
}

/// The bounded detectors agree between a stream and its window
/// whenever the tails are aligned: every read maps one to one.
#[verifier::rlimit(100)]
proof fn lemma_pii_try_shift(pre: Seq<char>, win: Seq<char>, kind: PIIKind, p: int)
    requires
        kind != PIIKind::Email,
        0 <= p <= win.len(),
        p >= 1 || pre.len() == 0,
    ensures
        pii_try(pre + win, kind, pre.len() + p) == pii_try(win, kind, p),
{
    let s = pre + win;
    let off = pre.len() as int;
    let q = off + p;
    assert(s.len() == off + win.len());
    assert(forall|i: int| off <= i < s.len() ==> (#[trigger] s[i]) == win[i - off]);
    // Blocks of digits map across.
    assert forall|a2: int, n: int|
        off <= a2 && 0 <= n implies #[trigger] digits_at(s, a2, n) == digits_at(
        win,
        a2 - off,
        n,
    ) by {
        let a = a2 - off;
        if digits_at(s, a2, n) {
            assert(a + n <= win.len());
            assert forall|j: int| 0 <= j < n implies crate::pii::is_digit(
                #[trigger] win[a + j],
            ) by {
                assert(crate::pii::is_digit(s[a2 + j]));
                assert(s[a2 + j] == win[(a2 + j) - off]);
            }
        }
        if digits_at(win, a, n) {
            assert forall|j: int| 0 <= j < n implies crate::pii::is_digit(
                #[trigger] s[a2 + j],
            ) by {
                assert(s[a2 + j] == win[(a2 + j) - off]);
                assert(crate::pii::is_digit(win[a + j]));
            }
        }
    }
    // Runs map across.
    assert forall|a2: int| off <= a2 <= s.len() implies #[trigger] digit_run(s, a2, 4)
        == digit_run(win, a2 - off, 4) by {
        let a = a2 - off;
        lemma_digit_run_inv(win, a, 4);
        crate::pii::lemma_digit_run_le(win, a, 4);
        let r = digit_run(win, a, 4);
        assert(digits_at(s, a2, r));
        if r < 4 {
            if a + r < win.len() {
                assert(s[a2 + r] == win[(a2 + r) - off]);
            }
        }
        lemma_digit_run_eq(s, a2, 4, r);
    }
    // Subranges map across.
    assert forall|x2: int, y2: int|
        off <= x2 <= y2 <= s.len() implies #[trigger] s.subrange(x2, y2) =~= win.subrange(
        x2 - off,
        y2 - off,
    ) by {
    }
    // Boundaries map across.
    assert(crate::pii::bnd_before(s, q) == crate::pii::bnd_before(win, p)) by {
        if p >= 1 {
            let i = q - 1;
            assert(s[i] == win[i - off]);
        }
    }
    assert forall|e2: int| q <= e2 <= s.len() implies #[trigger] crate::pii::bnd_after(s, e2)
        == crate::pii::bnd_after(win, e2 - off) by {
        if e2 < s.len() {
            assert(s[e2] == win[e2 - off]);
        }
    }
    match kind {
        PIIKind::Phone => {
            assert(phone_try(s, q) == phone_try(win, p));
        },
        PIIKind::Ssn => {
            assert(ssn_try(s, q) == ssn_try(win, p));
        },
        PIIKind::CreditCard => {
            assert(card_try(s, q) == card_try(win, p));
        },
        PIIKind::IpAddress => {
            if crate::pii::bnd_before(win, p) {
                let r1 = digit_run(win, p, 4);
                assert(digit_run(s, q, 4) == r1);
                crate::pii::lemma_digit_run_le(win, p, 4);
                if 1 <= r1 <= 3 && p + r1 < win.len() && win[p + r1] == '.' {
                    assert(s[q + r1] == win[(q + r1) - off]);
                    let a2 = p + r1 + 1;
                    let r2 = digit_run(win, a2, 4);
                    assert(digit_run(s, off + a2, 4) == r2);
                    crate::pii::lemma_digit_run_le(win, a2, 4);
                    if 1 <= r2 <= 3 && a2 + r2 < win.len() && win[a2 + r2] == '.' {
                        assert(s[off + a2 + r2] == win[(off + a2 + r2) - off]);
                        let a3 = a2 + r2 + 1;
                        let r3 = digit_run(win, a3, 4);
                        assert(digit_run(s, off + a3, 4) == r3);
                        crate::pii::lemma_digit_run_le(win, a3, 4);
                        if 1 <= r3 <= 3 && a3 + r3 < win.len() && win[a3 + r3] == '.' {
                            assert(s[off + a3 + r3] == win[(off + a3 + r3) - off]);
                            let a4 = a3 + r3 + 1;
                            let r4 = digit_run(win, a4, 4);
                            assert(digit_run(s, off + a4, 4) == r4);
                            crate::pii::lemma_digit_run_le(win, a4, 4);
                            if 1 <= r4 <= 3 && crate::pii::bnd_after(win, a4 + r4) {
                                assert(crate::pii::bnd_after(s, off + a4 + r4));
                                assert(s.subrange(q, q + r1) =~= win.subrange(p, p + r1));
                                assert(s.subrange(off + a2, off + a2 + r2) =~= win.subrange(
                                    a2,
                                    a2 + r2,
                                ));
                                assert(s.subrange(off + a3, off + a3 + r3) =~= win.subrange(
                                    a3,
                                    a3 + r3,
                                ));
                                assert(s.subrange(off + a4, off + a4 + r4) =~= win.subrange(
                                    a4,
                                    a4 + r4,
                                ));
                            }
                        }
                    }
                }
            }
            assert(ip_try(s, q) == ip_try(win, p));
        },
        PIIKind::Email => {},
    }
}

/// A bounded detector whose span ends strictly inside the stream is
/// unaffected by anything appended later, in both directions.
proof fn lemma_pii_try_prefix(s: Seq<char>, ext: Seq<char>, kind: PIIKind, p: int, l: int, c: int)
    requires
        kind != PIIKind::Email,
        0 <= p,
        1 <= l,
        p + l < s.len(),
    ensures
        pii_try(s, kind, p) == Some((l, c)) ==> pii_try(s + ext, kind, p) == Some((l, c)),
        pii_try(s + ext, kind, p) == Some((l, c)) ==> pii_try(s, kind, p) == Some((l, c)),
{
    let t = s + ext;
    assert(forall|i: int| 0 <= i < s.len() ==> (#[trigger] t[i]) == s[i]);
    // Digit blocks that fit in the prefix agree.
    assert forall|a: int, n: int|
        0 <= a && 0 <= n && a + n <= s.len() implies #[trigger] digits_at(s, a, n) == digits_at(
        t,
        a,
        n,
    ) by {
        if digits_at(s, a, n) {
            assert forall|j: int| 0 <= j < n implies crate::pii::is_digit(#[trigger] t[a + j]) by {
                assert(crate::pii::is_digit(s[a + j]));
            }
        }
        if digits_at(t, a, n) {
            assert forall|j: int| 0 <= j < n implies crate::pii::is_digit(#[trigger] s[a + j]) by {
                assert(crate::pii::is_digit(t[a + j]));
            }
        }
    }
    // Runs that stop strictly inside the prefix agree.
    assert forall|a: int|
        0 <= a <= s.len() && #[trigger] digit_run(s, a, 4) < 4 && a + digit_run(s, a, 4)
            < s.len() implies digit_run(t, a, 4) == digit_run(s, a, 4) by {
        lemma_digit_run_inv(s, a, 4);
        crate::pii::lemma_digit_run_le(s, a, 4);
        let r = digit_run(s, a, 4);
        assert(t[a + r] == s[a + r]);
        lemma_digit_run_eq(t, a, 4, r);
    }
    assert forall|a: int|
        0 <= a <= s.len() && #[trigger] digit_run(t, a, 4) < 4 && a + digit_run(t, a, 4)
            < s.len() implies digit_run(t, a, 4) == digit_run(s, a, 4) by {
        lemma_digit_run_inv(t, a, 4);
        crate::pii::lemma_digit_run_le(t, a, 4);
        let r = digit_run(t, a, 4);
        assert(digits_at(s, a, r)) by {
            assert forall|j: int| 0 <= j < r implies crate::pii::is_digit(#[trigger] s[a + j]) by {
                assert(t[a + j] == s[a + j]);
                assert(crate::pii::is_digit(t[a + j]));
            }
        }
        assert(t[a + r] == s[a + r]);
        lemma_digit_run_eq(s, a, 4, r);
    }
    // Subranges inside the prefix agree.
    assert forall|x: int, y: int|
        0 <= x <= y <= s.len() implies #[trigger] t.subrange(x, y) =~= s.subrange(x, y) by {
    }
    // Boundaries strictly inside the prefix agree.
    assert forall|e: int| 0 <= e < s.len() implies #[trigger] crate::pii::bnd_after(t, e)
        == crate::pii::bnd_after(s, e) by {
        assert(t[e] == s[e]);
    }
    if p >= 1 {
        assert(t[p - 1] == s[p - 1]);
    }
}

// ---------------------------------------------------------------------
// Membership in the committed PII findings.
// ---------------------------------------------------------------------

/// The scan list holds exactly the successful attempts at or after
/// `from`.
pub proof fn lemma_pii_scan_iff(s: Seq<char>, kind: PIIKind, from: int, p: int, l: int, c: int)
    requires
        0 <= from,
    ensures
        pii_scan(s, kind, from).contains((p, l, c)) <==> (from <= p < s.len() && pii_try(
            s,
            kind,
            p,
        ) == Some((l, c))),
    decreases s.len() - from,
{
    if from >= s.len() {
        assert(!pii_scan(s, kind, from).contains((p, l, c)));
    } else {
        lemma_pii_scan_iff(s, kind, from + 1, p, l, c);
        let rest = pii_scan(s, kind, from + 1);
        match pii_try(s, kind, from) {
            Some(lc) => {
                let whole = seq![(from, lc.0, lc.1)] + rest;
                assert(pii_scan(s, kind, from) == whole);
                if from <= p < s.len() && pii_try(s, kind, p) == Some((l, c)) {
                    if p == from {
                        assert(whole[0] == (p, l, c));
                        assert(whole.contains((p, l, c)));
                    } else {
                        assert(rest.contains((p, l, c)));
                        let i = choose|i: int| 0 <= i < rest.len() && rest[i] == (p, l, c);
                        assert(whole[i + 1] == (p, l, c));
                        assert(whole.contains((p, l, c)));
                    }
                }
                if whole.contains((p, l, c)) {
                    let i = choose|i: int| 0 <= i < whole.len() && whole[i] == (p, l, c);
                    if i == 0 {
                        assert(p == from && (l, c) == lc);
                    } else {
                        assert(rest[i - 1] == (p, l, c));
                        assert(rest.contains((p, l, c)));
                    }
                }
            },
            None => {
                if p == from {
                    assert(pii_try(s, kind, p) != Some((l, c)));
                }
            },
        }
    }
}

/// Kept findings are the scanned ones whose span end lies in the
/// bounds.
pub proof fn lemma_keep_pii_iff(ms: Seq<(int, int, int)>, lo: int, hi: int, t: (int, int, int))
    ensures
        keep_pii(ms, lo, hi).contains(t) <==> (ms.contains(t) && lo <= t.0 + t.1 <= hi),
    decreases ms.len(),
{
    if ms.len() > 0 {
        lemma_keep_pii_iff(ms.drop_first(), lo, hi, t);
        let rest = keep_pii(ms.drop_first(), lo, hi);
        let head = if lo <= ms[0].0 + ms[0].1 <= hi {
            seq![ms[0]]
        } else {
            Seq::<(int, int, int)>::empty()
        };
        let whole = head + rest;
        if whole.contains(t) {
            let i = choose|i: int| 0 <= i < whole.len() && whole[i] == t;
            if i < head.len() {
                assert(t == ms[0]);
                assert(ms.contains(t)) by {
                    assert(ms[0] == t);
                }
            } else {
                assert(rest[i - head.len()] == t);
                assert(rest.contains(t));
                let j = choose|j: int| 0 <= j < ms.drop_first().len() && ms.drop_first()[j] == t;
                assert(ms[j + 1] == t);
            }
        }
        if ms.contains(t) && lo <= t.0 + t.1 <= hi {
            let i = choose|i: int| 0 <= i < ms.len() && ms[i] == t;
            if i == 0 {
                assert(whole[0] == t);
            } else {
                assert(ms.drop_first()[i - 1] == t);
                assert(ms.drop_first().contains(t));
                assert(rest.contains(t));
                let j = choose|j: int| 0 <= j < rest.len() && rest[j] == t;
                assert(whole[head.len() + j] == t);
            }
        }
    }
}

/// A successful attempt at a window position, at the shifted global
/// position, with its span end in the bounds.
pub open spec fn window_pii_hit(
    win: Seq<char>,
    kind: PIIKind,
    lo: int,
    hi: int,
    off: int,
    text: Seq<char>,
    g: int,
    conf: int,
) -> bool {
    &&& 0 <= g - off < win.len()
    &&& pii_try(win, kind, g - off) is Some
    &&& text == win.subrange(g - off, g - off + pii_try(win, kind, g - off)->Some_0.0)
    &&& conf == pii_try(win, kind, g - off)->Some_0.1
    &&& lo <= g - off + pii_try(win, kind, g - off)->Some_0.0 <= hi
}

/// Membership in the committed findings of one detector.
pub proof fn lemma_pii_commits_kind_member(
    win: Seq<char>,
    kind: PIIKind,
    lo: int,
    hi: int,
    off: int,
    text: Seq<char>,
    g: int,
    conf: int,
)
    ensures
        (exists|i: int|
            0 <= i < pii_commits_kind(win, kind, lo, hi, off).len()
                && #[trigger] pii_commits_kind(win, kind, lo, hi, off)[i] == (
            kind,
            text,
            g,
            conf,
        )) <==> window_pii_hit(win, kind, lo, hi, off, text, g, conf),
{
    let cs = pii_commits_kind(win, kind, lo, hi, off);
    let kept = keep_pii(pii_scan(win, kind, 0), lo, hi);
    let f = |t: (int, int, int)| (kind, win.subrange(t.0, t.0 + t.1), t.0 + off, t.2);
    assert(cs == kept.map_values(f));
    if exists|i: int| 0 <= i < cs.len() && #[trigger] cs[i] == (kind, text, g, conf) {
        let i = choose|i: int| 0 <= i < cs.len() && #[trigger] cs[i] == (kind, text, g, conf);
        let t = kept[i];
        assert(cs[i] == f(t));
        lemma_keep_pii_iff(pii_scan(win, kind, 0), lo, hi, t);
        lemma_pii_scan_iff(win, kind, 0, t.0, t.1, t.2);
        assert(pii_try(win, kind, t.0) == Some((t.1, t.2)));
        assert(t.0 + off == g);
        assert(window_pii_hit(win, kind, lo, hi, off, text, g, conf));
    }
    if window_pii_hit(win, kind, lo, hi, off, text, g, conf) {
        let p = g - off;
        let lc = pii_try(win, kind, p)->Some_0;
        lemma_pii_scan_iff(win, kind, 0, p, lc.0, lc.1);
        lemma_keep_pii_iff(pii_scan(win, kind, 0), lo, hi, (p, lc.0, lc.1));
        assert(kept.contains((p, lc.0, lc.1)));
        let i = choose|i: int| 0 <= i < kept.len() && kept[i] == (p, lc.0, lc.1);
        assert(cs[i] == f((p, lc.0, lc.1)));
        assert(cs[i] == (kind, text, g, conf));
    }
}

/// Every committed finding of one detector carries that detector's
/// kind.
pub proof fn lemma_pii_commits_kind_kinds(
    win: Seq<char>,
    kind: PIIKind,
    lo: int,
    hi: int,
    off: int,
)
    ensures
        forall|i: int|
            0 <= i < pii_commits_kind(win, kind, lo, hi, off).len()
                ==> (#[trigger] pii_commits_kind(win, kind, lo, hi, off)[i]).0 == kind,
{
}

/// Membership in the combined committed findings, for one kind.
pub proof fn lemma_pii_commits_member(
    win: Seq<char>,
    kind: PIIKind,
    lo: int,
    hi: int,
    off: int,
    text: Seq<char>,
    g: int,
    conf: int,
)
    ensures
        (exists|i: int|
            0 <= i < pii_commits(win, lo, hi, off).len() && #[trigger] pii_commits(
                win,
                lo,
                hi,
                off,
            )[i] == (kind, text, g, conf)) <==> window_pii_hit(
            win,
            kind,
            lo,
            hi,
            off,
            text,
            g,
            conf,
        ),
{
    let c1 = pii_commits_kind(win, PIIKind::Phone, lo, hi, off);
    let c2 = pii_commits_kind(win, PIIKind::Ssn, lo, hi, off);
    let c3 = pii_commits_kind(win, PIIKind::CreditCard, lo, hi, off);
    let c4 = pii_commits_kind(win, PIIKind::IpAddress, lo, hi, off);
    let c5 = pii_commits_kind(win, PIIKind::Email, lo, hi, off);
    let all = pii_commits(win, lo, hi, off);
    assert(all == c1 + c2 + c3 + c4 + c5);
    lemma_pii_commits_kind_member(win, kind, lo, hi, off, text, g, conf);
    lemma_pii_commits_kind_kinds(win, PIIKind::Phone, lo, hi, off);
    lemma_pii_commits_kind_kinds(win, PIIKind::Ssn, lo, hi, off);
    lemma_pii_commits_kind_kinds(win, PIIKind::CreditCard, lo, hi, off);
    lemma_pii_commits_kind_kinds(win, PIIKind::IpAddress, lo, hi, off);
    lemma_pii_commits_kind_kinds(win, PIIKind::Email, lo, hi, off);
    let t = (kind, text, g, conf);
    if exists|i: int| 0 <= i < all.len() && #[trigger] all[i] == t {
        let i = choose|i: int| 0 <= i < all.len() && #[trigger] all[i] == t;
        // The entry lies in the segment of its own kind.
        if i < c1.len() {
            assert(all[i] == c1[i]);
            assert(exists|j: int|
                0 <= j < pii_commits_kind(win, kind, lo, hi, off).len()
                    && #[trigger] pii_commits_kind(win, kind, lo, hi, off)[j] == t) by {
                assert(c1[i].0 == PIIKind::Phone);
                assert(kind == PIIKind::Phone);
                assert(pii_commits_kind(win, kind, lo, hi, off)[i] == t);
            }
        } else if i < c1.len() + c2.len() {
            let j = i - c1.len();
            assert(all[i] == c2[j]);
            assert(c2[j].0 == PIIKind::Ssn);
            assert(pii_commits_kind(win, kind, lo, hi, off)[j] == t);
        } else if i < c1.len() + c2.len() + c3.len() {
            let j = i - c1.len() - c2.len();
            assert(all[i] == c3[j]);
            assert(c3[j].0 == PIIKind::CreditCard);
            assert(pii_commits_kind(win, kind, lo, hi, off)[j] == t);
        } else if i < c1.len() + c2.len() + c3.len() + c4.len() {
            let j = i - c1.len() - c2.len() - c3.len();
            assert(all[i] == c4[j]);
            assert(c4[j].0 == PIIKind::IpAddress);
            assert(pii_commits_kind(win, kind, lo, hi, off)[j] == t);
        } else {
            let j = i - c1.len() - c2.len() - c3.len() - c4.len();
            assert(all[i] == c5[j]);
            assert(c5[j].0 == PIIKind::Email);
            assert(pii_commits_kind(win, kind, lo, hi, off)[j] == t);
        }
    }
    if window_pii_hit(win, kind, lo, hi, off, text, g, conf) {
        let j = choose|j: int|
            0 <= j < pii_commits_kind(win, kind, lo, hi, off).len()
                && #[trigger] pii_commits_kind(win, kind, lo, hi, off)[j] == t;
        let base: int = match kind {
            PIIKind::Phone => 0int,
            PIIKind::Ssn => c1.len() as int,
            PIIKind::CreditCard => (c1.len() + c2.len()) as int,
            PIIKind::IpAddress => (c1.len() + c2.len() + c3.len()) as int,
            PIIKind::Email => (c1.len() + c2.len() + c3.len() + c4.len()) as int,
        };
        assert(all[base + j] == t);
        assert(exists|i: int| 0 <= i < all.len() && #[trigger] all[i] == t) by {
            assert(all[base + j] == t);
        }
    }
}

/// The span of a bounded detector is at most 19 characters.
pub proof fn lemma_pii_span_le(s: Seq<char>, kind: PIIKind, p: int)
    requires
        kind != PIIKind::Email,
        0 <= p,
        pii_try(s, kind, p) is Some,
    ensures
        1 <= pii_try(s, kind, p)->Some_0.0 <= 19,
{
    crate::pii::lemma_pii_try_in_range(s, kind, p);
    match kind {
        PIIKind::IpAddress => {
            crate::pii::lemma_digit_run_le(s, p, 4);
            let r1 = digit_run(s, p, 4);
            crate::pii::lemma_digit_run_le(s, p + r1 + 1, 4);
            let r2 = digit_run(s, p + r1 + 1, 4);
            crate::pii::lemma_digit_run_le(s, p + r1 + 1 + r2 + 1, 4);
            let r3 = digit_run(s, p + r1 + 1 + r2 + 1, 4);
            crate::pii::lemma_digit_run_le(s, p + r1 + 1 + r2 + 1 + r3 + 1, 4);
        },
        _ => {},
    }
}

// ---------------------------------------------------------------------
// Chunk invariance of the PII match set (bounded kinds).
// ---------------------------------------------------------------------

/// The findings of a list, emails excluded: email spans are unbounded
/// to the left, so their boundary behaviour is not covered here.
pub open spec fn pii_quad_set(ms: Seq<(PIIKind, Seq<char>, int, int)>) -> Set<
    (PIIKind, Seq<char>, int, int),
> {
    Set::new(|t: (PIIKind, Seq<char>, int, int)| t.0 != PIIKind::Email && ms.contains(t))
}

/// The findings of a whole stream whose span end lies in `[lo, hi]`,
/// emails excluded.
pub open spec fn decided_piis(s: Seq<char>, lo: int, hi: int) -> Set<
    (PIIKind, Seq<char>, int, int),
> {
    Set::new(
        |t: (PIIKind, Seq<char>, int, int)|
            {
                &&& t.0 != PIIKind::Email
                &&& 0 <= t.2
                &&& pii_try(s, t.0, t.2) is Some
                &&& t.1 == s.subrange(t.2, t.2 + pii_try(s, t.0, t.2)->Some_0.0)
                &&& t.3 == pii_try(s, t.0, t.2)->Some_0.1
                &&& lo <= t.2 + pii_try(s, t.0, t.2)->Some_0.0 <= hi
            },
    )
}

/// The committed findings are exactly the decided ones.
pub open spec fn piis_decided_ok(st: AStateG) -> bool {
    pii_quad_set(st.piis) == decided_piis(st.stream, 0, st.stream.len() - 1)
}

/// One direction of the step: every committed finding is decided.
#[verifier::rlimit(100)]
#[verifier::spinoff_prover]
proof fn lemma_step_piis_sound(cfg: CfgV, st: AStateG, chunk: Seq<char>, nbytes: int)
    requires
        phrases_inv(cfg, st),
        piis_decided_ok(st),
    ensures
        forall|t: (PIIKind, Seq<char>, int, int)|
            #[trigger] pii_quad_set(spec_step(cfg, st, chunk, nbytes).piis).contains(t)
                ==> decided_piis(
                st.stream + chunk,
                0,
                (st.stream + chunk).len() - 1,
            ).contains(t),
{
    let st2 = spec_step(cfg, st, chunk, nbytes);
    let win = st.carry + chunk;
    let off = st.stream.len() - st.carry.len();
    let lo = st.carry.len() as int;
    let hi = if win.len() == 0 {
        0int
    } else {
        win.len() - 1
    };
    let cap = carry_cap(cfg.phrases);
    let s2 = st.stream + chunk;
    let prefix = st.stream.subrange(0, off);
    assert(prefix + win =~= s2);
    assert(st2.stream == s2);
    assert(forall|i: int| off <= i < s2.len() ==> (#[trigger] s2[i]) == win[i - off]);
    let cs = pii_commits(win, lo, hi, off);
    assert(st2.piis == st.piis + cs);
    let quads2 = pii_quad_set(st2.piis);
    let want = decided_piis(s2, 0, s2.len() - 1);
    assert forall|t: (PIIKind, Seq<char>, int, int)| quads2.contains(t) implies want.contains(
        t,
    ) by {
        let i = choose|i: int| 0 <= i < st2.piis.len() && st2.piis[i] == t;
        if i < st.piis.len() {
            assert(pii_quad_set(st.piis).contains(t)) by {
                assert(st.piis[i] == t);
            }
            assert(decided_piis(st.stream, 0, st.stream.len() - 1).contains(t));
            let lc = pii_try(st.stream, t.0, t.2)->Some_0;
            crate::pii::lemma_pii_try_in_range(st.stream, t.0, t.2);
            lemma_pii_try_prefix(st.stream, chunk, t.0, t.2, lc.0, lc.1);
            assert(pii_try(s2, t.0, t.2) == Some((lc.0, lc.1)));
            assert(t.1 =~= s2.subrange(t.2, t.2 + lc.0));
        } else {
            assert(cs[i - st.piis.len()] == t);
            assert(exists|j: int| 0 <= j < cs.len() && #[trigger] cs[j] == t) by {
                assert(cs[i - st.piis.len()] == t);
            }
            lemma_pii_commits_member(win, t.0, lo, hi, off, t.1, t.2, t.3);
            assert(window_pii_hit(win, t.0, lo, hi, off, t.1, t.2, t.3));
            let p = t.2 - off;
            lemma_pii_span_le(win, t.0, p);
            if off > 0 {
                assert(st.carry.len() == cap);
                assert(p + pii_try(win, t.0, p)->Some_0.0 >= lo);
                assert(p >= 1);
            } else {
                assert(prefix.len() == 0);
            }
            lemma_pii_try_shift(prefix, win, t.0, p);
            assert(pii_try(s2, t.0, t.2) == pii_try(win, t.0, p));
            let lc = pii_try(win, t.0, p)->Some_0;
            assert(t.1 =~= s2.subrange(t.2, t.2 + lc.0)) by {
                assert(t.1 == win.subrange(p, p + lc.0));
            }
        }
    }
}

/// The other direction: every decided finding was committed.
#[verifier::rlimit(100)]
#[verifier::spinoff_prover]
proof fn lemma_step_piis_complete(cfg: CfgV, st: AStateG, chunk: Seq<char>, nbytes: int)
    requires
        phrases_inv(cfg, st),
        piis_decided_ok(st),
    ensures
        forall|t: (PIIKind, Seq<char>, int, int)|
            #[trigger] decided_piis(st.stream + chunk, 0, (st.stream + chunk).len() - 1).contains(
                t,
            ) ==> pii_quad_set(spec_step(cfg, st, chunk, nbytes).piis).contains(t),
{
    let st2 = spec_step(cfg, st, chunk, nbytes);
    let win = st.carry + chunk;
    let off = st.stream.len() - st.carry.len();
    let lo = st.carry.len() as int;
    let hi = if win.len() == 0 {
        0int
    } else {
        win.len() - 1
    };
    let cap = carry_cap(cfg.phrases);
    let s2 = st.stream + chunk;
    let prefix = st.stream.subrange(0, off);
    assert(prefix + win =~= s2);
    assert(st2.stream == s2);
    assert(forall|i: int| off <= i < s2.len() ==> (#[trigger] s2[i]) == win[i - off]);
    let cs = pii_commits(win, lo, hi, off);
    assert(st2.piis == st.piis + cs);
    let quads2 = pii_quad_set(st2.piis);
    let want = decided_piis(s2, 0, s2.len() - 1);
    assert forall|t: (PIIKind, Seq<char>, int, int)| want.contains(t) implies quads2.contains(
        t,
    ) by {
        let g = t.2;
        let lc = pii_try(s2, t.0, g)->Some_0;
        crate::pii::lemma_pii_try_in_range(s2, t.0, g);
        if g + lc.0 <= st.stream.len() - 1 {
            lemma_pii_try_prefix(st.stream, chunk, t.0, g, lc.0, lc.1);
            assert(pii_try(st.stream, t.0, g) == Some((lc.0, lc.1)));
            assert(decided_piis(st.stream, 0, st.stream.len() - 1).contains(t)) by {
                assert(t.1 =~= st.stream.subrange(g, g + lc.0));
            }
            assert(pii_quad_set(st.piis).contains(t));
            let i = choose|i: int| 0 <= i < st.piis.len() && st.piis[i] == t;
            assert(st2.piis[i] == t);
            assert(quads2.contains(t)) by {
                assert(st2.piis.contains(t)) by {
                    assert(st2.piis[i] == t);
                }
            }
        } else {
            assert(g + lc.0 >= st.stream.len());
            assert(g + lc.0 <= s2.len() - 1);
            lemma_pii_span_le(s2, t.0, g);
            let p = g - off;
            if off > 0 {
                assert(st.carry.len() == cap);
                assert(p >= 1);
            } else {
                assert(prefix.len() == 0);
            }
            assert(p >= 0);
            lemma_pii_try_shift(prefix, win, t.0, p);
            assert(pii_try(win, t.0, p) == Some((lc.0, lc.1)));
            assert(window_pii_hit(win, t.0, lo, hi, off, t.1, g, t.3)) by {
                assert(t.1 =~= win.subrange(p, p + lc.0)) by {
                    assert(t.1 == s2.subrange(g, g + lc.0));
                }
            }
            lemma_pii_commits_member(win, t.0, lo, hi, off, t.1, g, t.3);
            let j = choose|j: int| 0 <= j < cs.len() && #[trigger] cs[j] == t;
            assert(st2.piis[st.piis.len() + j] == t);
            assert(quads2.contains(t)) by {
                assert(st2.piis.contains(t)) by {
                    assert(st2.piis[st.piis.len() + j] == t);
                }
            }
        }
    }
}

/// One step preserves the PII characterization.
pub proof fn lemma_step_piis(cfg: CfgV, st: AStateG, chunk: Seq<char>, nbytes: int)
    requires
        phrases_inv(cfg, st),
        piis_decided_ok(st),
    ensures
        piis_decided_ok(spec_step(cfg, st, chunk, nbytes)),
{
    lemma_step_piis_sound(cfg, st, chunk, nbytes);
    lemma_step_piis_complete(cfg, st, chunk, nbytes);
    let st2 = spec_step(cfg, st, chunk, nbytes);
    assert(st2.stream == st.stream + chunk);
    assert(pii_quad_set(st2.piis) =~= decided_piis(st2.stream, 0, st2.stream.len() - 1));
}

/// The characterization holds after feeding any chunk sequence from a
/// fresh state.
pub proof fn lemma_feed_piis(cfg: CfgV, chunks: Seq<Seq<char>>)
    ensures
        piis_decided_ok(feed(cfg, init_state(), chunks)),
    decreases chunks.len(),
{
    if chunks.len() == 0 {
        let st = init_state();
        assert(pii_quad_set(st.piis) =~= decided_piis(st.stream, 0, -1)) by {
            assert forall|t: (PIIKind, Seq<char>, int, int)|
                !(#[trigger] decided_piis(st.stream, 0, -1).contains(t)) by {
                if 0 <= t.2 && pii_try(st.stream, t.0, t.2) is Some {
                    crate::pii::lemma_pii_try_in_range(st.stream, t.0, t.2);
                }
            }
            assert forall|t: (PIIKind, Seq<char>, int, int)|
                !(#[trigger] pii_quad_set(st.piis).contains(t)) by {
            }
        }
    } else {
        lemma_feed_piis(cfg, chunks.drop_last());
        lemma_feed_phrases(cfg, chunks.drop_last());
        lemma_step_piis(
            cfg,
            feed(cfg, init_state(), chunks.drop_last()),
            chunks.last(),
            chunks.last().len() as int,
        );
    }
}

/// One direction of the final report: every reported finding is a
/// finding of the whole stream.
#[verifier::rlimit(100)]
#[verifier::spinoff_prover]
proof fn lemma_finalize_pii_sound(cfg: CfgV, st: AStateG)
    requires
        phrases_inv(cfg, st),
        piis_decided_ok(st),
    ensures
        forall|t: (PIIKind, Seq<char>, int, int)|
            #[trigger] pii_quad_set(spec_finalize(cfg, st).piis).contains(t) ==> decided_piis(
                st.stream,
                0,
                st.stream.len() as int,
            ).contains(t),
{
    let off = st.stream.len() - st.carry.len();
    let tlo = st.carry.len() as int;
    let cap = carry_cap(cfg.phrases);
    let prefix = st.stream.subrange(0, off);
    assert(prefix + st.carry =~= st.stream);
    assert(forall|i: int|
        off <= i < st.stream.len() ==> (#[trigger] st.stream[i]) == st.carry[i - off]);
    let tail = pii_commits(st.carry, tlo, tlo, off);
    let all = spec_finalize(cfg, st).piis;
    assert(all == st.piis + tail);
    let want = decided_piis(st.stream, 0, st.stream.len() as int);
    assert forall|t: (PIIKind, Seq<char>, int, int)| pii_quad_set(all).contains(t)
        implies want.contains(t) by {
        let i = choose|i: int| 0 <= i < all.len() && all[i] == t;
        if i < st.piis.len() {
            assert(pii_quad_set(st.piis).contains(t)) by {
                assert(st.piis[i] == t);
            }
            assert(decided_piis(st.stream, 0, st.stream.len() - 1).contains(t));
        } else {
            assert(tail[i - st.piis.len()] == t);
            assert(exists|j: int| 0 <= j < tail.len() && #[trigger] tail[j] == t) by {
                assert(tail[i - st.piis.len()] == t);
            }
            lemma_pii_commits_member(st.carry, t.0, tlo, tlo, off, t.1, t.2, t.3);
            let p = t.2 - off;
            lemma_pii_span_le(st.carry, t.0, p);
            if off > 0 {
                assert(st.carry.len() == cap);
                assert(p >= 1);
            } else {
                assert(prefix.len() == 0);
            }
            lemma_pii_try_shift(prefix, st.carry, t.0, p);
            let lc = pii_try(st.carry, t.0, p)->Some_0;
            assert(pii_try(st.stream, t.0, t.2) == Some((lc.0, lc.1)));
            assert(t.1 =~= st.stream.subrange(t.2, t.2 + lc.0)) by {
                assert(t.1 == st.carry.subrange(p, p + lc.0));
            }
        }
    }
}

/// The other direction: every finding of the whole stream is
/// reported.
#[verifier::rlimit(100)]
#[verifier::spinoff_prover]
proof fn lemma_finalize_pii_complete(cfg: CfgV, st: AStateG)
    requires
        phrases_inv(cfg, st),
        piis_decided_ok(st),
    ensures
        forall|t: (PIIKind, Seq<char>, int, int)|
            #[trigger] decided_piis(st.stream, 0, st.stream.len() as int).contains(t)
                ==> pii_quad_set(spec_finalize(cfg, st).piis).contains(t),
{
    let off = st.stream.len() - st.carry.len();
    let tlo = st.carry.len() as int;
    let cap = carry_cap(cfg.phrases);
    let prefix = st.stream.subrange(0, off);
    assert(prefix + st.carry =~= st.stream);
    assert(forall|i: int|
        off <= i < st.stream.len() ==> (#[trigger] st.stream[i]) == st.carry[i - off]);
    let tail = pii_commits(st.carry, tlo, tlo, off);
    let all = spec_finalize(cfg, st).piis;
    assert(all == st.piis + tail);
    let want = decided_piis(st.stream, 0, st.stream.len() as int);
    assert forall|t: (PIIKind, Seq<char>, int, int)| want.contains(t) implies pii_quad_set(
        all,
    ).contains(t) by {
        let g = t.2;
        let lc = pii_try(st.stream, t.0, g)->Some_0;
        crate::pii::lemma_pii_try_in_range(st.stream, t.0, g);
        if g + lc.0 <= st.stream.len() - 1 {
            assert(decided_piis(st.stream, 0, st.stream.len() - 1).contains(t));
            assert(pii_quad_set(st.piis).contains(t));
            let i = choose|i: int| 0 <= i < st.piis.len() && st.piis[i] == t;
            assert(all[i] == t);
            assert(pii_quad_set(all).contains(t)) by {
                assert(all.contains(t)) by {
                    assert(all[i] == t);
                }
            }
        } else {
            assert(g + lc.0 == st.stream.len());
            lemma_pii_span_le(st.stream, t.0, g);
            let p = g - off;
            if off > 0 {
                assert(st.carry.len() == cap);
                assert(p >= 1);
            } else {
                assert(prefix.len() == 0);
            }
            assert(p >= 0);
            lemma_pii_try_shift(prefix, st.carry, t.0, p);
            assert(pii_try(st.carry, t.0, p) == Some((lc.0, lc.1)));
            assert(window_pii_hit(st.carry, t.0, tlo, tlo, off, t.1, g, t.3)) by {
                assert(t.1 =~= st.carry.subrange(p, p + lc.0)) by {
                    assert(t.1 == st.stream.subrange(g, g + lc.0));
                }
            }
            lemma_pii_commits_member(st.carry, t.0, tlo, tlo, off, t.1, g, t.3);
            let j = choose|j: int| 0 <= j < tail.len() && #[trigger] tail[j] == t;
            assert(all[st.piis.len() + j] == t);
            assert(pii_quad_set(all).contains(t)) by {
                assert(all.contains(t)) by {
                    assert(all[st.piis.len() + j] == t);
                }
            }
        }
    }
}

/// The report's PII findings (emails aside) are exactly those of the
/// whole stream.
pub proof fn lemma_finalize_pii_set(cfg: CfgV, st: AStateG)
    requires
        phrases_inv(cfg, st),
        piis_decided_ok(st),
    ensures
        pii_quad_set(spec_finalize(cfg, st).piis) == decided_piis(
            st.stream,
            0,
            st.stream.len() as int,
        ),
{
    lemma_finalize_pii_sound(cfg, st);
    lemma_finalize_pii_complete(cfg, st);
    assert(pii_quad_set(spec_finalize(cfg, st).piis) =~= decided_piis(
        st.stream,
        0,
        st.stream.len() as int,
    ));
}

/// Chunk invariance of PII detection (emails aside): however the same
/// text is cut into chunks, the report holds the same set of
/// (kind, text, position, confidence) findings.
pub proof fn lemma_chunk_invariance_piis(cfg: CfgV, a: Seq<Seq<char>>, b: Seq<Seq<char>>)
    requires
        concat_chunks(a) == concat_chunks(b),
    ensures
        pii_quad_set(spec_finalize(cfg, feed(cfg, init_state(), a)).piis) == pii_quad_set(
            spec_finalize(cfg, feed(cfg, init_state(), b)).piis,
        ),
{
    lemma_feed_counts(cfg, a);
    lemma_feed_counts(cfg, b);
    lemma_feed_phrases(cfg, a);
    lemma_feed_phrases(cfg, b);
    lemma_feed_piis(cfg, a);
    lemma_feed_piis(cfg, b);
    lemma_finalize_pii_set(cfg, feed(cfg, init_state(), a));
    lemma_finalize_pii_set(cfg, feed(cfg, init_state(), b));
}

} // verus!
