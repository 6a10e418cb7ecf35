//! Token-frequency aggregation and top-K ranking.
//!
//! Tokens are maximal whitespace-free runs, normalized (lower-cased,
//! non-alphanumeric characters dropped); empty tokens disappear.  The
//! running count table is folded character by character so that a token
//! cut in two by a chunk boundary is still counted once: the trailing
//! unfinished token is carried in a pending buffer.  Ranking orders by
//! count descending, ties broken by ascending lexicographic order of
//! the token.

use vstd::prelude::*;
use crate::textnorm::is_alnum;
use crate::textnorm::is_space;
use crate::textnorm::lower_char;
use crate::textnorm::char_is_alnum;
use crate::textnorm::char_is_space;
use crate::textnorm::to_lower_char;
use crate::textnorm::str_to_chars;
use crate::textnorm::push_char;

verus! {

// ---------------------------------------------------------------------
// Word-count table: (token, count) pairs, tokens pairwise distinct,
// in first-seen order.
// ---------------------------------------------------------------------

/// Ghost image of the word table: token views, counts widened to `int`.
pub open spec fn wc_view(v: Seq<(Vec<char>, u64)>) -> Seq<(Seq<char>, int)> {
    v.map_values(|e: (Vec<char>, u64)| (e.0@, e.1 as int))
}

pub open spec fn wc_distinct(es: Seq<(Seq<char>, int)>) -> bool {
    forall|i: int, j: int| 0 <= i < j < es.len() ==> es[i].0 != es[j].0
}

pub open spec fn wc_wf(es: Seq<(Seq<char>, int)>) -> bool {
    wc_distinct(es) && forall|i: int| 0 <= i < es.len() ==> es[i].1 >= 1
}

pub open spec fn wc_find(es: Seq<(Seq<char>, int)>, w: Seq<char>) -> int
    decreases es.len(),
{
    if es.len() == 0 {
        -1
    } else if es[0].0 == w {
        0
    } else {
        let r = wc_find(es.drop_first(), w);
        if r < 0 {
            -1
        } else {
            r + 1
        }
    }
}

/// Counting one more occurrence of token `w`.
pub open spec fn wc_add(es: Seq<(Seq<char>, int)>, w: Seq<char>) -> Seq<(Seq<char>, int)> {
    let i = wc_find(es, w);
    if i < 0 {
        es.push((w, 1))
    } else {
        es.update(i, (w, es[i].1 + 1))
    }
}

pub open spec fn wc_total(es: Seq<(Seq<char>, int)>) -> int
    decreases es.len(),
{
    if es.len() == 0 {
        0
    } else {
        wc_total(es.drop_last()) + es.last().1
    }
}

pub proof fn lemma_wc_find_range(es: Seq<(Seq<char>, int)>, w: Seq<char>)
    ensures
        wc_find(es, w) < es.len(),
        wc_find(es, w) >= 0 ==> es[wc_find(es, w)].0 == w,
        wc_find(es, w) < 0 ==> wc_find(es, w) == -1 && forall|j: int|
            0 <= j < es.len() ==> es[j].0 != w,
    decreases es.len(),
{
    if es.len() > 0 && es[0].0 != w {
        lemma_wc_find_range(es.drop_first(), w);
        if wc_find(es, w) < 0 {
            assert forall|j: int| 0 <= j < es.len() implies es[j].0 != w by {
                if j >= 1 {
                    assert(es.drop_first()[j - 1] == es[j]);
                }
            }
        } else {
            assert(es.drop_first()[wc_find(es, w) - 1] == es[wc_find(es, w)]);
        }
    }
}

pub proof fn lemma_wc_find_at(es: Seq<(Seq<char>, int)>, w: Seq<char>, i: int)
    requires
        0 <= i < es.len(),
        es[i].0 == w,
        forall|j: int| 0 <= j < i ==> es[j].0 != w,
    ensures
        wc_find(es, w) == i,
    decreases es.len(),
{
    if es[0].0 != w {
        assert(i >= 1);
        lemma_wc_find_at(es.drop_first(), w, i - 1);
    }
}

pub proof fn lemma_wc_total_update(es: Seq<(Seq<char>, int)>, i: int, v: (Seq<char>, int))
    requires
        0 <= i < es.len(),
    ensures
        wc_total(es.update(i, v)) == wc_total(es) - es[i].1 + v.1,
    decreases es.len(),
{
    let es2 = es.update(i, v);
    if i == es.len() - 1 {
        assert(es2.drop_last() == es.drop_last());
        assert(es2.last() == v);
    } else {
        lemma_wc_total_update(es.drop_last(), i, v);
        assert(es2.drop_last() == es.drop_last().update(i, v));
        assert(es2.last() == es.last());
    }
}

pub proof fn lemma_wc_add_total(es: Seq<(Seq<char>, int)>, w: Seq<char>)
    ensures
        wc_total(wc_add(es, w)) == wc_total(es) + 1,
{
    lemma_wc_find_range(es, w);
    let i = wc_find(es, w);
    if i < 0 {
        let e: (Seq<char>, int) = (w, 1);
        assert(es.push(e).drop_last() == es);
        assert(es.push(e).last() == e);
    } else {
        lemma_wc_total_update(es, i, (w, es[i].1 + 1));
    }
}

pub proof fn lemma_wc_add_wf(es: Seq<(Seq<char>, int)>, w: Seq<char>)
    requires
        wc_wf(es),
    ensures
        wc_wf(wc_add(es, w)),
{
    lemma_wc_find_range(es, w);
}

pub proof fn lemma_wc_total_nonneg(es: Seq<(Seq<char>, int)>)
    requires
        forall|j: int| 0 <= j < es.len() ==> es[j].1 >= 0,
    ensures
        wc_total(es) >= 0,
    decreases es.len(),
{
    if es.len() > 0 {
        lemma_wc_total_nonneg(es.drop_last());
    }
}

pub proof fn lemma_wc_count_le_total(es: Seq<(Seq<char>, int)>, i: int)
    requires
        forall|j: int| 0 <= j < es.len() ==> es[j].1 >= 0,
        0 <= i < es.len(),
    ensures
        es[i].1 <= wc_total(es),
        wc_total(es) >= 0,
    decreases es.len(),
{
    lemma_wc_total_nonneg(es.drop_last());
    if i == es.len() - 1 {
    } else {
        lemma_wc_count_le_total(es.drop_last(), i);
    }
}

// ---------------------------------------------------------------------
// Tokenization as a fold over characters.
// ---------------------------------------------------------------------

/// One step of tokenization: whitespace closes the pending token (if
/// any), an alphanumeric character extends it in normalized form, and
/// every other character is dropped without closing the token.
pub open spec fn tok_step(
    st: (Seq<(Seq<char>, int)>, Seq<char>),
    c: char,
) -> (Seq<(Seq<char>, int)>, Seq<char>) {
    if is_space(c) {
        if st.1.len() > 0 {
            (wc_add(st.0, st.1), Seq::<char>::empty())
        } else {
            st
        }
    } else if is_alnum(c) {
        (st.0, st.1.push(lower_char(c)))
    } else {
        st
    }
}

/// Folding a character sequence into a (count table, pending token)
/// state.
pub open spec fn tok_fold_from(
    st: (Seq<(Seq<char>, int)>, Seq<char>),
    s: Seq<char>,
) -> (Seq<(Seq<char>, int)>, Seq<char>)
    decreases s.len(),
{
    if s.len() == 0 {
        st
    } else {
        tok_step(tok_fold_from(st, s.drop_last()), s.last())
    }
}

/// The tokenization state of a whole text, from the empty state.
pub open spec fn tok_fold(s: Seq<char>) -> (Seq<(Seq<char>, int)>, Seq<char>) {
    tok_fold_from((Seq::<(Seq<char>, int)>::empty(), Seq::<char>::empty()), s)
}

/// The finished count table: the pending token, if nonempty, counts
/// too.
pub open spec fn tok_close(st: (Seq<(Seq<char>, int)>, Seq<char>)) -> Seq<(Seq<char>, int)> {
    if st.1.len() > 0 {
        wc_add(st.0, st.1)
    } else {
        st.0
    }
}

/// Tokenization folds compose over concatenation.
pub proof fn lemma_tok_fold_from_concat(
    st: (Seq<(Seq<char>, int)>, Seq<char>),
    a: Seq<char>,
    b: Seq<char>,
)
    ensures
        tok_fold_from(st, a + b) == tok_fold_from(tok_fold_from(st, a), b),
    decreases b.len(),
{
    if b.len() == 0 {
        assert(a + b == a);
    } else {
        lemma_tok_fold_from_concat(st, a, b.drop_last());
        assert((a + b).drop_last() == a + b.drop_last());
        assert((a + b).last() == b.last());
    }
}

/// One when the pending token is nonempty, else zero.
pub open spec fn pend_bit(p: Seq<char>) -> int {
    if p.len() > 0 {
        1
    } else {
        0
    }
}

/// Folding keeps the table well formed and bounds its growth by the
/// number of characters seen: even counting an unfinished token, at
/// most one count per character.
pub proof fn lemma_tok_fold_from_bounds(st: (Seq<(Seq<char>, int)>, Seq<char>), s: Seq<char>)
    requires
        wc_wf(st.0),
    ensures
        wc_wf(tok_fold_from(st, s).0),
        wc_total(tok_fold_from(st, s).0) <= wc_total(st.0) + s.len(),
        wc_total(tok_fold_from(st, s).0) + pend_bit(tok_fold_from(st, s).1) <= wc_total(st.0)
            + pend_bit(st.1) + s.len(),
    decreases s.len(),
{
    if s.len() > 0 {
        lemma_tok_fold_from_bounds(st, s.drop_last());
        let mid = tok_fold_from(st, s.drop_last());
        let c = s.last();
        if is_space(c) && mid.1.len() > 0 {
            lemma_wc_add_wf(mid.0, mid.1);
            lemma_wc_add_total(mid.0, mid.1);
        }
    }
}

// ---------------------------------------------------------------------
// Executable table update.
// ---------------------------------------------------------------------

/// Element-wise equality of two character vectors.
pub fn chars_eq(a: &Vec<char>, b: &Vec<char>) -> (r: bool)
    ensures
        r == (a@ == b@),
{
    if a.len() != b.len() {
        proof {
            assert(a@ != b@);
        }
        return false;
    }
    let n = a.len();
    let mut i: usize = 0;
    while i < n
        invariant
            i <= n,
            n == a.len() == b.len(),
            forall|j: int| 0 <= j < i ==> a@[j] == b@[j],
        decreases n - i,
    {
        if a[i] != b[i] {
            proof {
                assert(a@[i as int] != b@[i as int]);
            }
            return false;
        }
        i += 1;
    }
    proof {
        assert(a@ =~= b@);
    }
    true
}

/// Adds one occurrence of token `w` to the table.
pub fn wc_bump(tab: &mut Vec<(Vec<char>, u64)>, w: &Vec<char>)
    requires
        wc_wf(wc_view(old(tab)@)),
        wc_total(wc_view(old(tab)@)) < u64::MAX,
    ensures
        wc_view(final(tab)@) == wc_add(wc_view(old(tab)@), w@),
        wc_wf(wc_view(final(tab)@)),
{
    let ghost es = wc_view(tab@);
    proof {
        lemma_wc_add_wf(es, w@);
    }
    let n = tab.len();
    let mut i: usize = 0;
    while i < n
        invariant
            n == tab.len(),
            tab@ == old(tab)@,
            es == wc_view(old(tab)@),
            wc_wf(es),
            wc_total(es) < u64::MAX,
            forall|j: int| 0 <= j < i ==> es[j].0 != w@,
            i <= n,
        decreases n - i,
    {
        let hit = chars_eq(&tab[i].0, w);
        if hit {
            proof {
                lemma_wc_find_at(es, w@, i as int);
                lemma_wc_count_le_total(es, i as int);
            }
            let cnt = tab[i].1;
            let key = tab[i].0.clone();
            tab.set(i, (key, cnt + 1));
            proof {
                assert(wc_view(tab@) =~= wc_add(es, w@));
            }
            return ;
        }
        i += 1;
    }
    proof {
        lemma_wc_find_range(es, w@);
    }
    tab.push((w.clone(), 1));
    proof {
        assert(wc_view(tab@) =~= wc_add(es, w@));
    }
}

/// Feeds every character of `chars` into the tokenizer state
/// `(tab, pending)`.
pub fn wc_accumulate(tab: &mut Vec<(Vec<char>, u64)>, pending: &mut Vec<char>, chars: &Vec<char>)
    requires
        wc_wf(wc_view(old(tab)@)),
        wc_total(wc_view(old(tab)@)) + chars@.len() <= u64::MAX,
    ensures
        (wc_view(final(tab)@), final(pending)@) == tok_fold_from(
            (wc_view(old(tab)@), old(pending)@),
            chars@,
        ),
        wc_wf(wc_view(final(tab)@)),
{
    let ghost st0 = (wc_view(tab@), pending@);
    let mut i: usize = 0;
    while i < chars.len()
        invariant
            i <= chars@.len(),
            wc_wf(wc_view(tab@)),
            (wc_view(tab@), pending@) == tok_fold_from(st0, chars@.subrange(0, i as int)),
            wc_wf(st0.0),
            wc_total(st0.0) + chars@.len() <= u64::MAX,
        decreases chars@.len() - i,
    {
        let c = chars[i];
        proof {
            let pre = chars@.subrange(0, i as int);
            let pre1 = chars@.subrange(0, i + 1);
            assert(pre1.drop_last() == pre);
            assert(pre1.last() == chars@[i as int]);
            lemma_tok_fold_from_bounds(st0, pre);
            lemma_wc_total_nonneg(st0.0);
        }
        if char_is_space(c) {
            if pending.len() > 0 {
                wc_bump(tab, pending);
                pending.clear();
                proof {
                    assert(pending@ =~= Seq::<char>::empty());
                }
            }
        } else if char_is_alnum(c) {
            let lc = to_lower_char(c);
            pending.push(lc);
        }
        i += 1;
    }
    proof {
        assert(chars@.subrange(0, chars@.len() as int) == chars@);
    }
}

// ---------------------------------------------------------------------
// Ranking: sort by count descending, ties by token ascending.
// ---------------------------------------------------------------------

/// Lexicographic order on character sequences, by code point.
pub open spec fn lex_le(a: Seq<char>, b: Seq<char>) -> bool
    decreases a.len(),
{
    if a.len() == 0 {
        true
    } else if b.len() == 0 {
        false
    } else if a[0] != b[0] {
        (a[0] as u32) < (b[0] as u32)
    } else {
        lex_le(a.drop_first(), b.drop_first())
    }
}

/// Ranking order on table entries: greater count first, equal counts
/// by ascending token.
pub open spec fn rank_le(x: (Seq<char>, int), y: (Seq<char>, int)) -> bool {
    x.1 > y.1 || (x.1 == y.1 && lex_le(x.0, y.0))
}

/// Insertion into a ranked sequence, before the first entry it
/// precedes.
pub open spec fn insert_ranked(
    es: Seq<(Seq<char>, int)>,
    x: (Seq<char>, int),
) -> Seq<(Seq<char>, int)>
    decreases es.len(),
{
    if es.len() == 0 {
        seq![x]
    } else if rank_le(x, es.first()) {
        seq![x] + es
    } else {
        seq![es.first()] + insert_ranked(es.drop_first(), x)
    }
}

/// Insertion sort of a table under the ranking order.
pub open spec fn sort_ranked(es: Seq<(Seq<char>, int)>) -> Seq<(Seq<char>, int)>
    decreases es.len(),
{
    if es.len() == 0 {
        Seq::<(Seq<char>, int)>::empty()
    } else {
        insert_ranked(sort_ranked(es.drop_last()), es.last())
    }
}

/// Lexicographic comparison of two character vectors.
pub fn chars_lex_le(a: &Vec<char>, b: &Vec<char>) -> (r: bool)
    ensures
        r == lex_le(a@, b@),
{
    let n = if a.len() < b.len() {
        a.len()
    } else {
        b.len()
    };
    let mut i: usize = 0;
    proof {
        assert(a@.subrange(0, a@.len() as int) == a@);
        assert(b@.subrange(0, b@.len() as int) == b@);
    }
    while i < n
        invariant
            i <= n,
            n == if a@.len() < b@.len() {
                a@.len()
            } else {
                b@.len()
            },
            forall|j: int| 0 <= j < i ==> a@[j] == b@[j],
            lex_le(a@, b@) == lex_le(
                a@.subrange(i as int, a@.len() as int),
                b@.subrange(i as int, b@.len() as int),
            ),
        decreases n - i,
    {
        let ca = a[i];
        let cb = b[i];
        let ghost sa = a@.subrange(i as int, a@.len() as int);
        let ghost sb = b@.subrange(i as int, b@.len() as int);
        proof {
            assert(sa.len() > 0 && sb.len() > 0);
            assert(sa[0] == a@[i as int] && sb[0] == b@[i as int]);
            assert(sa.drop_first() =~= a@.subrange(i + 1, a@.len() as int));
            assert(sb.drop_first() =~= b@.subrange(i + 1, b@.len() as int));
        }
        if (ca as u32) != (cb as u32) {
            proof {
                if ca == cb {
                    assert(false);
                }
            }
            return (ca as u32) < (cb as u32);
        }
        proof {
            assert(ca == cb) by {
                vstd::utf8::char_u32_cast(ca, ca as u32);
                vstd::utf8::char_u32_cast(cb, cb as u32);
            }
        }
        i += 1;
    }
    proof {
        let sa = a@.subrange(i as int, a@.len() as int);
        let sb = b@.subrange(i as int, b@.len() as int);
        if a@.len() <= b@.len() {
            assert(sa.len() == 0);
            assert(lex_le(sa, sb));
        } else {
            assert(sa.len() > 0 && sb.len() == 0);
            assert(!lex_le(sa, sb));
        }
    }
    a.len() <= b.len()
}

/// Ranking comparison of two executable entries.
pub fn rank_le_exec(x: &(Vec<char>, u64), y: &(Vec<char>, u64)) -> (r: bool)
    ensures
        r == rank_le((x.0@, x.1 as int), (y.0@, y.1 as int)),
{
    if x.1 > y.1 {
        true
    } else if x.1 == y.1 {
        chars_lex_le(&x.0, &y.0)
    } else {
        false
    }
}

/// `insert_ranked` splits at the first entry the new one precedes.
proof fn lemma_insert_ranked_at(es: Seq<(Seq<char>, int)>, x: (Seq<char>, int), i: int)
    requires
        0 <= i <= es.len(),
        forall|j: int| 0 <= j < i ==> !rank_le(x, es[j]),
        i < es.len() ==> rank_le(x, es[i]),
    ensures
        insert_ranked(es, x) == es.subrange(0, i) + seq![x] + es.subrange(i, es.len() as int),
    decreases es.len(),
{
    if es.len() == 0 {
        assert(insert_ranked(es, x) =~= es.subrange(0, i) + seq![x] + es.subrange(
            i,
            es.len() as int,
        ));
    } else if rank_le(x, es.first()) {
        assert(i == 0);
        assert(insert_ranked(es, x) == seq![x] + es);
        assert(es.subrange(0, 0) + seq![x] + es.subrange(0, es.len() as int) =~= seq![x] + es);
    } else {
        assert(i >= 1);
        lemma_insert_ranked_at(es.drop_first(), x, i - 1);
        assert(forall|j: int|
            0 <= j < i - 1 ==> es.drop_first()[j] == es[j + 1] && !rank_le(x, es[j + 1]));
        assert(i - 1 < es.drop_first().len() ==> rank_le(x, es.drop_first()[i - 1]));
        assert(insert_ranked(es, x) == seq![es.first()] + insert_ranked(es.drop_first(), x));
        assert(es.drop_first().subrange(0, i - 1) =~= es.subrange(1, i));
        assert(es.drop_first().subrange(i - 1, es.drop_first().len() as int) =~= es.subrange(
            i,
            es.len() as int,
        ));
        assert(seq![es.first()] + (es.subrange(1, i) + seq![x] + es.subrange(i, es.len() as int))
            =~= es.subrange(0, i) + seq![x] + es.subrange(i, es.len() as int));
    }
}

/// Inserts an entry into a ranked vector, keeping the ranking order.
pub fn insert_ranked_exec(out: &mut Vec<(Vec<char>, u64)>, x: (Vec<char>, u64))
    ensures
        wc_view(final(out)@) == insert_ranked(wc_view(old(out)@), (x.0@, x.1 as int)),
{
    let ghost es = wc_view(out@);
    let ghost xv = (x.0@, x.1 as int);
    let n = out.len();
    let mut i: usize = 0;
    while i < n
        invariant
            i <= n,
            n == out.len(),
            out@ == old(out)@,
            es == wc_view(old(out)@),
            xv == (x.0@, x.1 as int),
            forall|j: int| 0 <= j < i ==> !rank_le(xv, es[j]),
        decreases n - i,
    {
        proof {
            assert(es[i as int] == (out@[i as int].0@, out@[i as int].1 as int));
        }
        let le = rank_le_exec(&x, &out[i]);
        if le {
            proof {
                lemma_insert_ranked_at(es, xv, i as int);
            }
            out.insert(i, x);
            proof {
                assert(wc_view(out@) =~= es.subrange(0, i as int) + seq![xv] + es.subrange(
                    i as int,
                    es.len() as int,
                ));
            }
            return ;
        }
        i += 1;
    }
    proof {
        lemma_insert_ranked_at(es, xv, n as int);
    }
    out.push(x);
    proof {
        assert(es.subrange(0, n as int) =~= es);
        assert(es.subrange(n as int, es.len() as int) =~= Seq::<(Seq<char>, int)>::empty());
        assert(wc_view(out@) =~= es + seq![xv] + Seq::<(Seq<char>, int)>::empty());
        assert(es + seq![xv] + Seq::<(Seq<char>, int)>::empty() =~= es.subrange(0, n as int)
            + seq![xv] + es.subrange(n as int, es.len() as int));
    }
}

/// Sorts a table under the ranking order by insertion sort.
pub fn sort_ranked_exec(tab: &Vec<(Vec<char>, u64)>) -> (out: Vec<(Vec<char>, u64)>)
    ensures
        wc_view(out@) == sort_ranked(wc_view(tab@)),
{
    let mut out: Vec<(Vec<char>, u64)> = Vec::new();
    let n = tab.len();
    let mut i: usize = 0;
    proof {
        assert(wc_view(out@) =~= Seq::<(Seq<char>, int)>::empty());
        assert(wc_view(tab@.subrange(0, 0)) =~= Seq::<(Seq<char>, int)>::empty());
    }
    while i < n
        invariant
            i <= n,
            n == tab.len(),
            wc_view(out@) == sort_ranked(wc_view(tab@.subrange(0, i as int))),
        decreases n - i,
    {
        let key = tab[i].0.clone();
        let cnt = tab[i].1;
        proof {
            let pre = tab@.subrange(0, i as int);
            let pre1 = tab@.subrange(0, i + 1);
            assert(pre1.drop_last() == pre);
            assert(pre1.last() == tab@[i as int]);
            assert(wc_view(pre1).drop_last() =~= wc_view(pre));
            assert(wc_view(pre1).last() == (tab@[i as int].0@, tab@[i as int].1 as int));
            assert(sort_ranked(wc_view(pre1)) == insert_ranked(
                sort_ranked(wc_view(pre1).drop_last()),
                wc_view(pre1).last(),
            ));
        }
        insert_ranked_exec(&mut out, (key, cnt));
        i += 1;
    }
    proof {
        assert(tab@.subrange(0, n as int) == tab@);
    }
    out
}

// ---------------------------------------------------------------------
// Whole-text word frequency.
// ---------------------------------------------------------------------

/// The ghost image of a ranked result list.
pub open spec fn result_view(v: Seq<(String, usize)>) -> Seq<(Seq<char>, int)> {
    v.map_values(|e: (String, usize)| (e.0@, e.1 as int))
}

/// The ranked word frequencies of a whole text: its token count table,
/// sorted by count descending (ties by token ascending), truncated to
/// the first `max_words` entries.
pub open spec fn word_frequency_spec(s: Seq<char>, max_words: int) -> Seq<(Seq<char>, int)> {
    let sorted = sort_ranked(tok_close(tok_fold(s)));
    if sorted.len() <= max_words {
        sorted
    } else {
        sorted.subrange(0, max_words)
    }
}

/// Builds an owned string from a character vector.
pub fn chars_to_string(w: &Vec<char>) -> (s: String)
    ensures
        s@ == w@,
{
    let mut s = String::new();
    let mut i: usize = 0;
    while i < w.len()
        invariant
            i <= w@.len(),
            s@ == w@.subrange(0, i as int),
        decreases w@.len() - i,
    {
        push_char(&mut s, w[i]);
        proof {
            assert(w@.subrange(0, i as int).push(w@[i as int]) =~= w@.subrange(0, i + 1));
        }
        i += 1;
    }
    proof {
        assert(w@.subrange(0, w@.len() as int) == w@);
    }
    s
}

/// Counts across a whole table stay no greater than the total.
proof fn lemma_wc_all_le_total(es: Seq<(Seq<char>, int)>, bound: int)
    requires
        wc_wf(es),
        wc_total(es) <= bound,
    ensures
        forall|i: int| 0 <= i < es.len() ==> #[trigger] es[i].1 <= bound,
{
    assert forall|i: int| 0 <= i < es.len() implies #[trigger] es[i].1 <= bound by {
        lemma_wc_count_le_total(es, i);
    }
}

/// Sorting keeps the set of entries: it only permutes them.
pub proof fn lemma_insert_ranked_multiset(es: Seq<(Seq<char>, int)>, x: (Seq<char>, int))
    ensures
        insert_ranked(es, x).to_multiset() == es.to_multiset().insert(x),
    decreases es.len(),
{
    broadcast use vstd::seq_lib::group_to_multiset_ensures;

    if es.len() == 0 {
        assert(insert_ranked(es, x) =~= Seq::<(Seq<char>, int)>::empty().push(x));
    } else if rank_le(x, es.first()) {
        assert(seq![x] + es =~= es.insert(0, x));
        vstd::seq_lib::to_multiset_insert(es, 0, x);
    } else {
        lemma_insert_ranked_multiset(es.drop_first(), x);
        assert(seq![es.first()] + insert_ranked(es.drop_first(), x) =~= insert_ranked(
            es.drop_first(),
            x,
        ).insert(0, es.first()));
        vstd::seq_lib::to_multiset_insert(insert_ranked(es.drop_first(), x), 0, es.first());
        assert(es =~= es.drop_first().insert(0, es.first()));
        vstd::seq_lib::to_multiset_insert(es.drop_first(), 0, es.first());
    }
}

/// Word-frequency ranking of one text: tokens sorted by count
/// descending, ties by ascending token, truncated to `max_words`
/// entries.
pub fn analyze_word_frequency(text: &str, max_words: usize) -> (r: Vec<(String, usize)>)
    ensures
        result_view(r@) == word_frequency_spec(text@, max_words as int),
{
    let chars = str_to_chars(text);
    let mut tab: Vec<(Vec<char>, u64)> = Vec::new();
    let mut pending: Vec<char> = Vec::new();
    let n = chars.len();
    proof {
        assert(wc_view(tab@) =~= Seq::<(Seq<char>, int)>::empty());
        assert(wc_total(wc_view(tab@)) == 0);
    }
    wc_accumulate(&mut tab, &mut pending, &chars);
    proof {
        lemma_tok_fold_from_bounds(
            (Seq::<(Seq<char>, int)>::empty(), Seq::<char>::empty()),
            chars@,
        );
        assert(wc_total(Seq::<(Seq<char>, int)>::empty()) == 0);
    }
    if pending.len() > 0 {
        proof {
            assert(wc_total(wc_view(tab@)) + 1 <= chars@.len());
        }
        wc_bump(&mut tab, &pending);
    }
    let ghost closed = tok_close(tok_fold(chars@));
    proof {
        assert(wc_view(tab@) == closed);
        lemma_wc_add_total(tok_fold(chars@).0, tok_fold(chars@).1);
        assert(wc_total(closed) <= chars@.len());
    }
    let sorted = sort_ranked_exec(&tab);
    // Truncate and convert to owned strings.
    let k = if sorted.len() <= max_words {
        sorted.len()
    } else {
        max_words
    };
    let mut r: Vec<(String, usize)> = Vec::new();
    let mut i: usize = 0;
    proof {
        lemma_wc_add_wf(tok_fold(chars@).0, tok_fold(chars@).1);
        lemma_sort_ranked_wf_total(closed);
        lemma_wc_all_le_total(wc_view(sorted@), wc_total(closed));
        assert(forall|j: int|
            0 <= j < wc_view(sorted@).len() ==> #[trigger] wc_view(sorted@)[j].1
                <= usize::MAX);
        assert(result_view(r@) =~= Seq::<(Seq<char>, int)>::empty());
        assert(wc_view(sorted@).subrange(0, 0) =~= Seq::<(Seq<char>, int)>::empty());
    }
    while i < k
        invariant
            i <= k,
            k <= sorted@.len(),
            result_view(r@) == wc_view(sorted@).subrange(0, i as int),
            forall|j: int| 0 <= j < sorted@.len() ==> #[trigger] wc_view(sorted@)[j].1 <= usize::MAX,
        decreases k - i,
    {
        let word = chars_to_string(&sorted[i].0);
        let cnt = sorted[i].1;
        let ghost ev = (word@, cnt as int);
        let ghost pre = result_view(r@);
        proof {
            assert(wc_view(sorted@)[i as int] == (sorted@[i as int].0@, sorted@[i as int].1 as int));
            assert(wc_view(sorted@)[i as int].1 <= usize::MAX);
            assert(wc_view(sorted@)[i as int] == ev);
        }
        r.push((word, cnt as usize));
        proof {
            assert((cnt as usize) as int == cnt as int);
            assert(result_view(r@) =~= pre.push(ev));
            assert(wc_view(sorted@).subrange(0, i + 1) =~= wc_view(sorted@).subrange(
                0,
                i as int,
            ).push(ev));
        }
        i += 1;
    }
    proof {
        if wc_view(sorted@).len() <= max_words {
            assert(wc_view(sorted@).subrange(0, k as int) =~= wc_view(sorted@));
        }
    }
    r
}

/// A sorted table has the same entries, hence the same well-formedness
/// and total, as the original.
pub proof fn lemma_sort_ranked_wf_total(es: Seq<(Seq<char>, int)>)
    requires
        wc_wf(es),
    ensures
        wc_wf(sort_ranked(es)),
        wc_total(sort_ranked(es)) == wc_total(es),
        sort_ranked(es).to_multiset() == es.to_multiset(),
    decreases es.len(),
{
    broadcast use vstd::seq_lib::group_to_multiset_ensures;

    if es.len() == 0 {
    } else {
        lemma_sort_ranked_wf_total(es.drop_last());
        lemma_insert_ranked_multiset(sort_ranked(es.drop_last()), es.last());
        assert(es.to_multiset() =~= es.drop_last().to_multiset().insert(es.last())) by {
            assert(es.drop_last().push(es.last()) =~= es);
        }
        lemma_multiset_wf_total(es, sort_ranked(es));
    }
}

/// Tables with equal entry multisets have equal totals and the same
/// well-formedness.
proof fn lemma_multiset_wf_total(a: Seq<(Seq<char>, int)>, b: Seq<(Seq<char>, int)>)
    requires
        a.to_multiset() == b.to_multiset(),
        wc_wf(a),
    ensures
        wc_wf(b),
        wc_total(b) == wc_total(a),
    decreases a.len(),
{
    broadcast use vstd::seq_lib::group_to_multiset_ensures;

    if a.len() == 0 {
        assert(a.to_multiset().len() == 0);
        assert(b.to_multiset().len() == 0);
        assert(b.len() == 0);
    } else {
        let x = a.last();
        assert(a.drop_last().push(x) =~= a);
        assert(a.to_multiset().count(x) > 0);
        assert(b.to_multiset().count(x) > 0);
        assert(b.contains(x));
        let i = choose|i: int| 0 <= i < b.len() && b[i] == x;
        let b2 = b.remove(i);
        assert(b2.to_multiset() =~= b.to_multiset().remove(x));
        assert(a.drop_last().to_multiset() =~= a.to_multiset().remove(x)) by {
            assert(a.drop_last().push(x).to_multiset() =~= a.drop_last().to_multiset().insert(x));
        }
        assert(a.drop_last().to_multiset() == b2.to_multiset());
        assert(wc_wf(a.drop_last())) by {
            assert(forall|p: int| 0 <= p < a.drop_last().len() ==> a.drop_last()[p] == a[p]);
        }
        lemma_multiset_wf_total(a.drop_last(), b2);
        // Totals match: removing x from b takes away exactly x's count.
        lemma_wc_total_remove(b, i);
        // Well-formedness of b: each entry of b is an entry of a.
        assert forall|p: int, q: int| 0 <= p < q < b.len() implies b[p].0 != b[q].0 by {
            lemma_distinct_via_multiset(a, b, p, q);
        }
        assert forall|p: int| 0 <= p < b.len() implies b[p].1 >= 1 by {
            assert(b.to_multiset().count(b[p]) > 0);
            assert(a.to_multiset().count(b[p]) > 0);
            assert(a.contains(b[p]));
            let q = choose|q: int| 0 <= q < a.len() && a[q] == b[p];
            assert(a[q].1 >= 1);
        }
    }
}

proof fn lemma_wc_total_remove(b: Seq<(Seq<char>, int)>, i: int)
    requires
        0 <= i < b.len(),
    ensures
        wc_total(b.remove(i)) == wc_total(b) - b[i].1,
    decreases b.len(),
{
    if i == b.len() - 1 {
        assert(b.remove(i) =~= b.drop_last());
    } else {
        lemma_wc_total_remove(b.drop_last(), i);
        assert(b.remove(i).drop_last() =~= b.drop_last().remove(i));
        assert(b.remove(i).last() == b.last());
    }
}

/// Two entries at distinct positions of `b` with equal tokens would
/// force a duplicate token in `a` as well.
proof fn lemma_distinct_via_multiset(
    a: Seq<(Seq<char>, int)>,
    b: Seq<(Seq<char>, int)>,
    p: int,
    q: int,
)
    requires
        a.to_multiset() == b.to_multiset(),
        wc_wf(a),
        0 <= p < q < b.len(),
    ensures
        b[p].0 != b[q].0,
{
    broadcast use vstd::seq_lib::group_to_multiset_ensures;

    if b[p].0 == b[q].0 {
        if b[p] == b[q] {
            // The same entry twice in b: its multiplicity is at least 2,
            // so a holds it twice as well, contradicting distinctness.
            let x = b[p];
            lemma_count_at_least_two(b, p, q);
            assert(a.to_multiset().count(x) >= 2);
            lemma_two_indexes_from_count(a, x);
            let (s, t) = choose|s: int, t: int|
                0 <= s < t < a.len() && a[s] == x && a[t] == x;
            assert(a[s].0 != a[t].0);
        } else {
            // Two different entries with the same token both occur in a.
            assert(b.to_multiset().count(b[p]) > 0);
            assert(b.to_multiset().count(b[q]) > 0);
            assert(a.contains(b[p]));
            assert(a.contains(b[q]));
            let s = choose|s: int| 0 <= s < a.len() && a[s] == b[p];
            let t = choose|t: int| 0 <= t < a.len() && a[t] == b[q];
            assert(s != t);
            if s < t {
                assert(a[s].0 != a[t].0);
            } else {
                assert(a[t].0 != a[s].0);
            }
        }
    }
}

proof fn lemma_count_at_least_two(b: Seq<(Seq<char>, int)>, p: int, q: int)
    requires
        0 <= p < q < b.len(),
        b[p] == b[q],
    ensures
        b.to_multiset().count(b[p]) >= 2,
{
    broadcast use vstd::seq_lib::group_to_multiset_ensures;

    let b2 = b.remove(q);
    assert(b2.to_multiset() =~= b.to_multiset().remove(b[q]));
    assert(b2[p] == b[p]);
    assert(b2.contains(b[p]));
    assert(b2.to_multiset().count(b[p]) > 0);
}

/// An entry with multiplicity two or more occurs at two distinct
/// positions.
proof fn lemma_two_indexes_from_count(a: Seq<(Seq<char>, int)>, x: (Seq<char>, int))
    requires
        a.to_multiset().count(x) >= 2,
    ensures
        exists|s: int, t: int| 0 <= s < t < a.len() && a[s] == x && a[t] == x,
{
    broadcast use vstd::seq_lib::group_to_multiset_ensures;

    assert(a.to_multiset().count(x) > 0);
    assert(a.contains(x));
    let s = choose|s: int| 0 <= s < a.len() && a[s] == x;
    let a2 = a.remove(s);
    assert(a2.to_multiset() =~= a.to_multiset().remove(x));
    assert(a2.to_multiset().count(x) >= 1);
    assert(a2.contains(x));
    let t = choose|t: int| 0 <= t < a2.len() && a2[t] == x;
    if t < s {
        assert(a[t] == x);
        assert(0 <= t < s < a.len() && a[t] == x && a[s] == x);
    } else {
        assert(a[t + 1] == x);
        assert(0 <= s < t + 1 < a.len() && a[s] == x && a[t + 1] == x);
    }
}

} // verus!
