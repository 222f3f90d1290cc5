//! Query and ranking engine: case-insensitive occurrence search, term and
//! token splitting, highlight extraction, excerpts, and ranked full-text
//! search over the synchronized index.
//!
//! Case-insensitive comparison lowercases text through the library's trusted
//! view of Unicode lowercasing. Tokens are maximal alphanumeric runs.
use vstd::prelude::*;

use crate::ext::{is_alnum, is_alnum_char, is_space, is_whitespace_char, lower_of, lowercase};
use crate::model::{Note, SearchFilters, SearchResult};
use crate::store::entry_matches;

verus! {

/// The term occurs in `s` at position `i`, up to case: the window of the
/// term's length starting there lowercases to the lowercased term.
pub open spec fn occurs_at(s: Seq<char>, t: Seq<char>, i: int) -> bool {
    &&& 0 <= i
    &&& i + t.len() <= s.len()
    &&& lower_of(s.subrange(i, i + t.len())) == lower_of(t)
}

/// The term occurs somewhere in `s`, up to case folding.
pub open spec fn occurs(s: Seq<char>, t: Seq<char>) -> bool {
    exists|i: int| occurs_at(s, t, i)
}

/// The first position at or after `i` where the term occurs, or -1.
pub open spec fn first_occ_from(s: Seq<char>, t: Seq<char>, i: int) -> int
    decreases s.len() - i,
        when 0 <= i
{
    if i + t.len() > s.len() {
        -1
    } else if t.len() == 0 {
        i
    } else if occurs_at(s, t, i) {
        i
    } else {
        first_occ_from(s, t, i + 1)
    }
}

/// The first position where the term occurs in `s`, or -1.
pub open spec fn first_occurrence(s: Seq<char>, t: Seq<char>) -> int {
    first_occ_from(s, t, 0)
}

/// A position that occurs, before which nothing occurs, is the first.
proof fn lemma_first_occ_is(s: Seq<char>, t: Seq<char>, i: int, p: int)
    requires
        0 <= i <= p,
        occurs_at(s, t, p),
        forall|q: int| i <= q < p ==> !occurs_at(s, t, q),
    ensures
        first_occ_from(s, t, i) == p,
    decreases p - i,
{
    if t.len() == 0 {
        assert(s.subrange(i, i) =~= t);
        assert(occurs_at(s, t, i));
        assert(i == p);
    } else if i < p {
        lemma_first_occ_is(s, t, i + 1, p);
    }
}

/// When the term occurs nowhere at or after `i`, the search comes up empty.
proof fn lemma_first_occ_none(s: Seq<char>, t: Seq<char>, i: int)
    requires
        0 <= i,
        forall|q: int| i <= q ==> !occurs_at(s, t, q),
    ensures
        first_occ_from(s, t, i) == -1,
    decreases s.len() - i,
{
    if i + t.len() <= s.len() {
        if t.len() == 0 {
            assert(s.subrange(i, i) =~= t);
            assert(occurs_at(s, t, i));
        } else {
            lemma_first_occ_none(s, t, i + 1);
        }
    }
}

/// The first case-insensitive occurrence of `t` in `s`, if there is one.
pub fn find_ci(s: &Vec<char>, t: &Vec<char>) -> (r: Option<usize>)
    ensures
        r matches Some(p) ==> p == first_occurrence(s@, t@) && occurs_at(s@, t@, p as int),
        r is None ==> first_occurrence(s@, t@) == -1 && !occurs(s@, t@),
{
    if t.len() > s.len() {
        proof {
            assert(forall|q: int| 0 <= q ==> !occurs_at(s@, t@, q));
            lemma_first_occ_none(s@, t@, 0);
        }
        return None;
    }
    if t.len() == 0 {
        proof {
            assert(s@.subrange(0, 0) =~= t@);
            assert(occurs_at(s@, t@, 0));
            lemma_first_occ_is(s@, t@, 0, 0);
        }
        return Some(0);
    }
    let whole = crate::text::string_range(t, 0, t.len());
    proof {
        assert(whole@ =~= t@);
    }
    let lt = lowercase(whole.as_str());
    let bound = s.len() - t.len();
    let mut p: usize = 0;
    while p <= bound
        invariant
            1 <= t@.len() <= s@.len() <= usize::MAX,
            bound == s@.len() - t@.len(),
            p <= bound + 1,
            lt@ == lower_of(t@),
            forall|q: int| 0 <= q < p ==> !occurs_at(s@, t@, q),
        decreases bound + 1 - p,
    {
        let win = crate::text::string_range(s, p, p + t.len());
        let lw = lowercase(win.as_str());
        if crate::text::str_eq(lw.as_str(), lt.as_str()) {
            proof {
                assert(occurs_at(s@, t@, p as int));
                lemma_first_occ_is(s@, t@, 0, p as int);
            }
            return Some(p);
        }
        proof {
            assert(!occurs_at(s@, t@, p as int));
        }
        p += 1;
    }
    proof {
        assert forall|q: int| 0 <= q implies !occurs_at(s@, t@, q) by {
            if q <= bound {
            } else {
                assert(q + t@.len() > s@.len());
            }
        }
        lemma_first_occ_none(s@, t@, 0);
    }
    None
}

/// End of the run of characters satisfying `keep` that starts at `i`.
pub open spec fn run_end(s: Seq<char>, i: int, keep: spec_fn(char) -> bool) -> int
    decreases s.len() - i,
        when 0 <= i
{
    if i >= s.len() {
        s.len() as int
    } else if !keep(s[i]) {
        i
    } else {
        run_end(s, i + 1, keep)
    }
}

/// A run never ends before it starts nor after the text.
pub proof fn lemma_run_end_bounds(s: Seq<char>, i: int, keep: spec_fn(char) -> bool)
    requires
        0 <= i <= s.len(),
    ensures
        i <= run_end(s, i, keep) <= s.len(),
        i < s.len() && keep(s[i]) ==> run_end(s, i, keep) > i,
        forall|j: int| i <= j < run_end(s, i, keep) ==> keep(s[j]),
        run_end(s, i, keep) < s.len() ==> !keep(s[run_end(s, i, keep)]),
    decreases s.len() - i,
{
    if i < s.len() && keep(s[i]) {
        lemma_run_end_bounds(s, i + 1, keep);
    }
}

/// The run end is the unique boundary: everything before keeps, the
/// boundary itself does not.
pub proof fn lemma_run_end_is(s: Seq<char>, i: int, keep: spec_fn(char) -> bool, e: int)
    requires
        0 <= i <= e <= s.len(),
        forall|j: int| i <= j < e ==> #[trigger] keep(s[j]),
        e < s.len() ==> !keep(s[e]),
    ensures
        run_end(s, i, keep) == e,
{
    lemma_run_end_bounds(s, i, keep);
    let r = run_end(s, i, keep);
    if r < e {
        assert(keep(s[r]));
        assert(false);
    }
    if r > e {
        assert(keep(s[e]));
        assert(false);
    }
}

#[via_fn]
proof fn split_runs_from_decreases(s: Seq<char>, i: int, keep: spec_fn(char) -> bool) {
    lemma_run_end_bounds(s, i, keep);
}

/// The maximal runs of characters satisfying `keep` at or after `i`, in
/// order.
pub open spec fn split_runs_from(s: Seq<char>, i: int, keep: spec_fn(char) -> bool) -> Seq<
    Seq<char>,
>
    decreases s.len() - i,
        when 0 <= i <= s.len()
        via split_runs_from_decreases
{
    if i >= s.len() {
        Seq::empty()
    } else if !keep(s[i]) {
        split_runs_from(s, i + 1, keep)
    } else {
        seq![s.subrange(i, run_end(s, i, keep))] + split_runs_from(s, run_end(s, i, keep), keep)
    }
}

/// The maximal runs of characters satisfying `keep`, in order.
pub open spec fn split_runs(s: Seq<char>, keep: spec_fn(char) -> bool) -> Seq<Seq<char>> {
    split_runs_from(s, 0, keep)
}

/// The predicate that keeps a character inside a whitespace-delimited term.
pub open spec fn non_space_pred() -> spec_fn(char) -> bool {
    |c: char| !is_space(c)
}

/// The predicate that keeps a character inside a token.
pub open spec fn alnum_pred() -> spec_fn(char) -> bool {
    |c: char| is_alnum(c)
}

/// The whitespace-delimited terms of a query.
pub open spec fn terms_spec(q: Seq<char>) -> Seq<Seq<char>> {
    split_runs(q, non_space_pred())
}

/// The tokens of a text: its maximal alphanumeric runs.
pub open spec fn tokens_spec(s: Seq<char>) -> Seq<Seq<char>> {
    split_runs(s, alnum_pred())
}

/// Splits `cs` into its maximal whitespace-delimited terms.
pub fn split_terms(cs: &Vec<char>) -> (r: Vec<Vec<char>>)
    ensures
        r.deep_view() == terms_spec(cs@),
{
    split_runs_exec(cs, false)
}

/// Splits `cs` into its tokens, the maximal alphanumeric runs.
pub fn split_tokens(cs: &Vec<char>) -> (r: Vec<Vec<char>>)
    ensures
        r.deep_view() == tokens_spec(cs@),
{
    split_runs_exec(cs, true)
}

/// Whether the character stays inside a run under the chosen splitting.
fn keep_char(c: char, alnum: bool) -> (r: bool)
    ensures
        alnum ==> r == alnum_pred()(c),
        !alnum ==> r == non_space_pred()(c),
{
    if alnum {
        is_alnum_char(c)
    } else {
        !is_whitespace_char(c)
    }
}

/// The splitting predicate the two modes use.
spec fn keep_of(alnum: bool) -> spec_fn(char) -> bool {
    if alnum {
        alnum_pred()
    } else {
        non_space_pred()
    }
}

/// Splits `cs` into maximal runs of the chosen character class.
fn split_runs_exec(cs: &Vec<char>, alnum: bool) -> (r: Vec<Vec<char>>)
    ensures
        r.deep_view() == split_runs(cs@, keep_of(alnum)),
{
    let mut out: Vec<Vec<char>> = Vec::new();
    let mut i: usize = 0;
    while i < cs.len()
        invariant
            i <= cs@.len(),
            out.deep_view() + split_runs_from(cs@, i as int, keep_of(alnum)) == split_runs(
                cs@,
                keep_of(alnum),
            ),
        decreases cs@.len() - i,
    {
        if !keep_char(cs[i], alnum) {
            proof {
                assert(!keep_of(alnum)(cs@[i as int]));
                assert(split_runs_from(cs@, i as int, keep_of(alnum)) == split_runs_from(
                    cs@,
                    i + 1 as int,
                    keep_of(alnum),
                ));
            }
            i += 1;
        } else {
            let start = i;
            let mut run: Vec<char> = Vec::new();
            run.push(cs[start]);
            i += 1;
            while i < cs.len() && keep_char(cs[i], alnum)
                invariant
                    start < i <= cs@.len(),
                    run@ == cs@.subrange(start as int, i as int),
                    forall|j: int| start <= j < i ==> #[trigger] keep_of(alnum)(cs@[j]),
                decreases cs@.len() - i,
            {
                run.push(cs[i]);
                proof {
                    assert(cs@.subrange(start as int, i + 1 as int) =~= cs@.subrange(
                        start as int,
                        i as int,
                    ).push(cs@[i as int]));
                }
                i += 1;
            }
            let ghost dv0 = out.deep_view();
            proof {
                let ke = keep_of(alnum);
                lemma_run_end_bounds(cs@, start as int, ke);
                let e = run_end(cs@, start as int, ke);
                if e < i as int {
                    assert(start <= e < i);
                    assert(ke(cs@[e]));
                    assert(false);
                }
                if e > i as int {
                    assert(start <= i < e <= cs@.len());
                    assert(ke(cs@[i as int]));
                    assert(false);
                }
                assert(e == i as int);
                assert(ke(cs@[start as int]));
                assert(split_runs_from(cs@, start as int, ke) == seq![cs@.subrange(
                    start as int,
                    i as int,
                )] + split_runs_from(cs@, i as int, ke));
            }
            out.push(run);
            proof {
                let ke = keep_of(alnum);
                assert(run.deep_view() =~= run@);
                assert(out.deep_view() =~= dv0.push(run.deep_view()));
                assert(out.deep_view() =~= dv0.push(run@));
                assert(dv0.push(run@) + split_runs_from(cs@, i as int, ke) =~= dv0 + (seq![
                    cs@.subrange(start as int, i as int),
                ] + split_runs_from(cs@, i as int, ke)));
            }
        }
    }
    proof {
        assert(out.deep_view() + Seq::<Seq<char>>::empty() =~= out.deep_view());
    }
    out
}

/// The highlight window around an occurrence at `p` of a term of length
/// `tlen`: up to 30 characters of context on each side, in ellipsis markers.
pub open spec fn window_spec(content: Seq<char>, p: int, tlen: int) -> Seq<char> {
    let start = if p >= 30 {
        p - 30
    } else {
        0
    };
    let end = if p + tlen + 30 <= content.len() {
        p + tlen + 30
    } else {
        content.len() as int
    };
    seq!['.', '.', '.'] + content.subrange(start, end) + seq!['.', '.', '.']
}

/// The highlight one term contributes: the window around its first
/// case-insensitive occurrence, or nothing when it does not occur.
pub open spec fn term_highlight(content: Seq<char>, term: Seq<char>) -> Option<Seq<char>> {
    let p = first_occurrence(content, term);
    if p >= 0 {
        Some(window_spec(content, p, term.len() as int))
    } else {
        None
    }
}

/// The highlights the terms contribute, one per occurring term, in term
/// order.
pub open spec fn highlights_of_terms(content: Seq<char>, terms: Seq<Seq<char>>) -> Seq<Seq<char>>
    decreases terms.len(),
{
    if terms.len() == 0 {
        Seq::empty()
    } else {
        (match term_highlight(content, terms[0]) {
            Some(h) => seq![h],
            None => Seq::empty(),
        }) + highlights_of_terms(content, terms.skip(1))
    }
}

/// The highlights of a query over a note's content: for each
/// whitespace-delimited term of the query, the context window around its
/// first case-insensitive occurrence in the content.
pub open spec fn highlights_spec(content: Seq<char>, query: Seq<char>) -> Seq<Seq<char>> {
    highlights_of_terms(content, terms_spec(query))
}

/// Builds the ellipsis-wrapped window `cs[start..end]`.
fn window_string(cs: &Vec<char>, p: usize, tlen: usize) -> (r: String)
    requires
        p + tlen <= cs@.len(),
    ensures
        r@ == window_spec(cs@, p as int, tlen as int),
{
    let start = if p >= 30 {
        p - 30
    } else {
        0
    };
    let end = if cs.len() - (p + tlen) >= 30 {
        p + tlen + 30
    } else {
        cs.len()
    };
    let mut out = String::from_str("...");
    let mid = crate::text::string_range(cs, start, end);
    out.append(mid.as_str());
    out.append("...");
    proof {
        reveal_strlit("...");
        assert("..."@ =~= seq!['.', '.', '.']);
        assert(out@ =~= window_spec(cs@, p as int, tlen as int));
    }
    out
}

/// The text of `extract_highlights(content, query)`.
pub fn extract_highlights(content: &str, query: &str) -> (r: Vec<String>)
    ensures
        r.deep_view() == highlights_spec(content@, query@),
{
    let cs = crate::text::chars_vec(content);
    let qs = crate::text::chars_vec(query);
    let terms = split_terms(&qs);
    let ghost tv = terms.deep_view();
    proof {
        assert(tv.skip(0) =~= tv);
    }
    let mut out: Vec<String> = Vec::new();
    let mut i: usize = 0;
    while i < terms.len()
        invariant
            i <= terms@.len(),
            cs@ == content@,
            terms.deep_view() == tv,
            tv == terms_spec(query@),
            out.deep_view() + highlights_of_terms(content@, tv.skip(i as int)) == highlights_spec(
                content@,
                query@,
            ),
        decreases terms@.len() - i,
    {
        proof {
            assert(tv.skip(i as int)[0] == tv[i as int]);
            assert(tv[i as int] == terms@[i as int].deep_view());
            assert(terms@[i as int].deep_view() =~= terms@[i as int]@);
            assert(tv.skip(i as int).skip(1) =~= tv.skip(i + 1 as int));
        }
        let ghost dv0 = out.deep_view();
        match find_ci(&cs, &terms[i]) {
            Some(p) => {
                let h = window_string(&cs, p, terms[i].len());
                out.push(h);
                proof {
                    assert(out.deep_view() =~= dv0.push(h@));
                    assert(dv0.push(h@) + highlights_of_terms(content@, tv.skip(i + 1 as int))
                        =~= dv0 + (seq![h@] + highlights_of_terms(content@, tv.skip(i + 1 as int))));
                }
            },
            None => {
                proof {
                    assert(highlights_of_terms(content@, tv.skip(i as int)) =~= Seq::<
                        Seq<char>,
                    >::empty() + highlights_of_terms(content@, tv.skip(i + 1 as int)));
                    assert(Seq::<Seq<char>>::empty() + highlights_of_terms(
                        content@,
                        tv.skip(i + 1 as int),
                    ) =~= highlights_of_terms(content@, tv.skip(i + 1 as int)));
                }
            },
        }
        i += 1;
    }
    proof {
        assert(tv.skip(tv.len() as int) =~= Seq::<Seq<char>>::empty());
        assert(out.deep_view() + Seq::<Seq<char>>::empty() =~= out.deep_view());
    }
    out
}

/// The opening match marker of an excerpt.
pub open spec fn mark_open() -> Seq<char> {
    seq!['<', 'm', 'a', 'r', 'k', '>']
}

/// The closing match marker of an excerpt.
pub open spec fn mark_close() -> Seq<char> {
    seq!['<', '/', 'm', 'a', 'r', 'k', '>']
}

/// The first term of the list that occurs in the content, as its position
/// and length.
pub open spec fn first_hit(content: Seq<char>, terms: Seq<Seq<char>>) -> Option<(int, int)>
    decreases terms.len(),
{
    if terms.len() == 0 {
        None
    } else {
        let p = first_occurrence(content, terms[0]);
        if p >= 0 {
            Some((p, terms[0].len() as int))
        } else {
            first_hit(content, terms.skip(1))
        }
    }
}

/// The excerpt of a note's content for the given terms: a window of up to
/// 32 characters of context on each side of the first occurring term, the
/// match wrapped in markers and the clipped ends in ellipses; with no
/// occurrence, the leading 64 characters.
pub open spec fn excerpt_of(content: Seq<char>, terms: Seq<Seq<char>>) -> Seq<char> {
    match first_hit(content, terms) {
        Some((p, tlen)) => {
            let start = if p >= 32 {
                p - 32
            } else {
                0
            };
            let end = if p + tlen + 32 <= content.len() {
                p + tlen + 32
            } else {
                content.len() as int
            };
            (if start > 0 {
                seq!['.', '.', '.']
            } else {
                Seq::empty()
            }) + content.subrange(start, p) + mark_open() + content.subrange(p, p + tlen)
                + mark_close() + content.subrange(p + tlen, end) + (if end < content.len() {
                seq!['.', '.', '.']
            } else {
                Seq::empty()
            })
        },
        None => {
            let lead = if content.len() <= 64 {
                content.len() as int
            } else {
                64
            };
            content.subrange(0, lead) + (if content.len() > 64 {
                seq!['.', '.', '.']
            } else {
                Seq::empty()
            })
        },
    }
}

/// The excerpt of a note's content for a query's terms.
pub open spec fn excerpt_spec(content: Seq<char>, query: Seq<char>) -> Seq<char> {
    excerpt_of(content, terms_spec(query))
}

/// Builds the excerpt of `cs` for the given terms.
pub fn excerpt_string(cs: &Vec<char>, terms: &Vec<Vec<char>>) -> (r: String)
    ensures
        r@ == excerpt_of(cs@, terms.deep_view()),
{
    let ghost tv = terms.deep_view();
    proof {
        assert(tv.skip(0) =~= tv);
    }
    let mut i: usize = 0;
    while i < terms.len()
        invariant
            i <= terms@.len(),
            terms.deep_view() == tv,
            first_hit(cs@, tv) == first_hit(cs@, tv.skip(i as int)),
        decreases terms@.len() - i,
    {
        proof {
            assert(tv.skip(i as int)[0] == tv[i as int]);
            assert(tv[i as int] == terms@[i as int].deep_view());
            assert(terms@[i as int].deep_view() =~= terms@[i as int]@);
            assert(tv.skip(i as int).skip(1) =~= tv.skip(i + 1 as int));
        }
        match find_ci(cs, &terms[i]) {
            Some(p) => {
                let tlen = terms[i].len();
                let start = if p >= 32 {
                    p - 32
                } else {
                    0
                };
                let end = if cs.len() - (p + tlen) >= 32 {
                    p + tlen + 32
                } else {
                    cs.len()
                };
                let mut out = String::new();
                if start > 0 {
                    out.append("...");
                }
                let before = crate::text::string_range(cs, start, p);
                out.append(before.as_str());
                out.append("<mark>");
                let matched = crate::text::string_range(cs, p, p + tlen);
                out.append(matched.as_str());
                out.append("</mark>");
                let after = crate::text::string_range(cs, p + tlen, end);
                out.append(after.as_str());
                if end < cs.len() {
                    out.append("...");
                }
                proof {
                    reveal_strlit("...");
                    reveal_strlit("<mark>");
                    reveal_strlit("</mark>");
                    assert("..."@ =~= seq!['.', '.', '.']);
                    assert("<mark>"@ =~= mark_open());
                    assert("</mark>"@ =~= mark_close());
                    assert(out@ =~= excerpt_of(cs@, tv));
                }
                return out;
            },
            None => {
            },
        }
        i += 1;
    }
    proof {
        assert(tv.skip(tv.len() as int) =~= Seq::<Seq<char>>::empty());
    }
    let lead = if cs.len() <= 64 {
        cs.len()
    } else {
        64
    };
    let mut out = crate::text::string_range(cs, 0, lead);
    if cs.len() > 64 {
        out.append("...");
    }
    proof {
        reveal_strlit("...");
        assert("..."@ =~= seq!['.', '.', '.']);
        assert(out@ =~= excerpt_of(cs@, tv));
    }
    out
}

/// Whether two character vectors hold the same characters.
fn chars_eq(a: &Vec<char>, b: &Vec<char>) -> (r: bool)
    ensures
        r == (a@ == b@),
{
    if a.len() != b.len() {
        return false;
    }
    let mut i: usize = 0;
    while i < a.len()
        invariant
            a@.len() == b@.len(),
            i <= a@.len(),
            forall|j: int| 0 <= j < i ==> a@[j] == b@[j],
        decreases a@.len() - i,
    {
        if a[i] != b[i] {
            return false;
        }
        i += 1;
    }
    proof {
        assert(a@ =~= b@);
    }
    true
}

/// The case folding every token undergoes before comparison.
pub open spec fn fold_of() -> spec_fn(Seq<char>) -> Seq<char> {
    |t: Seq<char>| lower_of(t)
}

/// The case-folded tokens of a text.
pub open spec fn folded_tokens(s: Seq<char>) -> Seq<Seq<char>> {
    tokens_spec(s).map_values(fold_of())
}

/// Lowercases one token for comparison.
fn fold_vec(t: &Vec<char>) -> (r: Vec<char>)
    ensures
        r@ == lower_of(t@),
{
    let whole = crate::text::string_range(t, 0, t.len());
    proof {
        assert(whole@ =~= t@);
    }
    let lowered = lowercase(whole.as_str());
    crate::text::chars_vec(lowered.as_str())
}

/// The case-folded tokens of a text.
fn folded_tokens_exec(s: &str) -> (r: Vec<Vec<char>>)
    ensures
        r.deep_view() == folded_tokens(s@),
{
    let cs = crate::text::chars_vec(s);
    let toks = split_tokens(&cs);
    let ghost tv = toks.deep_view();
    let mut out: Vec<Vec<char>> = Vec::new();
    let mut i: usize = 0;
    while i < toks.len()
        invariant
            i <= toks@.len(),
            toks.deep_view() == tv,
            tv == tokens_spec(s@),
            out.deep_view().len() == i,
            forall|m: int| 0 <= m < i ==> out.deep_view()[m] == lower_of(tv[m]),
        decreases toks@.len() - i,
    {
        proof {
            assert(tv[i as int] == toks@[i as int].deep_view());
            assert(toks@[i as int].deep_view() =~= toks@[i as int]@);
        }
        let folded = fold_vec(&toks[i]);
        let ghost fv = folded@;
        let ghost dvb = out.deep_view();
        out.push(folded);
        proof {
            assert(out.deep_view()[i as int] == out@[i as int].deep_view());
            assert(out@[i as int].deep_view() =~= fv);
            assert forall|m: int| 0 <= m < i implies out.deep_view()[m] == lower_of(tv[m]) by {
                assert(out.deep_view()[m] == out@[m].deep_view());
                assert(dvb[m] == lower_of(tv[m]));
            }
        }
        i += 1;
    }
    proof {
        assert(out.deep_view() =~= folded_tokens(s@));
    }
    out
}

/// Whether the token list holds this token.
fn contains_tok(ts: &Vec<Vec<char>>, t: &Vec<char>) -> (r: bool)
    ensures
        r == ts.deep_view().contains(t@),
{
    let mut i: usize = 0;
    while i < ts.len()
        invariant
            i <= ts@.len(),
            forall|j: int| 0 <= j < i ==> ts.deep_view()[j] != t@,
        decreases ts@.len() - i,
    {
        proof {
            assert(ts.deep_view()[i as int] == ts@[i as int].deep_view());
            assert(ts@[i as int].deep_view() =~= ts@[i as int]@);
        }
        if chars_eq(&ts[i], t) {
            proof {
                assert(ts.deep_view()[i as int] == t@);
            }
            return true;
        }
        i += 1;
    }
    proof {
        assert(!ts.deep_view().contains(t@));
    }
    false
}

/// How many of the tokens lie in the query's token list.
pub open spec fn count_in(ts: Seq<Seq<char>>, qt: Seq<Seq<char>>) -> nat
    decreases ts.len(),
{
    if ts.len() == 0 {
        0
    } else {
        count_in(ts.drop_last(), qt) + (if qt.contains(ts.last()) {
            1nat
        } else {
            0nat
        })
    }
}

/// Counts the tokens of `ts` that lie in `qt`.
fn count_matches(ts: &Vec<Vec<char>>, qt: &Vec<Vec<char>>) -> (r: usize)
    ensures
        r == count_in(ts.deep_view(), qt.deep_view()),
{
    proof {
        assert(ts.deep_view().take(0) =~= Seq::<Seq<char>>::empty());
    }
    let mut r: usize = 0;
    let mut i: usize = 0;
    while i < ts.len()
        invariant
            i <= ts@.len(),
            ts.deep_view().len() == ts@.len(),
            r <= i,
            r == count_in(ts.deep_view().take(i as int), qt.deep_view()),
        decreases ts@.len() - i,
    {
        proof {
            assert(ts.deep_view().take(i + 1 as int).drop_last() =~= ts.deep_view().take(i as int));
            assert(ts.deep_view().take(i + 1 as int).last() == ts.deep_view()[i as int]);
            assert(ts.deep_view()[i as int] == ts@[i as int].deep_view());
            assert(ts@[i as int].deep_view() =~= ts@[i as int]@);
        }
        if contains_tok(qt, &ts[i]) {
            r += 1;
        }
        i += 1;
    }
    proof {
        assert(ts.deep_view().take(ts@.len() as int) =~= ts.deep_view());
    }
    r
}

/// Whether every token of `qt` lies in `ts`.
fn all_in(qt: &Vec<Vec<char>>, ts: &Vec<Vec<char>>) -> (r: bool)
    ensures
        r == (forall|i: int|
            0 <= i < qt.deep_view().len() ==> ts.deep_view().contains(#[trigger] qt.deep_view()[i])),
{
    let mut i: usize = 0;
    while i < qt.len()
        invariant
            i <= qt@.len(),
            qt.deep_view().len() == qt@.len(),
            forall|j: int| 0 <= j < i ==> ts.deep_view().contains(#[trigger] qt.deep_view()[j]),
        decreases qt@.len() - i,
    {
        proof {
            assert(qt.deep_view()[i as int] == qt@[i as int].deep_view());
            assert(qt@[i as int].deep_view() =~= qt@[i as int]@);
        }
        if !contains_tok(ts, &qt[i]) {
            return false;
        }
        i += 1;
    }
    true
}

/// The searchable token pool of a note: the folded tokens of its title,
/// content and tag text, in that order.
pub open spec fn all_tokens(title: Seq<char>, content: Seq<char>, tags: Seq<char>) -> Seq<
    Seq<char>,
> {
    folded_tokens(title) + folded_tokens(content) + folded_tokens(tags)
}

/// A note matches a query when the query has at least one token and every
/// one of its folded tokens occurs among the note's tokens.
pub open spec fn note_matches(
    title: Seq<char>,
    content: Seq<char>,
    tags: Seq<char>,
    q: Seq<char>,
) -> bool {
    let qt = folded_tokens(q);
    &&& qt.len() > 0
    &&& forall|i: int| 0 <= i < qt.len() ==> all_tokens(title, content, tags).contains(#[trigger] qt[i])
}

/// A note's relevance to a query: how many of its tokens are query tokens.
/// A higher score is a better match.
pub open spec fn note_score(
    title: Seq<char>,
    content: Seq<char>,
    tags: Seq<char>,
    q: Seq<char>,
) -> nat {
    count_in(all_tokens(title, content, tags), folded_tokens(q))
}

/// The whole text is whitespace.
pub open spec fn all_space(q: Seq<char>) -> bool {
    forall|i: int| 0 <= i < q.len() ==> is_space(#[trigger] q[i])
}

/// Whether the text is empty or whitespace alone.
pub fn is_blank(q: &str) -> (r: bool)
    ensures
        r == all_space(q@),
{
    let cs = crate::text::chars_vec(q);
    let mut i: usize = 0;
    while i < cs.len()
        invariant
            cs@ == q@,
            i <= cs@.len(),
            forall|j: int| 0 <= j < i ==> is_space(#[trigger] cs@[j]),
        decreases cs@.len() - i,
    {
        if !is_whitespace_char(cs[i]) {
            return false;
        }
        i += 1;
    }
    true
}

/// The mathematical shadow of one search hit: every field of a
/// `SearchResult`, as a value.
pub struct ResultView {
    pub note_id: Seq<char>,
    pub title: Seq<char>,
    pub excerpt: Seq<char>,
    pub highlights: Seq<Seq<char>>,
    pub relevance_score: nat,
    pub last_modified: int,
}

/// The shadow of a concrete search hit.
pub open spec fn view_of_result() -> spec_fn(SearchResult) -> ResultView {
    |r: SearchResult|
        ResultView {
            note_id: r.note_id@,
            title: r.title@,
            excerpt: r.excerpt@,
            highlights: r.highlights.deep_view(),
            relevance_score: r.relevance_score as nat,
            last_modified: r.last_modified as int,
        }
}

/// The hit a matching note owes the caller.
pub open spec fn result_view_fn(q: Seq<char>) -> spec_fn(Note) -> ResultView {
    |n: Note|
        ResultView {
            note_id: n.id@,
            title: n.title@,
            excerpt: excerpt_spec(n.content@, q),
            highlights: highlights_spec(n.content@, q),
            relevance_score: note_score(n.title@, n.content@, n.tags@, q),
            last_modified: n.updated_at as int,
        }
}

/// The notes a query selects: not archived, and matching.
pub open spec fn match_pred(q: Seq<char>) -> spec_fn(Note) -> bool {
    |n: Note| !n.is_archived && note_matches(n.title@, n.content@, n.tags@, q)
}

/// Hits ordered best match first: greater score first, then the more
/// recently modified note; hits equal in both keep insertion order.
pub open spec fn rank_leq() -> spec_fn(SearchResult, SearchResult) -> bool {
    |a: SearchResult, b: SearchResult|
        a.relevance_score > b.relevance_score || (a.relevance_score == b.relevance_score
            && a.last_modified >= b.last_modified)
}

/// The same order on shadows.
pub open spec fn rank_leq_v() -> spec_fn(ResultView, ResultView) -> bool {
    |a: ResultView, b: ResultView|
        a.relevance_score > b.relevance_score || (a.relevance_score == b.relevance_score
            && a.last_modified >= b.last_modified)
}

/// Everything a search returns: the shadows of the matching notes' hits,
/// best match first, capped at 50 entries. An empty or whitespace-only
/// query selects nothing.
pub open spec fn search_spec(ns: Seq<Note>, q: Seq<char>) -> Seq<ResultView> {
    if all_space(q) {
        Seq::empty()
    } else {
        let m = crate::order::sort_by(
            ns.filter(match_pred(q)).map_values(result_view_fn(q)),
            rank_leq_v(),
        );
        m.take(
            if m.len() <= 50 {
                m.len() as int
            } else {
                50
            },
        )
    }
}

/// Inserts a hit into a listing kept best match first.
fn insert_result_ranked(out: &mut Vec<SearchResult>, x: SearchResult)
    ensures
        final(out)@ == crate::order::insert_sorted_by(old(out)@, x, rank_leq()),
{
    let mut idx: usize = 0;
    while idx < out.len() && (out[idx].relevance_score > x.relevance_score
        || (out[idx].relevance_score == x.relevance_score && out[idx].last_modified
        >= x.last_modified))
        invariant
            idx <= out@.len(),
            forall|j: int| 0 <= j < idx ==> #[trigger] rank_leq()(out@[j], x),
            out@ == old(out)@,
        decreases out@.len() - idx,
    {
        idx += 1;
    }
    proof {
        crate::order::lemma_insert_sorted_at(out@, x, rank_leq(), idx as int);
    }
    out.insert(idx, x);
    proof {
        assert(final(out)@ =~= old(out)@.take(idx as int) + seq![x] + old(out)@.skip(idx as int));
    }
}

impl crate::store::Store {
    /// Full-text search over the synchronized index, restricted to
    /// non-archived notes. Hits come back best match first — greater
    /// relevance score, then the more recently modified note — capped at 50
    /// entries. An empty or whitespace-only query returns nothing without
    /// touching the stored notes. The `filters` argument is accepted for
    /// interface stability but deliberately not applied.
    pub fn search_notes(&self, query: &str, _filters: Option<&SearchFilters>) -> (r: Vec<
        SearchResult,
    >)
        requires
            self.wf(),
        ensures
            r@.map_values(view_of_result()) == search_spec(self.notes@, query@),
    {
        let ghost q = query@;
        if is_blank(query) {
            let r: Vec<SearchResult> = Vec::new();
            proof {
                assert(r@.map_values(view_of_result()) =~= Seq::<ResultView>::empty());
            }
            return r;
        }
        let qt = folded_tokens_exec(query);
        let qcs = crate::text::chars_vec(query);
        let terms = split_terms(&qcs);
        let mut results: Vec<SearchResult> = Vec::new();
        proof {
            reveal(Seq::filter);
            assert(self.notes@.take(0) =~= Seq::<Note>::empty());
            assert(Seq::<Note>::empty().filter(match_pred(q)).map_values(result_view_fn(q)) =~= Seq::<
                ResultView,
            >::empty());
            assert(results@.map_values(view_of_result()) =~= Seq::<ResultView>::empty());
        }
        let mut k: usize = 0;
        while k < self.notes.len()
            invariant
                self.wf(),
                k <= self.notes@.len(),
                qt.deep_view() == folded_tokens(q),
                terms.deep_view() == terms_spec(q),
                q == query@,
                results@.map_values(view_of_result()) == crate::order::sort_by(
                    self.notes@.take(k as int).filter(match_pred(q)).map_values(result_view_fn(q)),
                    rank_leq_v(),
                ),
            decreases self.notes@.len() - k,
        {
            let ghost pre = self.notes@.take(k as int).filter(match_pred(q)).map_values(
                result_view_fn(q),
            );
            proof {
                reveal(Seq::filter);
                assert(self.notes@.take(k + 1 as int).drop_last() =~= self.notes@.take(k as int));
                assert(self.notes@.take(k + 1 as int).last() == self.notes@[k as int]);
                assert(entry_matches(self.index@[k as int], self.notes@[k as int]));
            }
            let mut matched = false;
            if !self.notes[k].is_archived {
                let mut ts = folded_tokens_exec(self.index[k].title.as_str());
                let ghost t1 = ts.deep_view();
                let mut c2 = folded_tokens_exec(self.index[k].content.as_str());
                let ghost t2 = c2.deep_view();
                let mut c3 = folded_tokens_exec(self.index[k].tags.as_str());
                let ghost t3 = c3.deep_view();
                ts.append(&mut c2);
                ts.append(&mut c3);
                proof {
                    let n = self.notes@[k as int];
                    assert(ts.deep_view() =~= t1 + t2 + t3);
                    assert(ts.deep_view() =~= all_tokens(n.title@, n.content@, n.tags@));
                }
                if qt.len() > 0 && all_in(&qt, &ts) {
                    matched = true;
                    let score = count_matches(&ts, &qt);
                    let ccs = crate::text::chars_vec(self.index[k].content.as_str());
                    let excerpt = excerpt_string(&ccs, &terms);
                    let highlights = extract_highlights(self.index[k].content.as_str(), query);
                    let sr = SearchResult {
                        note_id: self.index[k].note_id.clone(),
                        title: self.index[k].title.clone(),
                        excerpt,
                        highlights,
                        relevance_score: score,
                        last_modified: self.notes[k].updated_at,
                    };
                    proof {
                        let n = self.notes@[k as int];
                        assert(qt.deep_view().len() > 0);
                        assert(note_matches(n.title@, n.content@, n.tags@, q));
                        assert(match_pred(q)(n));
                        assert(view_of_result()(sr).highlights =~= highlights_spec(n.content@, q));
                        assert(view_of_result()(sr) == result_view_fn(q)(n));
                        assert(self.notes@.take(k + 1 as int).filter(match_pred(q))
                            =~= self.notes@.take(k as int).filter(match_pred(q)).push(n));
                        assert(self.notes@.take(k + 1 as int).filter(match_pred(q)).map_values(
                            result_view_fn(q),
                        ) =~= pre.push(result_view_fn(q)(n)));
                    }
                    let ghost r0 = results@;
                    insert_result_ranked(&mut results, sr);
                    proof {
                        assert forall|a: SearchResult, b: SearchResult| #[trigger] rank_leq()(
                            a,
                            b,
                        ) == rank_leq_v()(view_of_result()(a), view_of_result()(b)) by {}
                        crate::order::lemma_insert_map(
                            r0,
                            sr,
                            view_of_result(),
                            rank_leq(),
                            rank_leq_v(),
                        );
                        let f = self.notes@.take(k + 1 as int).filter(match_pred(q)).map_values(
                            result_view_fn(q),
                        );
                        assert(f.drop_last() =~= pre);
                        assert(f.last() == result_view_fn(q)(self.notes@[k as int]));
                    }
                }
            }
            if !matched {
                proof {
                    reveal(Seq::filter);
                    let n = self.notes@[k as int];
                    assert(!match_pred(q)(n));
                    assert(self.notes@.take(k + 1 as int).filter(match_pred(q)) =~= self.notes@.take(
                        k as int,
                    ).filter(match_pred(q)));
                }
            }
            k += 1;
        }
        proof {
            assert(self.notes@.take(self.notes@.len() as int) =~= self.notes@);
        }
        let ghost m = crate::order::sort_by(
            self.notes@.filter(match_pred(q)).map_values(result_view_fn(q)),
            rank_leq_v(),
        );
        if results.len() > 50 {
            let ghost full = results@;
            results.truncate(50);
            proof {
                assert(results@ =~= full.subrange(0, 50));
                assert(results@.map_values(view_of_result()) =~= full.map_values(
                    view_of_result(),
                ).take(50));
            }
        } else {
            proof {
                assert(m.take(m.len() as int) =~= m);
            }
        }
        results
    }
}

/// A deleted note is gone: no note carries its id any more — so a lookup
/// under it is refused — and no later search result names it.
pub proof fn lemma_deleted_note_unsearchable(
    pre: crate::store::Store,
    post: crate::store::Store,
    id: Seq<char>,
    k: int,
    q: Seq<char>,
)
    requires
        pre.wf(),
        0 <= k < pre.notes@.len(),
        pre.notes@[k].id@ == id,
        post.notes@ == pre.notes@.remove(k),
    ensures
        !crate::store::has_note(post.notes@, id),
        forall|i: int|
            0 <= i < search_spec(post.notes@, q).len() ==> (#[trigger] search_spec(
                post.notes@,
                q,
            )[i]).note_id != id,
{
    assert forall|j: int| 0 <= j < post.notes@.len() implies (#[trigger] post.notes@[j].id@) != id
        by {
        if j < k {
            assert(post.notes@[j] == pre.notes@[j]);
        } else {
            assert(post.notes@[j] == pre.notes@[j + 1]);
        }
    }
    if !all_space(q) {
        let filtered = post.notes@.filter(match_pred(q));
        let mapped = filtered.map_values(result_view_fn(q));
        let sorted = crate::order::sort_by(mapped, rank_leq_v());
        crate::order::lemma_filter_membership(post.notes@, match_pred(q));
        crate::order::lemma_sort_membership(mapped, rank_leq_v());
        assert forall|i: int|
            0 <= i < search_spec(post.notes@, q).len() implies (#[trigger] search_spec(
            post.notes@,
            q,
        )[i]).note_id != id by {
            assert(search_spec(post.notes@, q)[i] == sorted[i]);
            let m = choose|m: int| 0 <= m < mapped.len() && sorted[i] == mapped[m];
            assert(mapped[m] == result_view_fn(q)(filtered[m]));
            let j = choose|j: int| 0 <= j < post.notes@.len() && filtered[m] == post.notes@[j];
            assert(mapped[m].note_id == post.notes@[j].id@);
        }
    }
}

} // verus!
