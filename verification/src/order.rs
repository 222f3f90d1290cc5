//! Deterministic orderings of listings: a stable insertion sort whose result
//! is pinned down as a spec-level function of the input, and the concrete
//! orders the listings use.
use vstd::prelude::*;

use crate::model::{Collection, ImageMetadata, Note};

verus! {

/// Where a stable insertion places `x` in `s`: after every element that may
/// stay before it.
pub open spec fn insert_sorted_by<T>(s: Seq<T>, x: T, leq: spec_fn(T, T) -> bool) -> Seq<T>
    decreases s.len(),
{
    if s.len() == 0 {
        seq![x]
    } else if leq(s[0], x) {
        seq![s[0]] + insert_sorted_by(s.skip(1), x, leq)
    } else {
        seq![x] + s
    }
}

/// The stable sort of `s` under `leq`: elements are inserted in their
/// original order, so equal keys keep it.
pub open spec fn sort_by<T>(s: Seq<T>, leq: spec_fn(T, T) -> bool) -> Seq<T>
    decreases s.len(),
{
    if s.len() == 0 {
        Seq::empty()
    } else {
        insert_sorted_by(sort_by(s.drop_last(), leq), s.last(), leq)
    }
}

/// A stable insertion at the first position whose element may not stay
/// before `x` splits the sequence exactly there.
pub proof fn lemma_insert_sorted_at<T>(s: Seq<T>, x: T, leq: spec_fn(T, T) -> bool, idx: int)
    requires
        0 <= idx <= s.len(),
        forall|j: int| 0 <= j < idx ==> #[trigger] leq(s[j], x),
        idx < s.len() ==> !leq(s[idx], x),
    ensures
        insert_sorted_by(s, x, leq) == s.take(idx) + seq![x] + s.skip(idx),
    decreases idx,
{
    if idx == 0 {
        if s.len() == 0 {
            assert(insert_sorted_by(s, x, leq) =~= s.take(0) + seq![x] + s.skip(0));
        } else {
            assert(insert_sorted_by(s, x, leq) =~= s.take(0) + seq![x] + s.skip(0));
        }
    } else {
        assert(leq(s[0], x));
        let t = s.skip(1);
        assert(forall|j: int| 0 <= j < idx - 1 ==> #[trigger] leq(t[j], x));
        lemma_insert_sorted_at(t, x, leq, idx - 1);
        assert(insert_sorted_by(s, x, leq) =~= seq![s[0]] + (t.take(idx - 1) + seq![x] + t.skip(
            idx - 1,
        )));
        assert(seq![s[0]] + (t.take(idx - 1) + seq![x] + t.skip(idx - 1)) =~= s.take(idx) + seq![x]
            + s.skip(idx));
    }
}

/// Mapping commutes with a stable insertion when the two orders agree
/// through the map.
pub proof fn lemma_insert_map<A, B>(
    s: Seq<A>,
    x: A,
    f: spec_fn(A) -> B,
    leqa: spec_fn(A, A) -> bool,
    leqb: spec_fn(B, B) -> bool,
)
    requires
        forall|a: A, b: A| #[trigger] leqa(a, b) == leqb(f(a), f(b)),
    ensures
        insert_sorted_by(s, x, leqa).map_values(f) == insert_sorted_by(
            s.map_values(f),
            f(x),
            leqb,
        ),
    decreases s.len(),
{
    if s.len() == 0 {
        assert(insert_sorted_by(s, x, leqa).map_values(f) =~= insert_sorted_by(
            s.map_values(f),
            f(x),
            leqb,
        ));
    } else if leqa(s[0], x) {
        lemma_insert_map(s.skip(1), x, f, leqa, leqb);
        assert(s.map_values(f).skip(1) =~= s.skip(1).map_values(f));
        assert(insert_sorted_by(s, x, leqa).map_values(f) =~= seq![f(s[0])] + insert_sorted_by(
            s.skip(1),
            x,
            leqa,
        ).map_values(f));
        assert(insert_sorted_by(s.map_values(f), f(x), leqb) =~= seq![f(s[0])] + insert_sorted_by(
            s.skip(1).map_values(f),
            f(x),
            leqb,
        ));
    } else {
        assert(insert_sorted_by(s, x, leqa).map_values(f) =~= insert_sorted_by(
            s.map_values(f),
            f(x),
            leqb,
        ));
    }
}

/// Notes listed most recently modified first.
pub open spec fn recency_leq() -> spec_fn(Note, Note) -> bool {
    |a: Note, b: Note| a.updated_at >= b.updated_at
}

/// Notes listed in creation order, oldest first.
pub open spec fn created_leq() -> spec_fn(Note, Note) -> bool {
    |a: Note, b: Note| a.created_at <= b.created_at
}

/// Images listed most recently stored first.
pub open spec fn image_recency_leq() -> spec_fn(ImageMetadata, ImageMetadata) -> bool {
    |a: ImageMetadata, b: ImageMetadata| a.created_at >= b.created_at
}

/// Character sequences in code-point order, shorter prefixes first.
pub open spec fn lex_leq(a: Seq<char>, b: Seq<char>) -> bool
    decreases a.len(),
{
    if a.len() == 0 {
        true
    } else if b.len() == 0 {
        false
    } else if (a[0] as u32) < (b[0] as u32) {
        true
    } else if (a[0] as u32) > (b[0] as u32) {
        false
    } else {
        lex_leq(a.skip(1), b.skip(1))
    }
}

/// Parent references ordered with roots first, then by the parent id.
pub open spec fn parent_leq(a: Option<Seq<char>>, b: Option<Seq<char>>) -> bool {
    match (a, b) {
        (Option::None, _) => true,
        (Option::Some(_), Option::None) => false,
        (Option::Some(x), Option::Some(y)) => lex_leq(x, y),
    }
}

/// Collections grouped by parent — roots first, then parents in id order —
/// and ordered by `sort_order` within one parent.
pub open spec fn tree_order_leq() -> spec_fn(Collection, Collection) -> bool {
    |a: Collection, b: Collection|
        if a.parent_id.deep_view() == b.parent_id.deep_view() {
            a.sort_order <= b.sort_order
        } else {
            parent_leq(a.parent_id.deep_view(), b.parent_id.deep_view())
        }
}

/// Whether `a` comes no later than `b` in code-point order.
pub fn lex_leq_exec(a: &str, b: &str) -> (r: bool)
    ensures
        r == lex_leq(a@, b@),
{
    let na = a.unicode_len();
    let nb = b.unicode_len();
    proof {
        assert(a@.skip(0) =~= a@);
        assert(b@.skip(0) =~= b@);
    }
    let mut i: usize = 0;
    loop
        invariant
            i <= na,
            i <= nb,
            na == a@.len(),
            nb == b@.len(),
            lex_leq(a@, b@) == lex_leq(a@.skip(i as int), b@.skip(i as int)),
        decreases na - i,
    {
        if i >= na {
            return true;
        }
        if i >= nb {
            return false;
        }
        let ca = a.get_char(i);
        let cb = b.get_char(i);
        proof {
            assert(a@.skip(i as int)[0] == a@[i as int]);
            assert(b@.skip(i as int)[0] == b@[i as int]);
            assert(a@.skip(i as int).skip(1) =~= a@.skip(i + 1 as int));
            assert(b@.skip(i as int).skip(1) =~= b@.skip(i + 1 as int));
        }
        if (ca as u32) < (cb as u32) {
            return true;
        }
        if (ca as u32) > (cb as u32) {
            return false;
        }
        i += 1;
    }
}

/// Whether `a` may stay before `b` in the collection listing.
pub fn tree_leq_exec(a: &Collection, b: &Collection) -> (r: bool)
    ensures
        r == tree_order_leq()(*a, *b),
{
    if crate::text::opt_str_eq(&a.parent_id, &b.parent_id) {
        a.sort_order <= b.sort_order
    } else {
        match (&a.parent_id, &b.parent_id) {
            (Option::None, _) => true,
            (Option::Some(_), Option::None) => false,
            (Option::Some(x), Option::Some(y)) => lex_leq_exec(x.as_str(), y.as_str()),
        }
    }
}

/// Inserts a note into a listing kept most recently modified first.
pub fn insert_note_recency(out: &mut Vec<Note>, x: Note)
    ensures
        final(out)@ == insert_sorted_by(old(out)@, x, recency_leq()),
{
    let mut idx: usize = 0;
    while idx < out.len() && out[idx].updated_at >= x.updated_at
        invariant
            idx <= out@.len(),
            forall|j: int| 0 <= j < idx ==> out@[j].updated_at >= x.updated_at,
            out@ == old(out)@,
        decreases out@.len() - idx,
    {
        idx += 1;
    }
    proof {
        lemma_insert_sorted_at(out@, x, recency_leq(), idx as int);
    }
    out.insert(idx, x);
    proof {
        assert(final(out)@ =~= old(out)@.take(idx as int) + seq![x] + old(out)@.skip(idx as int));
    }
}

/// Inserts a note into a listing kept in creation order, oldest first.
pub fn insert_note_created(out: &mut Vec<Note>, x: Note)
    ensures
        final(out)@ == insert_sorted_by(old(out)@, x, created_leq()),
{
    let mut idx: usize = 0;
    while idx < out.len() && out[idx].created_at <= x.created_at
        invariant
            idx <= out@.len(),
            forall|j: int| 0 <= j < idx ==> out@[j].created_at <= x.created_at,
            out@ == old(out)@,
        decreases out@.len() - idx,
    {
        idx += 1;
    }
    proof {
        lemma_insert_sorted_at(out@, x, created_leq(), idx as int);
    }
    out.insert(idx, x);
    proof {
        assert(final(out)@ =~= old(out)@.take(idx as int) + seq![x] + old(out)@.skip(idx as int));
    }
}

/// Inserts an image into a listing kept most recently stored first.
pub fn insert_image_recency(out: &mut Vec<ImageMetadata>, x: ImageMetadata)
    ensures
        final(out)@ == insert_sorted_by(old(out)@, x, image_recency_leq()),
{
    let mut idx: usize = 0;
    while idx < out.len() && out[idx].created_at >= x.created_at
        invariant
            idx <= out@.len(),
            forall|j: int| 0 <= j < idx ==> out@[j].created_at >= x.created_at,
            out@ == old(out)@,
        decreases out@.len() - idx,
    {
        idx += 1;
    }
    proof {
        lemma_insert_sorted_at(out@, x, image_recency_leq(), idx as int);
    }
    out.insert(idx, x);
    proof {
        assert(final(out)@ =~= old(out)@.take(idx as int) + seq![x] + old(out)@.skip(idx as int));
    }
}

/// Inserts a collection into a listing kept in tree order.
pub fn insert_collection_tree(out: &mut Vec<Collection>, x: Collection)
    ensures
        final(out)@ == insert_sorted_by(old(out)@, x, tree_order_leq()),
{
    let mut idx: usize = 0;
    let mut scanning = true;
    while scanning && idx < out.len()
        invariant
            idx <= out@.len(),
            forall|j: int| 0 <= j < idx ==> #[trigger] tree_order_leq()(out@[j], x),
            out@ == old(out)@,
            !scanning && idx < out@.len() ==> !tree_order_leq()(out@[idx as int], x),
        decreases out@.len() - idx, (if scanning { 1int } else { 0int }),
    {
        if tree_leq_exec(&out[idx], &x) {
            idx += 1;
        } else {
            scanning = false;
        }
    }
    proof {
        lemma_insert_sorted_at(out@, x, tree_order_leq(), idx as int);
    }
    out.insert(idx, x);
    proof {
        assert(final(out)@ =~= old(out)@.take(idx as int) + seq![x] + old(out)@.skip(idx as int));
    }
}

/// Everything a stable insertion yields was the inserted element or one of
/// the sequence's.
pub proof fn lemma_insert_membership<T>(s: Seq<T>, x: T, leq: spec_fn(T, T) -> bool)
    ensures
        forall|i: int|
            0 <= i < insert_sorted_by(s, x, leq).len() ==> (exists|j: int|
                0 <= j < s.len() && #[trigger] insert_sorted_by(s, x, leq)[i] == s[j])
                || insert_sorted_by(s, x, leq)[i] == x,
    decreases s.len(),
{
    let out = insert_sorted_by(s, x, leq);
    if s.len() == 0 {
    } else if leq(s[0], x) {
        lemma_insert_membership(s.skip(1), x, leq);
        let inner = insert_sorted_by(s.skip(1), x, leq);
        assert forall|i: int|
            0 <= i < out.len() implies (exists|j: int|
            0 <= j < s.len() && #[trigger] out[i] == s[j]) || out[i] == x by {
            if i == 0 {
                assert(out[0] == s[0]);
            } else {
                assert(out[i] == inner[i - 1]);
                if inner[i - 1] != x {
                    let j = choose|j: int| 0 <= j < s.skip(1).len() && inner[i - 1] == s.skip(1)[j];
                    assert(out[i] == s[j + 1]);
                }
            }
        }
    } else {
        assert forall|i: int|
            0 <= i < out.len() implies (exists|j: int|
            0 <= j < s.len() && #[trigger] out[i] == s[j]) || out[i] == x by {
            if i > 0 {
                assert(out[i] == s[i - 1]);
            }
        }
    }
}

/// Everything a stable sort yields was in the sequence.
pub proof fn lemma_sort_membership<T>(s: Seq<T>, leq: spec_fn(T, T) -> bool)
    ensures
        forall|i: int|
            0 <= i < sort_by(s, leq).len() ==> exists|j: int|
                0 <= j < s.len() && #[trigger] sort_by(s, leq)[i] == s[j],
    decreases s.len(),
{
    let out = sort_by(s, leq);
    if s.len() > 0 {
        lemma_sort_membership(s.drop_last(), leq);
        lemma_insert_membership(sort_by(s.drop_last(), leq), s.last(), leq);
        assert forall|i: int|
            0 <= i < out.len() implies exists|j: int|
            0 <= j < s.len() && #[trigger] out[i] == s[j] by {
            if out[i] == s.last() {
                assert(out[i] == s[s.len() - 1]);
            } else {
                let m = choose|m: int|
                    0 <= m < sort_by(s.drop_last(), leq).len() && out[i] == sort_by(
                        s.drop_last(),
                        leq,
                    )[m];
                let j = choose|j: int|
                    0 <= j < s.drop_last().len() && sort_by(s.drop_last(), leq)[m] == s.drop_last(
                    )[j];
                assert(out[i] == s[j]);
            }
        }
    }
}

/// Everything a filter keeps was in the sequence.
pub proof fn lemma_filter_membership<T>(s: Seq<T>, pred: spec_fn(T) -> bool)
    ensures
        forall|i: int|
            0 <= i < s.filter(pred).len() ==> exists|j: int|
                0 <= j < s.len() && #[trigger] s.filter(pred)[i] == s[j],
    decreases s.len(),
{
    reveal(Seq::filter);
    if s.len() > 0 {
        let head = s.drop_last();
        lemma_filter_membership(head, pred);
        let fh = head.filter(pred);
        let fe = s.filter(pred);
        assert forall|i: int|
            0 <= i < fe.len() implies exists|j: int| 0 <= j < s.len() && #[trigger] fe[i] == s[j]
            by {
            if pred(s.last()) && i == fe.len() - 1 {
                assert(fe[i] == s[s.len() - 1]);
            } else {
                assert(fe[i] == fh[i]);
                let m = choose|m: int| 0 <= m < head.len() && fh[i] == head[m];
                assert(fe[i] == s[m]);
            }
        }
    }
}

} // verus!
