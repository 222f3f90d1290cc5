//! Content normalization and derived counts: every note body is run through
//! `sanitize_content` before word and character counts are computed.
use vstd::prelude::*;

use crate::ext::{is_space, is_whitespace_char, push_char};

verus! {

/// The normal form of raw text: null characters are dropped, a CRLF pair
/// becomes one LF, and a lone CR becomes LF.
pub open spec fn normalize_spec(s: Seq<char>) -> Seq<char>
    decreases s.len(),
{
    if s.len() == 0 {
        Seq::empty()
    } else if s[0] == '\0' {
        normalize_spec(s.skip(1))
    } else if s[0] == '\r' {
        if s.len() >= 2 && s[1] == '\n' {
            seq!['\n'] + normalize_spec(s.skip(2))
        } else {
            seq!['\n'] + normalize_spec(s.skip(1))
        }
    } else {
        seq![s[0]] + normalize_spec(s.skip(1))
    }
}

/// Number of whitespace-delimited words left in `s`, given whether the
/// character just before `s` belonged to a word.
pub open spec fn word_count_from(s: Seq<char>, in_word: bool) -> nat
    decreases s.len(),
{
    if s.len() == 0 {
        0
    } else {
        let sp = is_space(s[0]);
        (if !sp && !in_word {
            1nat
        } else {
            0nat
        }) + word_count_from(s.skip(1), !sp)
    }
}

/// Number of maximal whitespace-delimited words of `s`.
pub open spec fn word_count_spec(s: Seq<char>) -> nat {
    word_count_from(s, false)
}

/// Collects the characters of a string slice into a vector.
pub fn chars_vec(s: &str) -> (r: Vec<char>)
    ensures
        r@ == s@,
{
    let n = s.unicode_len();
    let mut r: Vec<char> = Vec::new();
    let mut i: usize = 0;
    while i < n
        invariant
            n == s@.len(),
            i <= n,
            r@ == s@.take(i as int),
        decreases n - i,
    {
        let c = s.get_char(i);
        r.push(c);
        proof {
            assert(s@.take(i + 1 as int) =~= s@.take(i as int).push(s@[i as int]));
        }
        i += 1;
    }
    proof {
        assert(s@.take(n as int) =~= s@);
    }
    r
}

/// Builds a string out of the characters `cs[from..to]`.
pub fn string_range(cs: &Vec<char>, from: usize, to: usize) -> (r: String)
    requires
        from <= to <= cs@.len(),
    ensures
        r@ == cs@.subrange(from as int, to as int),
{
    let mut r = String::new();
    let mut i: usize = from;
    while i < to
        invariant
            from <= i <= to <= cs@.len(),
            r@ == cs@.subrange(from as int, i as int),
        decreases to - i,
    {
        push_char(&mut r, cs[i]);
        proof {
            assert(cs@.subrange(from as int, i + 1 as int) =~= cs@.subrange(
                from as int,
                i as int,
            ).push(cs@[i as int]));
        }
        i += 1;
    }
    r
}

/// Strips null characters and normalizes all line endings to LF.
pub fn sanitize_content(content: &str) -> (r: String)
    ensures
        r@ == normalize_spec(content@),
{
    let cs = chars_vec(content);
    proof {
        assert(cs@.skip(0) =~= cs@);
    }
    let mut out = String::new();
    let mut i: usize = 0;
    while i < cs.len()
        invariant
            cs@ == content@,
            i <= cs@.len(),
            out@ + normalize_spec(cs@.skip(i as int)) == normalize_spec(content@),
        decreases cs@.len() - i,
    {
        let ghost t = cs@.skip(i as int);
        let c = cs[i];
        if c == '\0' {
            proof {
                assert(t.skip(1) =~= cs@.skip(i + 1 as int));
            }
            i += 1;
        } else if c == '\r' {
            if i + 1 < cs.len() && cs[i + 1] == '\n' {
                push_char(&mut out, '\n');
                proof {
                    assert(t.skip(2) =~= cs@.skip(i + 2 as int));
                    assert(out@ =~= (out@.drop_last() + seq!['\n']));
                    assert(out@ + normalize_spec(cs@.skip(i + 2 as int)) =~= out@.drop_last() + (
                    seq!['\n'] + normalize_spec(t.skip(2))));
                }
                i += 2;
            } else {
                push_char(&mut out, '\n');
                proof {
                    assert(t.skip(1) =~= cs@.skip(i + 1 as int));
                    assert(out@ + normalize_spec(cs@.skip(i + 1 as int)) =~= out@.drop_last() + (
                    seq!['\n'] + normalize_spec(t.skip(1))));
                }
                i += 1;
            }
        } else {
            push_char(&mut out, c);
            proof {
                assert(t.skip(1) =~= cs@.skip(i + 1 as int));
                assert(out@ + normalize_spec(cs@.skip(i + 1 as int)) =~= out@.drop_last() + (seq![
                    t[0],
                ] + normalize_spec(t.skip(1))));
            }
            i += 1;
        }
    }
    proof {
        assert(cs@.skip(cs@.len() as int) =~= Seq::<char>::empty());
        assert(out@ + Seq::<char>::empty() =~= out@);
    }
    out
}

/// Number of whitespace-delimited words of `text`; an empty or all-whitespace
/// text has none.
pub fn count_words(text: &str) -> (n: usize)
    ensures
        n == word_count_spec(text@),
{
    let cs = chars_vec(text);
    proof {
        assert(cs@.skip(0) =~= cs@);
    }
    let mut n: usize = 0;
    let mut in_word = false;
    let mut i: usize = 0;
    while i < cs.len()
        invariant
            cs@ == text@,
            i <= cs@.len(),
            n <= i,
            n + word_count_from(cs@.skip(i as int), in_word) == word_count_spec(text@),
        decreases cs@.len() - i,
    {
        let ghost t = cs@.skip(i as int);
        let sp = is_whitespace_char(cs[i]);
        proof {
            assert(t.skip(1) =~= cs@.skip(i + 1 as int));
        }
        if !sp && !in_word {
            n += 1;
        }
        in_word = !sp;
        i += 1;
    }
    n
}

/// Whether two string slices hold the same characters.
pub fn str_eq(a: &str, b: &str) -> (r: bool)
    ensures
        r == (a@ == b@),
{
    let na = a.unicode_len();
    let nb = b.unicode_len();
    if na != nb {
        return false;
    }
    let mut i: usize = 0;
    while i < na
        invariant
            na == a@.len() == b@.len(),
            i <= na,
            forall|j: int| 0 <= j < i ==> a@[j] == b@[j],
        decreases na - i,
    {
        if a.get_char(i) != b.get_char(i) {
            return false;
        }
        i += 1;
    }
    proof {
        assert(a@ =~= b@);
    }
    true
}

/// Whether two optional strings hold the same characters.
pub fn opt_str_eq(a: &Option<String>, b: &Option<String>) -> (r: bool)
    ensures
        r == (a.deep_view() == b.deep_view()),
{
    match (a, b) {
        (Option::Some(x), Option::Some(y)) => str_eq(x.as_str(), y.as_str()),
        (Option::None, Option::None) => true,
        _ => false,
    }
}

/// Number of Unicode scalar values in `text`.
pub fn count_characters(text: &str) -> (n: usize)
    ensures
        n == text@.len(),
{
    text.unicode_len()
}

/// Normalized text holds no null character and no carriage return.
proof fn lemma_normalize_no_specials(s: Seq<char>)
    ensures
        forall|i: int|
            0 <= i < normalize_spec(s).len() ==> normalize_spec(s)[i] != '\0' && normalize_spec(
                s,
            )[i] != '\r',
    decreases s.len(),
{
    if s.len() == 0 {
    } else if s[0] == '\0' {
        lemma_normalize_no_specials(s.skip(1));
        assert(normalize_spec(s) == normalize_spec(s.skip(1)));
    } else if s[0] == '\r' {
        if s.len() >= 2 && s[1] == '\n' {
            lemma_normalize_no_specials(s.skip(2));
            let rest = normalize_spec(s.skip(2));
            assert forall|i: int| 0 <= i < normalize_spec(s).len() implies normalize_spec(s)[i]
                != '\0' && normalize_spec(s)[i] != '\r' by {
                if i > 0 {
                    assert(normalize_spec(s)[i] == rest[i - 1]);
                } else {
                    assert(normalize_spec(s)[0] == '\n');
                }
            }
        } else {
            lemma_normalize_no_specials(s.skip(1));
            let rest = normalize_spec(s.skip(1));
            assert forall|i: int| 0 <= i < normalize_spec(s).len() implies normalize_spec(s)[i]
                != '\0' && normalize_spec(s)[i] != '\r' by {
                if i > 0 {
                    assert(normalize_spec(s)[i] == rest[i - 1]);
                } else {
                    assert(normalize_spec(s)[0] == '\n');
                }
            }
        }
    } else {
        lemma_normalize_no_specials(s.skip(1));
        let rest = normalize_spec(s.skip(1));
        assert forall|i: int| 0 <= i < normalize_spec(s).len() implies normalize_spec(s)[i] != '\0'
            && normalize_spec(s)[i] != '\r' by {
            if i > 0 {
                assert(normalize_spec(s)[i] == rest[i - 1]);
            } else {
                assert(normalize_spec(s)[0] == s[0]);
            }
        }
    }
}

/// Text without null characters or carriage returns is already normal.
proof fn lemma_normalize_fixed(s: Seq<char>)
    requires
        forall|i: int| 0 <= i < s.len() ==> s[i] != '\0' && s[i] != '\r',
    ensures
        normalize_spec(s) == s,
    decreases s.len(),
{
    if s.len() == 0 {
        assert(normalize_spec(s) =~= s);
    } else {
        lemma_normalize_fixed(s.skip(1));
        assert(normalize_spec(s) =~= seq![s[0]] + s.skip(1));
        assert(seq![s[0]] + s.skip(1) =~= s);
    }
}

/// Normalization is idempotent: a second pass changes nothing.
pub proof fn lemma_normalize_idempotent(s: Seq<char>)
    ensures
        normalize_spec(normalize_spec(s)) == normalize_spec(s),
{
    lemma_normalize_no_specials(s);
    lemma_normalize_fixed(normalize_spec(s));
}

/// A text of whitespace alone has no words, whatever came before it.
proof fn lemma_word_count_from_all_whitespace(s: Seq<char>, b: bool)
    requires
        forall|i: int| 0 <= i < s.len() ==> is_space(s[i]),
    ensures
        word_count_from(s, b) == 0,
    decreases s.len(),
{
    if s.len() == 0 {
    } else {
        lemma_word_count_from_all_whitespace(s.skip(1), !is_space(s[0]));
    }
}

/// An empty or all-whitespace text has a word count of zero.
pub proof fn lemma_word_count_all_whitespace(s: Seq<char>)
    requires
        forall|i: int| 0 <= i < s.len() ==> is_space(s[i]),
    ensures
        word_count_spec(s) == 0,
{
    lemma_word_count_from_all_whitespace(s, false);
}

/// The decimal digit character for `d`.
pub open spec fn digit_char(d: nat) -> char {
    ((48 + d) as u8) as char
}

/// The decimal rendering of a natural number.
pub open spec fn dec_spec(n: nat) -> Seq<char>
    decreases n,
{
    if n < 10 {
        seq![digit_char(n)]
    } else {
        dec_spec(n / 10).push(digit_char(n % 10))
    }
}

/// The decimal rendering of an integer, with a leading minus sign when it
/// is negative.
pub open spec fn dec_i64_spec(v: int) -> Seq<char> {
    if v < 0 {
        seq!['-'] + dec_spec((-v) as nat)
    } else {
        dec_spec(v as nat)
    }
}

/// Renders an unsigned number in decimal.
pub fn u64_dec(n: u64) -> (r: String)
    ensures
        r@ == dec_spec(n as nat),
    decreases n,
{
    if n < 10 {
        let mut r = String::new();
        push_char(&mut r, (48 + (n as u8)) as char);
        proof {
            assert(r@ =~= seq![digit_char(n as nat)]);
        }
        r
    } else {
        let mut r = u64_dec(n / 10);
        push_char(&mut r, (48 + ((n % 10) as u8)) as char);
        r
    }
}

/// Renders a signed number in decimal.
pub fn i64_dec(v: i64) -> (r: String)
    ensures
        r@ == dec_i64_spec(v as int),
{
    if v >= 0 {
        u64_dec(v as u64)
    } else {
        let m: u64 = if v == i64::MIN {
            9223372036854775808u64
        } else {
            (-v) as u64
        };
        let mut r = String::from_str("-");
        let d = u64_dec(m);
        r.append(d.as_str());
        proof {
            reveal_strlit("-");
            assert(r@ =~= seq!['-'] + dec_spec(m as nat));
        }
        r
    }
}

/// The text with its leading whitespace dropped.
pub open spec fn ltrim_spec(s: Seq<char>) -> Seq<char>
    decreases s.len(),
{
    if s.len() > 0 && is_space(s[0]) {
        ltrim_spec(s.skip(1))
    } else {
        s
    }
}

/// The text with its trailing whitespace dropped.
pub open spec fn rtrim_spec(s: Seq<char>) -> Seq<char>
    decreases s.len(),
{
    if s.len() > 0 && is_space(s.last()) {
        rtrim_spec(s.drop_last())
    } else {
        s
    }
}

/// The text with whitespace dropped from both ends.
pub open spec fn trim_spec(s: Seq<char>) -> Seq<char> {
    rtrim_spec(ltrim_spec(s))
}

/// Dropping leading whitespace is dropping a whitespace prefix.
proof fn lemma_ltrim_at(s: Seq<char>, i: int)
    requires
        0 <= i <= s.len(),
        forall|j: int| 0 <= j < i ==> is_space(#[trigger] s[j]),
        i < s.len() ==> !is_space(s[i]),
    ensures
        ltrim_spec(s) == s.skip(i),
    decreases i,
{
    if i == 0 {
        if s.len() > 0 && is_space(s[0]) {
            assert(false);
        }
        assert(s.skip(0) =~= s);
    } else {
        assert(is_space(s[0]));
        lemma_ltrim_at(s.skip(1), i - 1);
        assert(s.skip(1).skip(i - 1) =~= s.skip(i));
    }
}

/// Dropping trailing whitespace is dropping a whitespace suffix.
proof fn lemma_rtrim_at(s: Seq<char>, i: int)
    requires
        0 <= i <= s.len(),
        forall|j: int| i <= j < s.len() ==> is_space(#[trigger] s[j]),
        i > 0 ==> !is_space(s[i - 1]),
    ensures
        rtrim_spec(s) == s.take(i),
    decreases s.len() - i,
{
    if i == s.len() {
        if s.len() > 0 && is_space(s.last()) {
            assert(false);
        }
        assert(s.take(i) =~= s);
    } else {
        assert(is_space(s.last()));
        lemma_rtrim_at(s.drop_last(), i);
        assert(s.drop_last().take(i) =~= s.take(i));
    }
}

/// The characters `cs[from..to]` with whitespace dropped from both ends.
pub fn trim_range(cs: &Vec<char>, from: usize, to: usize) -> (r: String)
    requires
        from <= to <= cs@.len(),
    ensures
        r@ == trim_spec(cs@.subrange(from as int, to as int)),
{
    let ghost sub = cs@.subrange(from as int, to as int);
    let mut a = from;
    while a < to && is_whitespace_char(cs[a])
        invariant
            from <= a <= to <= cs@.len(),
            forall|j: int| from <= j < a ==> is_space(#[trigger] cs@[j]),
        decreases to - a,
    {
        a += 1;
    }
    let mut b = to;
    while b > a && is_whitespace_char(cs[b - 1])
        invariant
            a <= b <= to <= cs@.len(),
            forall|j: int| b <= j < to ==> is_space(#[trigger] cs@[j]),
        decreases b,
    {
        b -= 1;
    }
    proof {
        lemma_ltrim_at(sub, a - from);
        assert(ltrim_spec(sub) =~= cs@.subrange(a as int, to as int));
        lemma_rtrim_at(cs@.subrange(a as int, to as int), b - a);
        assert(rtrim_spec(cs@.subrange(a as int, to as int)) =~= cs@.subrange(a as int, b as int));
    }
    string_range(cs, a, b)
}

} // verus!
