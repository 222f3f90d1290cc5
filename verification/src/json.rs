//! The structured interchange format for notes: a pretty-printed JSON array
//! of note objects. The printer and the parser are both verified, and
//! parsing what the printer emits is proved to give back every note's title,
//! content, collection reference and tag text.
//!
//! The parser accepts a note object's ten fields in any order, each exactly
//! once, with arbitrary whitespace between tokens; string escapes cover the
//! named JSON escapes and `\uXXXX` forms outside the surrogate range.
use vstd::prelude::*;

use crate::ext::{push_char, ts_rfc3339_of};
use crate::model::Note;
use crate::search::{lemma_run_end_is, run_end};
use crate::text::dec_spec;

verus! {

/// A JSON hexadecimal digit, lower case.
pub open spec fn hex_digit(d: nat) -> char {
    if d < 10 {
        ((48 + d) as u8) as char
    } else {
        ((87 + d) as u8) as char
    }
}

/// How one character appears inside a JSON string literal.
pub open spec fn esc_char(c: char) -> Seq<char> {
    if c == '"' {
        seq!['\\', '"']
    } else if c == '\\' {
        seq!['\\', '\\']
    } else if c == '\n' {
        seq!['\\', 'n']
    } else if c == '\r' {
        seq!['\\', 'r']
    } else if c == '\t' {
        seq!['\\', 't']
    } else if c as u32 == 8 {
        seq!['\\', 'b']
    } else if c as u32 == 12 {
        seq!['\\', 'f']
    } else if (c as u32) < 32 {
        seq!['\\', 'u', '0', '0', hex_digit((c as u32 / 16) as nat), hex_digit(
            (c as u32 % 16) as nat,
        )]
    } else {
        seq![c]
    }
}

/// The body of the JSON string literal that renders `s`.
pub open spec fn escape_spec(s: Seq<char>) -> Seq<char>
    decreases s.len(),
{
    if s.len() == 0 {
        Seq::empty()
    } else {
        escape_spec(s.drop_last()) + esc_char(s.last())
    }
}

/// Escaping works from the front as well as from the back.
proof fn lemma_escape_head(s: Seq<char>)
    requires
        s.len() > 0,
    ensures
        escape_spec(s) == esc_char(s[0]) + escape_spec(s.skip(1)),
    decreases s.len(),
{
    if s.len() == 1 {
        assert(escape_spec(s.drop_last()) =~= Seq::<char>::empty());
        assert(escape_spec(s.skip(1)) =~= Seq::<char>::empty());
        assert(s.last() == s[0]);
        assert(escape_spec(s) =~= esc_char(s[0]) + escape_spec(s.skip(1)));
    } else {
        lemma_escape_head(s.drop_last());
        assert(s.drop_last()[0] == s[0]);
        assert(s.drop_last().skip(1) =~= s.skip(1).drop_last());
        assert(s.skip(1).last() == s.last());
        assert(escape_spec(s) == escape_spec(s.drop_last()) + esc_char(s.last()));
        assert(escape_spec(s.skip(1)) == escape_spec(s.skip(1).drop_last()) + esc_char(
            s.skip(1).last(),
        ));
        assert(escape_spec(s) =~= esc_char(s[0]) + escape_spec(s.skip(1)));
    }
}

/// The character a single-letter escape stands for.
pub open spec fn unesc_char(e: char) -> Option<char> {
    if e == '"' {
        Some('"')
    } else if e == '\\' {
        Some('\\')
    } else if e == '/' {
        Some('/')
    } else if e == 'n' {
        Some('\n')
    } else if e == 'r' {
        Some('\r')
    } else if e == 't' {
        Some('\t')
    } else if e == 'b' {
        Some((8u8) as char)
    } else if e == 'f' {
        Some((12u8) as char)
    } else {
        None
    }
}

/// The value of one hexadecimal digit character.
pub open spec fn hex_val(c: char) -> Option<nat> {
    if 48 <= c as u32 && c as u32 <= 57 {
        Some((c as u32 - 48) as nat)
    } else if 97 <= c as u32 && c as u32 <= 102 {
        Some((c as u32 - 87) as nat)
    } else if 65 <= c as u32 && c as u32 <= 70 {
        Some((c as u32 - 55) as nat)
    } else {
        None
    }
}

/// The scalar value of four hexadecimal digits, when all four are digits and
/// the value is not a surrogate.
pub open spec fn hex4_scalar(a: char, b: char, c: char, d: char) -> Option<nat> {
    match (hex_val(a), hex_val(b), hex_val(c), hex_val(d)) {
        (Some(x), Some(y), Some(z), Some(w)) => {
            let v = x * 4096 + y * 256 + z * 16 + w;
            if 0xD800 <= v < 0xE000 {
                None
            } else {
                Some(v)
            }
        },
        _ => None,
    }
}

/// Reads a JSON string-literal body up to its closing quote: the decoded
/// text and what follows the literal, or nothing when the body is malformed.
pub open spec fn parse_str_body(s: Seq<char>) -> Option<(Seq<char>, Seq<char>)>
    decreases s.len(),
{
    if s.len() == 0 {
        None
    } else if s[0] == '"' {
        Some((Seq::empty(), s.skip(1)))
    } else if s[0] == '\\' {
        if s.len() < 2 {
            None
        } else if s[1] == 'u' {
            if s.len() < 6 {
                None
            } else {
                match hex4_scalar(s[2], s[3], s[4], s[5]) {
                    Some(v) => match parse_str_body(s.skip(6)) {
                        Some((t, r)) => Some((seq![(v as u32) as char] + t, r)),
                        None => None,
                    },
                    None => None,
                }
            }
        } else {
            match unesc_char(s[1]) {
                Some(c) => match parse_str_body(s.skip(2)) {
                    Some((t, r)) => Some((seq![c] + t, r)),
                    None => None,
                },
                None => None,
            }
        }
    } else if (s[0] as u32) < 32 {
        None
    } else {
        match parse_str_body(s.skip(1)) {
            Some((t, r)) => Some((seq![s[0]] + t, r)),
            None => None,
        }
    }
}

/// Reading back an escaped text recovers it exactly and stops at the
/// closing quote.
pub proof fn lemma_escape_roundtrip(v: Seq<char>, rest: Seq<char>)
    ensures
        parse_str_body(escape_spec(v) + seq!['"'] + rest) == Some((v, rest)),
    decreases v.len(),
{
    let s = escape_spec(v) + seq!['"'] + rest;
    if v.len() == 0 {
        assert(escape_spec(v) =~= Seq::<char>::empty());
        assert(s[0] == '"');
        assert(s.skip(1) =~= rest);
    } else {
        lemma_escape_head(v);
        lemma_escape_roundtrip(v.skip(1), rest);
        let c = v[0];
        let e = esc_char(c);
        assert(s =~= e + (escape_spec(v.skip(1)) + seq!['"'] + rest));
        let s2 = escape_spec(v.skip(1)) + seq!['"'] + rest;
        assert(forall|m: int| 0 <= m < e.len() ==> s[m] == e[m]);
        if c == '"' || c == '\\' || c == '\n' || c == '\r' || c == '\t' || c as u32 == 8 || c
            as u32 == 12 {
            assert(s[0] == '\\');
            assert(s.skip(2) =~= s2);
            vstd::utf8::char_u32_cast(c, c as u32);
            assert(unesc_char(s[1]) == Some(c));
            assert(seq![c] + v.skip(1) =~= v);
        } else if (c as u32) < 32 {
            assert(s[0] == '\\' && s[1] == 'u');
            assert(s.skip(6) =~= s2);
            let hi = (c as u32 / 16) as nat;
            let lo = (c as u32 % 16) as nat;
            assert(s[2] == '0' && s[3] == '0' && s[4] == hex_digit(hi) && s[5] == hex_digit(lo));
            assert(hex_val('0') == Some(0nat));
            assert(hex_val(hex_digit(hi)) == Some(hi));
            assert(hex_val(hex_digit(lo)) == Some(lo));
            assert(hex4_scalar(s[2], s[3], s[4], s[5]) == Some((c as u32) as nat));
            vstd::utf8::char_u32_cast(c, c as u32);
            assert(((c as u32) as nat as u32) as char == c);
            assert(seq![c] + v.skip(1) =~= v);
        } else {
            assert(e =~= seq![c]);
            assert(s[0] == c);
            assert(s[0] != '"' && s[0] != '\\' && (s[0] as u32) >= 32);
            assert(s.skip(1) =~= s2);
            assert(seq![c] + v.skip(1) =~= v);
        }
    }
}

/// Appends the JSON rendering of one character.
fn push_escaped(out: &mut String, c: char)
    ensures
        final(out)@ == old(out)@ + esc_char(c),
{
    let u = c as u32;
    if c == '"' {
        push_char(out, '\\');
        push_char(out, '"');
    } else if c == '\\' {
        push_char(out, '\\');
        push_char(out, '\\');
    } else if c == '\n' {
        push_char(out, '\\');
        push_char(out, 'n');
    } else if c == '\r' {
        push_char(out, '\\');
        push_char(out, 'r');
    } else if c == '\t' {
        push_char(out, '\\');
        push_char(out, 't');
    } else if u == 8 {
        push_char(out, '\\');
        push_char(out, 'b');
    } else if u == 12 {
        push_char(out, '\\');
        push_char(out, 'f');
    } else if u < 32 {
        push_char(out, '\\');
        push_char(out, 'u');
        push_char(out, '0');
        push_char(out, '0');
        let hi = (u / 16) as u8;
        let lo = (u % 16) as u8;
        push_char(
            out,
            (if hi < 10 {
                48 + hi
            } else {
                87 + hi
            }) as char,
        );
        push_char(
            out,
            (if lo < 10 {
                48 + lo
            } else {
                87 + lo
            }) as char,
        );
        proof {
            assert(final(out)@ =~= old(out)@ + esc_char(c));
        }
    } else {
        push_char(out, c);
    }
    proof {
        assert(final(out)@ =~= old(out)@ + esc_char(c));
    }
}

/// Appends the quoted JSON string literal that renders `v`.
pub fn push_json_string(out: &mut String, v: &str)
    ensures
        final(out)@ == old(out)@ + seq!['"'] + escape_spec(v@) + seq!['"'],
{
    push_char(out, '"');
    let cs = crate::text::chars_vec(v);
    let mut i: usize = 0;
    proof {
        assert(v@.take(0) =~= Seq::<char>::empty());
        assert(out@ =~= old(out)@ + seq!['"'] + escape_spec(v@.take(0)));
    }
    while i < cs.len()
        invariant
            cs@ == v@,
            i <= cs@.len(),
            out@ == old(out)@ + seq!['"'] + escape_spec(v@.take(i as int)),
        decreases cs@.len() - i,
    {
        push_escaped(out, cs[i]);
        proof {
            assert(v@.take(i + 1 as int).drop_last() =~= v@.take(i as int));
            assert(v@.take(i + 1 as int).last() == v@[i as int]);
            assert(out@ =~= old(out)@ + seq!['"'] + escape_spec(v@.take(i + 1 as int)));
        }
        i += 1;
    }
    proof {
        assert(v@.take(v@.len() as int) =~= v@);
    }
    push_char(out, '"');
}

/// JSON whitespace.
pub open spec fn is_jws(c: char) -> bool {
    c == ' ' || c == '\t' || c == '\n' || c == '\r'
}

/// Every character of the text is JSON whitespace.
pub open spec fn all_jws(s: Seq<char>) -> bool {
    forall|j: int| 0 <= j < s.len() ==> is_jws(#[trigger] s[j])
}

/// The text with its leading JSON whitespace dropped.
pub open spec fn skip_ws(s: Seq<char>) -> Seq<char>
    decreases s.len(),
{
    if s.len() > 0 && is_jws(s[0]) {
        skip_ws(s.skip(1))
    } else {
        s
    }
}

/// An exact literal at the front of the text, and what follows it.
pub open spec fn parse_lit(s: Seq<char>, lit: Seq<char>) -> Option<Seq<char>> {
    if lit.len() <= s.len() && s.take(lit.len() as int) == lit {
        Some(s.skip(lit.len() as int))
    } else {
        None
    }
}

/// One expected punctuation character, after any whitespace.
pub open spec fn expect_char(s: Seq<char>, c: char) -> Option<Seq<char>> {
    let t = skip_ws(s);
    if t.len() > 0 && t[0] == c {
        Some(t.skip(1))
    } else {
        None
    }
}

/// A JSON string literal, after any whitespace.
pub open spec fn parse_jstring(s: Seq<char>) -> Option<(Seq<char>, Seq<char>)> {
    let t = skip_ws(s);
    if t.len() > 0 && t[0] == '"' {
        parse_str_body(t.skip(1))
    } else {
        None
    }
}

/// A decimal digit.
pub open spec fn digit_pred() -> spec_fn(char) -> bool {
    |c: char| 48 <= c as u32 && c as u32 <= 57
}

/// A JSON integer — an optional minus sign and at least one digit — after
/// any whitespace. Only what follows it is kept.
pub open spec fn parse_number(s: Seq<char>) -> Option<Seq<char>> {
    let t = skip_ws(s);
    let t2 = if t.len() > 0 && t[0] == '-' {
        t.skip(1)
    } else {
        t
    };
    let e = run_end(t2, 0, digit_pred());
    if e > 0 {
        Some(t2.skip(e))
    } else {
        None
    }
}

pub open spec fn null_lit() -> Seq<char> {
    seq!['n', 'u', 'l', 'l']
}

pub open spec fn true_lit() -> Seq<char> {
    seq!['t', 'r', 'u', 'e']
}

pub open spec fn false_lit() -> Seq<char> {
    seq!['f', 'a', 'l', 's', 'e']
}

/// A JSON boolean, after any whitespace. Only what follows it is kept.
pub open spec fn parse_bool(s: Seq<char>) -> Option<Seq<char>> {
    let t = skip_ws(s);
    match parse_lit(t, true_lit()) {
        Some(r) => Some(r),
        None => parse_lit(t, false_lit()),
    }
}

/// A JSON string literal or `null`, after any whitespace.
pub open spec fn parse_opt_string(s: Seq<char>) -> Option<(Option<Seq<char>>, Seq<char>)> {
    let t = skip_ws(s);
    match parse_lit(t, null_lit()) {
        Some(r) => Some((None, r)),
        None => if t.len() > 0 && t[0] == '"' {
            match parse_str_body(t.skip(1)) {
                Some((v, r)) => Some((Some(v), r)),
                None => None,
            }
        } else {
            None
        },
    }
}

/// A field's quoted key and its colon, each behind any whitespace: the
/// decoded key text and what follows the colon.
pub open spec fn parse_field_kv(s: Seq<char>) -> Option<(Seq<char>, Seq<char>)> {
    let t = skip_ws(s);
    if t.len() > 0 && t[0] == '"' {
        match parse_str_body(t.skip(1)) {
            Some((k, r)) => {
                let w = skip_ws(r);
                if w.len() > 0 && w[0] == ':' {
                    Some((k, w.skip(1)))
                } else {
                    None
                }
            },
            None => None,
        }
    } else {
        None
    }
}

pub open spec fn key_id() -> Seq<char> {
    seq!['"', 'i', 'd', '"']
}

pub open spec fn key_title() -> Seq<char> {
    seq!['"', 't', 'i', 't', 'l', 'e', '"']
}

pub open spec fn key_content() -> Seq<char> {
    seq!['"', 'c', 'o', 'n', 't', 'e', 'n', 't', '"']
}

pub open spec fn key_collection_id() -> Seq<char> {
    seq!['"', 'c', 'o', 'l', 'l', 'e', 'c', 't', 'i', 'o', 'n', '_', 'i', 'd', '"']
}

pub open spec fn key_tags() -> Seq<char> {
    seq!['"', 't', 'a', 'g', 's', '"']
}

pub open spec fn key_created_at() -> Seq<char> {
    seq!['"', 'c', 'r', 'e', 'a', 't', 'e', 'd', '_', 'a', 't', '"']
}

pub open spec fn key_updated_at() -> Seq<char> {
    seq!['"', 'u', 'p', 'd', 'a', 't', 'e', 'd', '_', 'a', 't', '"']
}

pub open spec fn key_word_count() -> Seq<char> {
    seq!['"', 'w', 'o', 'r', 'd', '_', 'c', 'o', 'u', 'n', 't', '"']
}

pub open spec fn key_character_count() -> Seq<char> {
    seq!['"', 'c', 'h', 'a', 'r', 'a', 'c', 't', 'e', 'r', '_', 'c', 'o', 'u', 'n', 't', '"']
}

pub open spec fn key_is_archived() -> Seq<char> {
    seq!['"', 'i', 's', '_', 'a', 'r', 'c', 'h', 'i', 'v', 'e', 'd', '"']
}

/// The plain text of the `id` key.
pub open spec fn id_name() -> Seq<char> {
    seq!['i', 'd']
}

/// The plain text of the `title` key.
pub open spec fn title_name() -> Seq<char> {
    seq!['t', 'i', 't', 'l', 'e']
}

/// The plain text of the `content` key.
pub open spec fn content_name() -> Seq<char> {
    seq!['c', 'o', 'n', 't', 'e', 'n', 't']
}

/// The plain text of the `collection_id` key.
pub open spec fn collection_id_name() -> Seq<char> {
    seq!['c', 'o', 'l', 'l', 'e', 'c', 't', 'i', 'o', 'n', '_', 'i', 'd']
}

/// The plain text of the `tags` key.
pub open spec fn tags_name() -> Seq<char> {
    seq!['t', 'a', 'g', 's']
}

/// The plain text of the `created_at` key.
pub open spec fn created_at_name() -> Seq<char> {
    seq!['c', 'r', 'e', 'a', 't', 'e', 'd', '_', 'a', 't']
}

/// The plain text of the `updated_at` key.
pub open spec fn updated_at_name() -> Seq<char> {
    seq!['u', 'p', 'd', 'a', 't', 'e', 'd', '_', 'a', 't']
}

/// The plain text of the `word_count` key.
pub open spec fn word_count_name() -> Seq<char> {
    seq!['w', 'o', 'r', 'd', '_', 'c', 'o', 'u', 'n', 't']
}

/// The plain text of the `character_count` key.
pub open spec fn character_count_name() -> Seq<char> {
    seq!['c', 'h', 'a', 'r', 'a', 'c', 't', 'e', 'r', '_', 'c', 'o', 'u', 'n', 't']
}

/// The plain text of the `is_archived` key.
pub open spec fn is_archived_name() -> Seq<char> {
    seq!['i', 's', '_', 'a', 'r', 'c', 'h', 'i', 'v', 'e', 'd']
}

/// What the importer keeps of one parsed note object.
pub struct ParsedNote {
    pub title: Seq<char>,
    pub content: Seq<char>,
    pub collection_id: Option<Seq<char>>,
    pub tags: Seq<char>,
}

/// What has been read of one note object so far, its fields arriving in
/// any order.
pub struct ObjAcc {
    pub has_id: bool,
    pub has_title: bool,
    pub has_content: bool,
    pub has_cid: bool,
    pub has_tags: bool,
    pub has_created: bool,
    pub has_updated: bool,
    pub has_wc: bool,
    pub has_cc: bool,
    pub has_arch: bool,
    pub title: Seq<char>,
    pub content: Seq<char>,
    pub cid: Option<Seq<char>>,
    pub tags: Seq<char>,
}

/// Nothing read yet.
pub open spec fn acc0() -> ObjAcc {
    ObjAcc {
        has_id: false,
        has_title: false,
        has_content: false,
        has_cid: false,
        has_tags: false,
        has_created: false,
        has_updated: false,
        has_wc: false,
        has_cc: false,
        has_arch: false,
        title: Seq::empty(),
        content: Seq::empty(),
        cid: None,
        tags: Seq::empty(),
    }
}

/// Every one of the ten fields has arrived.
pub open spec fn acc_complete(a: ObjAcc) -> bool {
    a.has_id && a.has_title && a.has_content && a.has_cid && a.has_tags && a.has_created
        && a.has_updated && a.has_wc && a.has_cc && a.has_arch
}

/// The record the kept fields form.
pub open spec fn acc_note(a: ObjAcc) -> ParsedNote {
    ParsedNote { title: a.title, content: a.content, collection_id: a.cid, tags: a.tags }
}

/// One field of a note object, whichever of the ten it is: the key decides
/// the value's shape, a repeated key is refused, and the identifier,
/// timestamps, counts and archived flag are read and discarded.
pub open spec fn parse_obj_field_one(s: Seq<char>, a: ObjAcc) -> Option<(ObjAcc, Seq<char>)> {
    match parse_field_kv(s) {
        None => None,
        Some((k, r)) => if k == id_name() {
            if a.has_id {
                None
            } else {
                match parse_jstring(r) {
                    Some(p) => Some((ObjAcc { has_id: true, ..a }, p.1)),
                    None => None,
                }
            }
        } else if k == title_name() {
            if a.has_title {
                None
            } else {
                match parse_jstring(r) {
                    Some(p) => Some((ObjAcc { has_title: true, title: p.0, ..a }, p.1)),
                    None => None,
                }
            }
        } else if k == content_name() {
            if a.has_content {
                None
            } else {
                match parse_jstring(r) {
                    Some(p) => Some((ObjAcc { has_content: true, content: p.0, ..a }, p.1)),
                    None => None,
                }
            }
        } else if k == collection_id_name() {
            if a.has_cid {
                None
            } else {
                match parse_opt_string(r) {
                    Some(p) => Some((ObjAcc { has_cid: true, cid: p.0, ..a }, p.1)),
                    None => None,
                }
            }
        } else if k == tags_name() {
            if a.has_tags {
                None
            } else {
                match parse_jstring(r) {
                    Some(p) => Some((ObjAcc { has_tags: true, tags: p.0, ..a }, p.1)),
                    None => None,
                }
            }
        } else if k == created_at_name() {
            if a.has_created {
                None
            } else {
                match parse_jstring(r) {
                    Some(p) => Some((ObjAcc { has_created: true, ..a }, p.1)),
                    None => None,
                }
            }
        } else if k == updated_at_name() {
            if a.has_updated {
                None
            } else {
                match parse_jstring(r) {
                    Some(p) => Some((ObjAcc { has_updated: true, ..a }, p.1)),
                    None => None,
                }
            }
        } else if k == word_count_name() {
            if a.has_wc {
                None
            } else {
                match parse_number(r) {
                    Some(r2) => Some((ObjAcc { has_wc: true, ..a }, r2)),
                    None => None,
                }
            }
        } else if k == character_count_name() {
            if a.has_cc {
                None
            } else {
                match parse_number(r) {
                    Some(r2) => Some((ObjAcc { has_cc: true, ..a }, r2)),
                    None => None,
                }
            }
        } else if k == is_archived_name() {
            if a.has_arch {
                None
            } else {
                match parse_bool(r) {
                    Some(r2) => Some((ObjAcc { has_arch: true, ..a }, r2)),
                    None => None,
                }
            }
        } else {
            None
        },
    }
}

/// The fields of a note object from inside the braces: any order, each of
/// the ten exactly once, through the closing brace.
pub open spec fn parse_obj_fields(s: Seq<char>, a: ObjAcc) -> Option<(ParsedNote, Seq<char>)>
    decreases s.len(),
{
    match parse_obj_field_one(s, a) {
        None => None,
        Some((a2, r)) => {
            let t = skip_ws(r);
            if t.len() >= s.len() {
                None
            } else if t.len() > 0 && t[0] == ',' {
                parse_obj_fields(t.skip(1), a2)
            } else if t.len() > 0 && t[0] == '}' {
                if acc_complete(a2) {
                    Some((acc_note(a2), t.skip(1)))
                } else {
                    None
                }
            } else {
                None
            }
        },
    }
}

/// A note object: its opening brace, the ten fields in any order, and the
/// closing brace.
pub open spec fn parse_note_obj(s: Seq<char>) -> Option<(ParsedNote, Seq<char>)> {
    match expect_char(s, '{') {
        None => None,
        Some(r0) => parse_obj_fields(r0, acc0()),
    }
}

/// One or more note objects separated by commas, ending at the closing
/// bracket of the array.
pub open spec fn parse_notes_items(s: Seq<char>) -> Option<(Seq<ParsedNote>, Seq<char>)>
    decreases s.len(),
{
    match parse_note_obj(s) {
        None => None,
        Some((pn, r)) => {
            let t = skip_ws(r);
            if t.len() >= s.len() {
                None
            } else if t.len() > 0 && t[0] == ',' {
                match parse_notes_items(t.skip(1)) {
                    Some((more, rr)) => Some((seq![pn] + more, rr)),
                    None => None,
                }
            } else if t.len() > 0 && t[0] == ']' {
                Some((seq![pn], t.skip(1)))
            } else {
                None
            }
        },
    }
}

/// A whole notes document: a JSON array of note objects with nothing but
/// whitespace after it.
pub open spec fn parse_notes(s: Seq<char>) -> Option<Seq<ParsedNote>> {
    let t = skip_ws(s);
    if t.len() > 0 && t[0] == '[' {
        let u = skip_ws(t.skip(1));
        if u.len() > 0 && u[0] == ']' {
            if skip_ws(u.skip(1)).len() == 0 {
                Some(Seq::empty())
            } else {
                None
            }
        } else {
            match parse_notes_items(t.skip(1)) {
                Some((items, r)) => if skip_ws(r).len() == 0 {
                    Some(items)
                } else {
                    None
                },
                None => None,
            }
        }
    } else {
        None
    }
}

pub open spec fn ind2() -> Seq<char> {
    seq![' ', ' ']
}

pub open spec fn ind4() -> Seq<char> {
    seq![' ', ' ', ' ', ' ']
}

pub open spec fn colsp() -> Seq<char> {
    seq![':', ' ']
}

pub open spec fn com() -> Seq<char> {
    seq![',', '\n']
}

/// The quoted string literal that renders `v`.
pub open spec fn jstr(v: Seq<char>) -> Seq<char> {
    seq!['"'] + escape_spec(v) + seq!['"']
}

/// A printed string field.
pub open spec fn fld_str(k: Seq<char>, v: Seq<char>) -> Seq<char> {
    ind4() + k + colsp() + jstr(v)
}

/// A printed string-or-null field.
pub open spec fn fld_opt(k: Seq<char>, v: Option<Seq<char>>) -> Seq<char> {
    ind4() + k + colsp() + (match v {
        Some(x) => jstr(x),
        None => null_lit(),
    })
}

/// A printed integer field.
pub open spec fn fld_num(k: Seq<char>, n: nat) -> Seq<char> {
    ind4() + k + colsp() + dec_spec(n)
}

/// A printed boolean field.
pub open spec fn fld_bool(k: Seq<char>, b: bool) -> Seq<char> {
    ind4() + k + colsp() + (if b {
        true_lit()
    } else {
        false_lit()
    })
}

/// The printed object of one note.
pub open spec fn note_obj_spec(n: Note) -> Seq<char> {
    ind2() + seq!['{'] + seq!['\n'] + fld_str(key_id(), n.id@) + com() + fld_str(
        key_title(),
        n.title@,
    ) + com() + fld_str(key_content(), n.content@) + com() + fld_opt(
        key_collection_id(),
        n.collection_id.deep_view(),
    ) + com() + fld_str(key_tags(), n.tags@) + com() + fld_str(
        key_created_at(),
        ts_rfc3339_of(n.created_at),
    ) + com() + fld_str(key_updated_at(), ts_rfc3339_of(n.updated_at)) + com() + fld_num(
        key_word_count(),
        n.word_count as nat,
    ) + com() + fld_num(key_character_count(), n.character_count as nat) + com() + fld_bool(
        key_is_archived(),
        n.is_archived,
    ) + seq!['\n'] + ind2() + seq!['}']
}

/// The printed items of a non-empty note list, separated by commas.
pub open spec fn items_spec(ns: Seq<Note>) -> Seq<char>
    decreases ns.len(),
{
    if ns.len() <= 1 {
        if ns.len() == 0 {
            Seq::empty()
        } else {
            note_obj_spec(ns[0])
        }
    } else {
        note_obj_spec(ns[0]) + com() + items_spec(ns.skip(1))
    }
}

/// The printed notes document: a pretty JSON array of the note objects.
pub open spec fn notes_json_spec(ns: Seq<Note>) -> Seq<char> {
    if ns.len() == 0 {
        seq!['[', ']']
    } else {
        seq!['['] + (seq!['\n'] + (items_spec(ns) + seq!['\n', ']']))
    }
}

/// What an import keeps of a note.
pub open spec fn note_proj() -> spec_fn(Note) -> ParsedNote {
    |n: Note|
        ParsedNote {
            title: n.title@,
            content: n.content@,
            collection_id: n.collection_id.deep_view(),
            tags: n.tags@,
        }
}

/// Whitespace ahead of any text is skipped away.
proof fn lemma_skip_ws_all(w: Seq<char>, x: Seq<char>)
    requires
        all_jws(w),
    ensures
        skip_ws(w + x) == skip_ws(x),
    decreases w.len(),
{
    if w.len() == 0 {
        assert(w + x =~= x);
    } else {
        assert((w + x)[0] == w[0]);
        assert(is_jws(w[0]));
        assert((w + x).skip(1) =~= w.skip(1) + x);
        assert(all_jws(w.skip(1)));
        lemma_skip_ws_all(w.skip(1), x);
    }
}

/// Skipping stops at once before anything that is not whitespace.
proof fn lemma_skip_ws_stop(x: Seq<char>)
    requires
        x.len() == 0 || !is_jws(x[0]),
    ensures
        skip_ws(x) == x,
{
}

/// A literal at the front of the text is read off exactly.
proof fn lemma_parse_lit_pre(lit: Seq<char>, rest: Seq<char>)
    ensures
        parse_lit(lit + rest, lit) == Some(rest),
{
    assert((lit + rest).take(lit.len() as int) =~= lit);
    assert((lit + rest).skip(lit.len() as int) =~= rest);
}

/// An expected punctuation character behind whitespace is read off exactly.
proof fn lemma_expect_pre(w: Seq<char>, c: char, rest: Seq<char>)
    requires
        all_jws(w),
        !is_jws(c),
    ensures
        expect_char(w + (seq![c] + rest), c) == Some(rest),
{
    lemma_skip_ws_all(w, seq![c] + rest);
    assert((seq![c] + rest)[0] == c);
    lemma_skip_ws_stop(seq![c] + rest);
    assert((seq![c] + rest).skip(1) =~= rest);
}

/// Reading a string body of plain characters stops at the closing quote and
/// yields them unchanged.
proof fn lemma_plain_body(k: Seq<char>, rest: Seq<char>)
    requires
        forall|j: int|
            0 <= j < k.len() ==> 32 <= (#[trigger] k[j]) as u32 && k[j] != '"' && k[j] != '\\',
    ensures
        parse_str_body(k + (seq!['"'] + rest)) == Some((k, rest)),
    decreases k.len(),
{
    let s = k + (seq!['"'] + rest);
    if k.len() == 0 {
        assert(s[0] == '"');
        assert(s.skip(1) =~= rest);
        assert(k =~= Seq::<char>::empty());
    } else {
        assert(s[0] == k[0]);
        assert(s.skip(1) =~= k.skip(1) + (seq!['"'] + rest));
        assert(forall|j: int|
            0 <= j < k.skip(1).len() ==> 32 <= (#[trigger] k.skip(1)[j]) as u32 && k.skip(1)[j]
                != '"' && k.skip(1)[j] != '\\');
        lemma_plain_body(k.skip(1), rest);
        assert(seq![k[0]] + k.skip(1) =~= k);
    }
}

/// A printed key and its colon are read off, decoding the plain key text.
proof fn lemma_field_kv_rt(w: Seq<char>, quoted: Seq<char>, plain: Seq<char>, tail: Seq<char>)
    requires
        all_jws(w),
        quoted == seq!['"'] + plain + seq!['"'],
        forall|j: int|
            0 <= j < plain.len() ==> 32 <= (#[trigger] plain[j]) as u32 && plain[j] != '"'
                && plain[j] != '\\',
    ensures
        parse_field_kv(w + (ind4() + quoted + colsp() + tail)) == Some(
            (plain, seq![' '] + tail),
        ),
{
    let s = w + (ind4() + quoted + colsp() + tail);
    assert(all_jws(w + ind4()));
    assert(s =~= (w + ind4()) + (quoted + (colsp() + tail)));
    lemma_skip_ws_all(w + ind4(), quoted + (colsp() + tail));
    let t = quoted + (colsp() + tail);
    assert(t[0] == '"');
    lemma_skip_ws_stop(t);
    assert(t.skip(1) =~= plain + (seq!['"'] + (colsp() + tail)));
    lemma_plain_body(plain, colsp() + tail);
    let u = colsp() + tail;
    assert(u[0] == ':');
    lemma_skip_ws_stop(u);
    assert(u.skip(1) =~= seq![' '] + tail);
}

/// A printed string literal behind whitespace reads back as its text.
proof fn lemma_jstring_rt(w: Seq<char>, v: Seq<char>, rest: Seq<char>)
    requires
        all_jws(w),
    ensures
        parse_jstring(w + (jstr(v) + rest)) == Some((v, rest)),
{
    lemma_skip_ws_all(w, jstr(v) + rest);
    assert((jstr(v) + rest)[0] == '"');
    lemma_skip_ws_stop(jstr(v) + rest);
    assert((jstr(v) + rest).skip(1) =~= escape_spec(v) + seq!['"'] + rest);
    lemma_escape_roundtrip(v, rest);
}

/// A printed string-or-null value reads back exactly.
proof fn lemma_opt_value_rt(w: Seq<char>, v: Option<Seq<char>>, rest: Seq<char>)
    requires
        all_jws(w),
    ensures
        parse_opt_string(
            w + ((match v {
                Some(x) => jstr(x),
                None => null_lit(),
            }) + rest),
        ) == Some((v, rest)),
{
    match v {
        Some(x) => {
            lemma_skip_ws_all(w, jstr(x) + rest);
            assert((jstr(x) + rest)[0] == '"');
            lemma_skip_ws_stop(jstr(x) + rest);
            let t = jstr(x) + rest;
            if null_lit().len() <= t.len() && t.take(null_lit().len() as int) == null_lit() {
                assert(t.take(null_lit().len() as int)[0] == '"');
                assert(false);
            }
            assert(parse_lit(t, null_lit()) is None);
            assert(t.skip(1) =~= escape_spec(x) + seq!['"'] + rest);
            lemma_escape_roundtrip(x, rest);
        },
        None => {
            lemma_skip_ws_all(w, null_lit() + rest);
            assert((null_lit() + rest)[0] == 'n');
            lemma_skip_ws_stop(null_lit() + rest);
            lemma_parse_lit_pre(null_lit(), rest);
        },
    }
}

/// A decimal rendering is digits alone, at least one of them.
proof fn lemma_dec_digits(n: nat)
    ensures
        dec_spec(n).len() >= 1,
        forall|j: int| 0 <= j < dec_spec(n).len() ==> digit_pred()(#[trigger] dec_spec(n)[j]),
    decreases n,
{
    if n < 10 {
        assert(dec_spec(n)[0] == crate::text::digit_char(n));
        assert(digit_pred()(crate::text::digit_char(n)));
    } else {
        lemma_dec_digits(n / 10);
        assert(dec_spec(n).last() == crate::text::digit_char(n % 10));
        assert(digit_pred()(crate::text::digit_char(n % 10)));
        assert(forall|j: int|
            0 <= j < dec_spec(n / 10).len() ==> dec_spec(n)[j] == dec_spec(n / 10)[j]);
    }
}

/// A printed integer value reads off exactly, leaving what follows it.
proof fn lemma_number_value_rt(w: Seq<char>, n: nat, rest: Seq<char>)
    requires
        all_jws(w),
        rest.len() > 0,
        !digit_pred()(rest[0]),
    ensures
        parse_number(w + (dec_spec(n) + rest)) == Some(rest),
{
    lemma_dec_digits(n);
    let t = dec_spec(n) + rest;
    assert(digit_pred()(t[0]));
    assert(!is_jws(t[0]));
    lemma_skip_ws_all(w, t);
    lemma_skip_ws_stop(t);
    assert(t[0] != '-');
    assert(forall|j: int| 0 <= j < dec_spec(n).len() ==> #[trigger] digit_pred()(t[j]));
    assert(t[dec_spec(n).len() as int] == rest[0]);
    lemma_run_end_is(t, 0, digit_pred(), dec_spec(n).len() as int);
    assert(t.skip(dec_spec(n).len() as int) =~= rest);
}

/// A printed boolean value reads off exactly, leaving what follows it.
proof fn lemma_bool_value_rt(w: Seq<char>, b: bool, rest: Seq<char>)
    requires
        all_jws(w),
    ensures
        parse_bool(
            w + ((if b {
                true_lit()
            } else {
                false_lit()
            }) + rest),
        ) == Some(rest),
{
    if b {
        lemma_skip_ws_all(w, true_lit() + rest);
        assert((true_lit() + rest)[0] == 't');
        lemma_skip_ws_stop(true_lit() + rest);
        lemma_parse_lit_pre(true_lit(), rest);
    } else {
        lemma_skip_ws_all(w, false_lit() + rest);
        assert((false_lit() + rest)[0] == 'f');
        lemma_skip_ws_stop(false_lit() + rest);
        let t = false_lit() + rest;
        if true_lit().len() <= t.len() && t.take(true_lit().len() as int) == true_lit() {
            assert(t.take(true_lit().len() as int)[0] == 'f');
            assert(false);
        }
        assert(parse_lit(t, true_lit()) is None);
        lemma_parse_lit_pre(false_lit(), rest);
    }
}

/// The closing of a printed note object, with `rest` after the brace./// The closing of a printed note object, with `rest` after the brace.
spec fn obj_close_text(rest: Seq<char>) -> Seq<char> {
    seq!['\n'] + (ind2() + (seq!['}'] + rest))
}

/// The printed counts and archived flag, through the closing brace.
spec fn meta2_text(n: Note, rest: Seq<char>) -> Seq<char> {
    fld_num(key_word_count(), n.word_count as nat) + (com() + (fld_num(
        key_character_count(),
        n.character_count as nat,
    ) + (com() + (fld_bool(key_is_archived(), n.is_archived) + obj_close_text(rest)))))
}

/// The printed timestamps and everything after them.
spec fn meta_text(n: Note, rest: Seq<char>) -> Seq<char> {
    fld_str(key_created_at(), ts_rfc3339_of(n.created_at)) + (com() + (fld_str(
        key_updated_at(),
        ts_rfc3339_of(n.updated_at),
    ) + (com() + meta2_text(n, rest))))
}

/// The printed collection reference, tag text and everything after them.
spec fn obj_tail_text(n: Note, rest: Seq<char>) -> Seq<char> {
    fld_opt(key_collection_id(), n.collection_id.deep_view()) + (com() + (fld_str(
        key_tags(),
        n.tags@,
    ) + (com() + meta_text(n, rest))))
}

/// The printed fields of a note object, with `rest` after the brace.
spec fn obj_front_text(n: Note, rest: Seq<char>) -> Seq<char> {
    fld_str(key_id(), n.id@) + (com() + (fld_str(key_title(), n.title@) + (com() + (fld_str(
        key_content(),
        n.content@,
    ) + (com() + obj_tail_text(n, rest))))))
}


/// One step of reassociating a printed text toward its parser's view.
proof fn lemma_shift(a: Seq<char>, b: Seq<char>, c: Seq<char>)
    ensures
        (a + b) + c == a + (b + c),
{
    assert((a + b) + c =~= a + (b + c));
}

/// A printed note object with a suffix is the brace, the fields and the
/// suffix, right-nested.
#[verifier::rlimit(100)]
proof fn lemma_obj_text_shape(w: Seq<char>, n: Note, rest: Seq<char>)
    ensures
        w + (note_obj_spec(n) + rest) == (w + ind2()) + (seq!['{'] + (seq!['\n'] + obj_front_text(
            n,
            rest,
        ))),
{
    let b0 = ind2();
    let b1 = seq!['{'];
    let b2 = seq!['\n'];
    let b3 = fld_str(key_id(), n.id@);
    let b4 = com();
    let b5 = fld_str(key_title(), n.title@);
    let b6 = com();
    let b7 = fld_str(key_content(), n.content@);
    let b8 = com();
    let b9 = fld_opt(key_collection_id(), n.collection_id.deep_view());
    let b10 = com();
    let b11 = fld_str(key_tags(), n.tags@);
    let b12 = com();
    let b13 = fld_str(key_created_at(), ts_rfc3339_of(n.created_at));
    let b14 = com();
    let b15 = fld_str(key_updated_at(), ts_rfc3339_of(n.updated_at));
    let b16 = com();
    let b17 = fld_num(key_word_count(), n.word_count as nat);
    let b18 = com();
    let b19 = fld_num(key_character_count(), n.character_count as nat);
    let b20 = com();
    let b21 = fld_bool(key_is_archived(), n.is_archived);
    let b22 = seq!['\n'];
    let b23 = ind2();
    let b24 = seq!['}'];
    let p1 = b0 + b1;
    let p2 = p1 + b2;
    let p3 = p2 + b3;
    let p4 = p3 + b4;
    let p5 = p4 + b5;
    let p6 = p5 + b6;
    let p7 = p6 + b7;
    let p8 = p7 + b8;
    let p9 = p8 + b9;
    let p10 = p9 + b10;
    let p11 = p10 + b11;
    let p12 = p11 + b12;
    let p13 = p12 + b13;
    let p14 = p13 + b14;
    let p15 = p14 + b15;
    let p16 = p15 + b16;
    let p17 = p16 + b17;
    let p18 = p17 + b18;
    let p19 = p18 + b19;
    let p20 = p19 + b20;
    let p21 = p20 + b21;
    let p22 = p21 + b22;
    let p23 = p22 + b23;
    let p24 = p23 + b24;
    assert(note_obj_spec(n) == p24);
    lemma_shift(p23, b24, rest);
    let s24 = b24 + rest;
    lemma_shift(p22, b23, s24);
    let s23 = b23 + s24;
    lemma_shift(p21, b22, s23);
    let s22 = b22 + s23;
    lemma_shift(p20, b21, s22);
    let s21 = b21 + s22;
    lemma_shift(p19, b20, s21);
    let s20 = b20 + s21;
    lemma_shift(p18, b19, s20);
    let s19 = b19 + s20;
    lemma_shift(p17, b18, s19);
    let s18 = b18 + s19;
    lemma_shift(p16, b17, s18);
    let s17 = b17 + s18;
    lemma_shift(p15, b16, s17);
    let s16 = b16 + s17;
    lemma_shift(p14, b15, s16);
    let s15 = b15 + s16;
    lemma_shift(p13, b14, s15);
    let s14 = b14 + s15;
    lemma_shift(p12, b13, s14);
    let s13 = b13 + s14;
    lemma_shift(p11, b12, s13);
    let s12 = b12 + s13;
    lemma_shift(p10, b11, s12);
    let s11 = b11 + s12;
    lemma_shift(p9, b10, s11);
    let s10 = b10 + s11;
    lemma_shift(p8, b9, s10);
    let s9 = b9 + s10;
    lemma_shift(p7, b8, s9);
    let s8 = b8 + s9;
    lemma_shift(p6, b7, s8);
    let s7 = b7 + s8;
    lemma_shift(p5, b6, s7);
    let s6 = b6 + s7;
    lemma_shift(p4, b5, s6);
    let s5 = b5 + s6;
    lemma_shift(p3, b4, s5);
    let s4 = b4 + s5;
    lemma_shift(p2, b3, s4);
    let s3 = b3 + s4;
    lemma_shift(p1, b2, s3);
    let s2 = b2 + s3;
    lemma_shift(b0, b1, s2);
    let s1 = b1 + s2;
    lemma_shift(w, b0, s1);
    assert(w + (note_obj_spec(n) + rest) == (w + b0) + s1);
    assert(s2 == seq!['\n'] + obj_front_text(n, rest));
}

/// Reading the printed `id` field updates the accumulator and leaves
/// the tail.
proof fn lemma_step_id(a: ObjAcc, v: Seq<char>, tail: Seq<char>)
    requires
        !a.has_id,
    ensures
        parse_obj_field_one(seq!['\n'] + (fld_str(key_id(), v) + tail), a) == Some(
            (ObjAcc { has_id: true, ..a }, tail),
        ),
{
    assert(all_jws(seq!['\n']));
    assert(all_jws(seq![' ']));
    assert(key_id() =~= seq!['"'] + id_name() + seq!['"']);
    assert(forall|j: int|
        0 <= j < id_name().len() ==> 32 <= (#[trigger] id_name()[j]) as u32 && id_name()[j] != '"'
            && id_name()[j] != '\\');
    assert(seq!['\n'] + (fld_str(key_id(), v) + tail) =~= seq!['\n'] + (ind4() + key_id()
        + colsp() + (jstr(v) + tail)));
    lemma_field_kv_rt(seq!['\n'], key_id(), id_name(), jstr(v) + tail);
    lemma_jstring_rt(seq![' '], v, tail);

}

/// Reading the printed `title` field updates the accumulator and leaves
/// the tail.
proof fn lemma_step_title(a: ObjAcc, v: Seq<char>, tail: Seq<char>)
    requires
        !a.has_title,
    ensures
        parse_obj_field_one(seq!['\n'] + (fld_str(key_title(), v) + tail), a) == Some(
            (ObjAcc { has_title: true, title: v, ..a }, tail),
        ),
{
    assert(all_jws(seq!['\n']));
    assert(all_jws(seq![' ']));
    assert(key_title() =~= seq!['"'] + title_name() + seq!['"']);
    assert(forall|j: int|
        0 <= j < title_name().len() ==> 32 <= (#[trigger] title_name()[j]) as u32 && title_name()[j] != '"'
            && title_name()[j] != '\\');
    assert(seq!['\n'] + (fld_str(key_title(), v) + tail) =~= seq!['\n'] + (ind4() + key_title()
        + colsp() + (jstr(v) + tail)));
    lemma_field_kv_rt(seq!['\n'], key_title(), title_name(), jstr(v) + tail);
    lemma_jstring_rt(seq![' '], v, tail);
    assert(title_name().len() != id_name().len());
    assert(title_name() != id_name());
}

/// Reading the printed `content` field updates the accumulator and leaves
/// the tail.
proof fn lemma_step_content(a: ObjAcc, v: Seq<char>, tail: Seq<char>)
    requires
        !a.has_content,
    ensures
        parse_obj_field_one(seq!['\n'] + (fld_str(key_content(), v) + tail), a) == Some(
            (ObjAcc { has_content: true, content: v, ..a }, tail),
        ),
{
    assert(all_jws(seq!['\n']));
    assert(all_jws(seq![' ']));
    assert(key_content() =~= seq!['"'] + content_name() + seq!['"']);
    assert(forall|j: int|
        0 <= j < content_name().len() ==> 32 <= (#[trigger] content_name()[j]) as u32 && content_name()[j] != '"'
            && content_name()[j] != '\\');
    assert(seq!['\n'] + (fld_str(key_content(), v) + tail) =~= seq!['\n'] + (ind4() + key_content()
        + colsp() + (jstr(v) + tail)));
    lemma_field_kv_rt(seq!['\n'], key_content(), content_name(), jstr(v) + tail);
    lemma_jstring_rt(seq![' '], v, tail);
    assert(content_name().len() != id_name().len());
    assert(content_name() != id_name());
    assert(content_name().len() != title_name().len());
    assert(content_name() != title_name());
}

/// Reading the printed `collection_id` field updates the accumulator and leaves
/// the tail.
proof fn lemma_step_collection_id(a: ObjAcc, v: Option<Seq<char>>, tail: Seq<char>)
    requires
        !a.has_cid,
    ensures
        parse_obj_field_one(seq!['\n'] + (fld_opt(key_collection_id(), v) + tail), a) == Some(
            (ObjAcc { has_cid: true, cid: v, ..a }, tail),
        ),
{
    assert(all_jws(seq!['\n']));
    assert(all_jws(seq![' ']));
    assert(key_collection_id() =~= seq!['"'] + collection_id_name() + seq!['"']);
    assert(forall|j: int|
        0 <= j < collection_id_name().len() ==> 32 <= (#[trigger] collection_id_name()[j]) as u32 && collection_id_name()[j] != '"'
            && collection_id_name()[j] != '\\');
    assert(seq!['\n'] + (fld_opt(key_collection_id(), v) + tail) =~= seq!['\n'] + (ind4() + key_collection_id()
        + colsp() + ((match v {
        Some(x) => jstr(x),
        None => null_lit(),
    }) + tail)));
    lemma_field_kv_rt(
        seq!['\n'],
        key_collection_id(),
        collection_id_name(),
        (match v {
            Some(x) => jstr(x),
            None => null_lit(),
        }) + tail,
    );
    lemma_opt_value_rt(seq![' '], v, tail);
    assert(collection_id_name().len() != id_name().len());
    assert(collection_id_name() != id_name());
    assert(collection_id_name().len() != title_name().len());
    assert(collection_id_name() != title_name());
    assert(collection_id_name().len() != content_name().len());
    assert(collection_id_name() != content_name());
}

/// Reading the printed `tags` field updates the accumulator and leaves
/// the tail.
proof fn lemma_step_tags(a: ObjAcc, v: Seq<char>, tail: Seq<char>)
    requires
        !a.has_tags,
    ensures
        parse_obj_field_one(seq!['\n'] + (fld_str(key_tags(), v) + tail), a) == Some(
            (ObjAcc { has_tags: true, tags: v, ..a }, tail),
        ),
{
    assert(all_jws(seq!['\n']));
    assert(all_jws(seq![' ']));
    assert(key_tags() =~= seq!['"'] + tags_name() + seq!['"']);
    assert(forall|j: int|
        0 <= j < tags_name().len() ==> 32 <= (#[trigger] tags_name()[j]) as u32 && tags_name()[j] != '"'
            && tags_name()[j] != '\\');
    assert(seq!['\n'] + (fld_str(key_tags(), v) + tail) =~= seq!['\n'] + (ind4() + key_tags()
        + colsp() + (jstr(v) + tail)));
    lemma_field_kv_rt(seq!['\n'], key_tags(), tags_name(), jstr(v) + tail);
    lemma_jstring_rt(seq![' '], v, tail);
    assert(tags_name().len() != id_name().len());
    assert(tags_name() != id_name());
    assert(tags_name().len() != title_name().len());
    assert(tags_name() != title_name());
    assert(tags_name().len() != content_name().len());
    assert(tags_name() != content_name());
    assert(tags_name().len() != collection_id_name().len());
    assert(tags_name() != collection_id_name());
}

/// Reading the printed `created_at` field updates the accumulator and leaves
/// the tail.
proof fn lemma_step_created_at(a: ObjAcc, v: Seq<char>, tail: Seq<char>)
    requires
        !a.has_created,
    ensures
        parse_obj_field_one(seq!['\n'] + (fld_str(key_created_at(), v) + tail), a) == Some(
            (ObjAcc { has_created: true, ..a }, tail),
        ),
{
    assert(all_jws(seq!['\n']));
    assert(all_jws(seq![' ']));
    assert(key_created_at() =~= seq!['"'] + created_at_name() + seq!['"']);
    assert(forall|j: int|
        0 <= j < created_at_name().len() ==> 32 <= (#[trigger] created_at_name()[j]) as u32 && created_at_name()[j] != '"'
            && created_at_name()[j] != '\\');
    assert(seq!['\n'] + (fld_str(key_created_at(), v) + tail) =~= seq!['\n'] + (ind4() + key_created_at()
        + colsp() + (jstr(v) + tail)));
    lemma_field_kv_rt(seq!['\n'], key_created_at(), created_at_name(), jstr(v) + tail);
    lemma_jstring_rt(seq![' '], v, tail);
    assert(created_at_name().len() != id_name().len());
    assert(created_at_name() != id_name());
    assert(created_at_name().len() != title_name().len());
    assert(created_at_name() != title_name());
    assert(created_at_name().len() != content_name().len());
    assert(created_at_name() != content_name());
    assert(created_at_name().len() != collection_id_name().len());
    assert(created_at_name() != collection_id_name());
    assert(created_at_name().len() != tags_name().len());
    assert(created_at_name() != tags_name());
}

/// Reading the printed `updated_at` field updates the accumulator and leaves
/// the tail.
proof fn lemma_step_updated_at(a: ObjAcc, v: Seq<char>, tail: Seq<char>)
    requires
        !a.has_updated,
    ensures
        parse_obj_field_one(seq!['\n'] + (fld_str(key_updated_at(), v) + tail), a) == Some(
            (ObjAcc { has_updated: true, ..a }, tail),
        ),
{
    assert(all_jws(seq!['\n']));
    assert(all_jws(seq![' ']));
    assert(key_updated_at() =~= seq!['"'] + updated_at_name() + seq!['"']);
    assert(forall|j: int|
        0 <= j < updated_at_name().len() ==> 32 <= (#[trigger] updated_at_name()[j]) as u32 && updated_at_name()[j] != '"'
            && updated_at_name()[j] != '\\');
    assert(seq!['\n'] + (fld_str(key_updated_at(), v) + tail) =~= seq!['\n'] + (ind4() + key_updated_at()
        + colsp() + (jstr(v) + tail)));
    lemma_field_kv_rt(seq!['\n'], key_updated_at(), updated_at_name(), jstr(v) + tail);
    lemma_jstring_rt(seq![' '], v, tail);
    assert(updated_at_name().len() != id_name().len());
    assert(updated_at_name() != id_name());
    assert(updated_at_name().len() != title_name().len());
    assert(updated_at_name() != title_name());
    assert(updated_at_name().len() != content_name().len());
    assert(updated_at_name() != content_name());
    assert(updated_at_name().len() != collection_id_name().len());
    assert(updated_at_name() != collection_id_name());
    assert(updated_at_name().len() != tags_name().len());
    assert(updated_at_name() != tags_name());
    assert(updated_at_name()[0] == 'u' && created_at_name()[0] == 'c');
    assert(updated_at_name() != created_at_name());
}

/// Reading the printed `word_count` field updates the accumulator and leaves
/// the tail.
proof fn lemma_step_word_count(a: ObjAcc, n: nat, tail: Seq<char>)
    requires
        !a.has_wc,
        tail.len() > 0,
        !digit_pred()(tail[0]),
    ensures
        parse_obj_field_one(seq!['\n'] + (fld_num(key_word_count(), n) + tail), a) == Some(
            (ObjAcc { has_wc: true, ..a }, tail),
        ),
{
    assert(all_jws(seq!['\n']));
    assert(all_jws(seq![' ']));
    assert(key_word_count() =~= seq!['"'] + word_count_name() + seq!['"']);
    assert(forall|j: int|
        0 <= j < word_count_name().len() ==> 32 <= (#[trigger] word_count_name()[j]) as u32 && word_count_name()[j] != '"'
            && word_count_name()[j] != '\\');
    assert(seq!['\n'] + (fld_num(key_word_count(), n) + tail) =~= seq!['\n'] + (ind4() + key_word_count()
        + colsp() + (dec_spec(n) + tail)));
    lemma_field_kv_rt(seq!['\n'], key_word_count(), word_count_name(), dec_spec(n) + tail);
    lemma_number_value_rt(seq![' '], n, tail);
    assert(word_count_name().len() != id_name().len());
    assert(word_count_name() != id_name());
    assert(word_count_name().len() != title_name().len());
    assert(word_count_name() != title_name());
    assert(word_count_name().len() != content_name().len());
    assert(word_count_name() != content_name());
    assert(word_count_name().len() != collection_id_name().len());
    assert(word_count_name() != collection_id_name());
    assert(word_count_name().len() != tags_name().len());
    assert(word_count_name() != tags_name());
    assert(word_count_name()[0] == 'w' && created_at_name()[0] == 'c');
    assert(word_count_name() != created_at_name());
    assert(word_count_name()[0] == 'w' && updated_at_name()[0] == 'u');
    assert(word_count_name() != updated_at_name());
}

/// Reading the printed `character_count` field updates the accumulator and leaves
/// the tail.
proof fn lemma_step_character_count(a: ObjAcc, n: nat, tail: Seq<char>)
    requires
        !a.has_cc,
        tail.len() > 0,
        !digit_pred()(tail[0]),
    ensures
        parse_obj_field_one(seq!['\n'] + (fld_num(key_character_count(), n) + tail), a) == Some(
            (ObjAcc { has_cc: true, ..a }, tail),
        ),
{
    assert(all_jws(seq!['\n']));
    assert(all_jws(seq![' ']));
    assert(key_character_count() =~= seq!['"'] + character_count_name() + seq!['"']);
    assert(forall|j: int|
        0 <= j < character_count_name().len() ==> 32 <= (#[trigger] character_count_name()[j]) as u32 && character_count_name()[j] != '"'
            && character_count_name()[j] != '\\');
    assert(seq!['\n'] + (fld_num(key_character_count(), n) + tail) =~= seq!['\n'] + (ind4() + key_character_count()
        + colsp() + (dec_spec(n) + tail)));
    lemma_field_kv_rt(seq!['\n'], key_character_count(), character_count_name(), dec_spec(n) + tail);
    lemma_number_value_rt(seq![' '], n, tail);
    assert(character_count_name().len() != id_name().len());
    assert(character_count_name() != id_name());
    assert(character_count_name().len() != title_name().len());
    assert(character_count_name() != title_name());
    assert(character_count_name().len() != content_name().len());
    assert(character_count_name() != content_name());
    assert(character_count_name().len() != collection_id_name().len());
    assert(character_count_name() != collection_id_name());
    assert(character_count_name().len() != tags_name().len());
    assert(character_count_name() != tags_name());
    assert(character_count_name().len() != created_at_name().len());
    assert(character_count_name() != created_at_name());
    assert(character_count_name().len() != updated_at_name().len());
    assert(character_count_name() != updated_at_name());
    assert(character_count_name().len() != word_count_name().len());
    assert(character_count_name() != word_count_name());
}

/// Reading the printed `is_archived` field updates the accumulator and leaves
/// the tail.
proof fn lemma_step_is_archived(a: ObjAcc, b: bool, tail: Seq<char>)
    requires
        !a.has_arch,
    ensures
        parse_obj_field_one(seq!['\n'] + (fld_bool(key_is_archived(), b) + tail), a) == Some(
            (ObjAcc { has_arch: true, ..a }, tail),
        ),
{
    assert(all_jws(seq!['\n']));
    assert(all_jws(seq![' ']));
    assert(key_is_archived() =~= seq!['"'] + is_archived_name() + seq!['"']);
    assert(forall|j: int|
        0 <= j < is_archived_name().len() ==> 32 <= (#[trigger] is_archived_name()[j]) as u32 && is_archived_name()[j] != '"'
            && is_archived_name()[j] != '\\');
    assert(seq!['\n'] + (fld_bool(key_is_archived(), b) + tail) =~= seq!['\n'] + (ind4() + key_is_archived()
        + colsp() + ((if b {
        true_lit()
    } else {
        false_lit()
    }) + tail)));
    lemma_field_kv_rt(
        seq!['\n'],
        key_is_archived(),
        is_archived_name(),
        (if b {
            true_lit()
        } else {
            false_lit()
        }) + tail,
    );
    lemma_bool_value_rt(seq![' '], b, tail);
    assert(is_archived_name().len() != id_name().len());
    assert(is_archived_name() != id_name());
    assert(is_archived_name().len() != title_name().len());
    assert(is_archived_name() != title_name());
    assert(is_archived_name().len() != content_name().len());
    assert(is_archived_name() != content_name());
    assert(is_archived_name().len() != collection_id_name().len());
    assert(is_archived_name() != collection_id_name());
    assert(is_archived_name().len() != tags_name().len());
    assert(is_archived_name() != tags_name());
    assert(is_archived_name().len() != created_at_name().len());
    assert(is_archived_name() != created_at_name());
    assert(is_archived_name().len() != updated_at_name().len());
    assert(is_archived_name() != updated_at_name());
    assert(is_archived_name().len() != word_count_name().len());
    assert(is_archived_name() != word_count_name());
    assert(is_archived_name().len() != character_count_name().len());
    assert(is_archived_name() != character_count_name());
}

/// One comma step of the field chain: after one field and its comma, the
/// parse continues on the rest with the grown accumulator.
proof fn lemma_comma_step(s: Seq<char>, a: ObjAcc, a2: ObjAcc, chain: Seq<char>)
    requires
        parse_obj_field_one(s, a) == Some((a2, com() + chain)),
        (com() + chain).len() < s.len(),
    ensures
        parse_obj_fields(s, a) == parse_obj_fields(seq!['\n'] + chain, a2),
{
    let r = com() + chain;
    assert(r[0] == ',');
    assert(!is_jws(','));
    lemma_skip_ws_stop(r);
    assert(r.skip(1) =~= seq!['\n'] + chain);
}

/// Reading the printed counts, archived flag and closing brace completes
/// the object.
#[verifier::rlimit(100)]
proof fn lemma_fields_counts(n: Note, rest: Seq<char>, a: ObjAcc)
    requires
        a.has_id && a.has_title && a.has_content && a.has_cid && a.has_tags && a.has_created
            && a.has_updated,
        !a.has_wc && !a.has_cc && !a.has_arch,
    ensures
        parse_obj_fields(seq!['\n'] + meta2_text(n, rest), a) == Some((acc_note(a), rest)),
{
    let nl = seq!['\n'];
    let f9 = fld_num(key_character_count(), n.character_count as nat);
    let f10 = fld_bool(key_is_archived(), n.is_archived);
    let e10 = obj_close_text(rest);
    let a10 = f10 + e10;
    let a9 = f9 + (com() + a10);
    let s1 = nl + meta2_text(n, rest);
    assert(s1 == nl + (fld_num(key_word_count(), n.word_count as nat) + (com() + a9)));
    assert((com() + a9)[0] == ',');
    assert(!digit_pred()(','));
    lemma_step_word_count(a, n.word_count as nat, com() + a9);
    let a1 = ObjAcc { has_wc: true, ..a };
    lemma_comma_step(s1, a, a1, a9);
    let s2 = nl + a9;
    assert(s2 == nl + (f9 + (com() + a10)));
    assert((com() + a10)[0] == ',');
    lemma_step_character_count(a1, n.character_count as nat, com() + a10);
    let a2 = ObjAcc { has_cc: true, ..a1 };
    lemma_comma_step(s2, a1, a2, a10);
    let s3 = nl + a10;
    assert(s3 == nl + (f10 + e10));
    lemma_step_is_archived(a2, n.is_archived, e10);
    let a3 = ObjAcc { has_arch: true, ..a2 };
    assert(e10 =~= (nl + ind2()) + (seq!['}'] + rest));
    assert(all_jws(nl + ind2()));
    lemma_skip_ws_all(nl + ind2(), seq!['}'] + rest);
    lemma_skip_ws_stop(seq!['}'] + rest);
    let t = seq!['}'] + rest;
    assert(t.len() < s3.len());
    assert(t[0] == '}');
    assert(acc_complete(a3));
    assert(t.skip(1) =~= rest);
    assert(acc_note(a3) == acc_note(a));
}

/// Reading the printed timestamps hands over to the counts.
#[verifier::rlimit(100)]
proof fn lemma_fields_meta(n: Note, rest: Seq<char>, a: ObjAcc)
    requires
        a.has_id && a.has_title && a.has_content && a.has_cid && a.has_tags,
        !a.has_created && !a.has_updated && !a.has_wc && !a.has_cc && !a.has_arch,
    ensures
        parse_obj_fields(seq!['\n'] + meta_text(n, rest), a) == Some((acc_note(a), rest)),
{
    let nl = seq!['\n'];
    let f7 = fld_str(key_updated_at(), ts_rfc3339_of(n.updated_at));
    let a7 = f7 + (com() + meta2_text(n, rest));
    let s1 = nl + meta_text(n, rest);
    assert(s1 == nl + (fld_str(key_created_at(), ts_rfc3339_of(n.created_at)) + (com() + a7)));
    lemma_step_created_at(a, ts_rfc3339_of(n.created_at), com() + a7);
    let a1 = ObjAcc { has_created: true, ..a };
    lemma_comma_step(s1, a, a1, a7);
    let s2 = nl + a7;
    assert(s2 == nl + (f7 + (com() + meta2_text(n, rest))));
    lemma_step_updated_at(a1, ts_rfc3339_of(n.updated_at), com() + meta2_text(n, rest));
    let a2 = ObjAcc { has_updated: true, ..a1 };
    lemma_comma_step(s2, a1, a2, meta2_text(n, rest));
    lemma_fields_counts(n, rest, a2);
    assert(acc_note(a2) == acc_note(a));
}

/// Reading the printed collection reference and tag text hands over to the
/// discarded tail.
#[verifier::rlimit(100)]
proof fn lemma_fields_tail(n: Note, rest: Seq<char>, a: ObjAcc)
    requires
        a.has_id && a.has_title && a.has_content,
        !a.has_cid && !a.has_tags && !a.has_created && !a.has_updated && !a.has_wc && !a.has_cc
            && !a.has_arch,
    ensures
        parse_obj_fields(seq!['\n'] + obj_tail_text(n, rest), a) == Some(
            (
                ParsedNote {
                    title: a.title,
                    content: a.content,
                    collection_id: n.collection_id.deep_view(),
                    tags: n.tags@,
                },
                rest,
            ),
        ),
{
    let nl = seq!['\n'];
    let f5 = fld_str(key_tags(), n.tags@);
    let a5 = f5 + (com() + meta_text(n, rest));
    let s1 = nl + obj_tail_text(n, rest);
    assert(s1 == nl + (fld_opt(key_collection_id(), n.collection_id.deep_view()) + (com()
        + a5)));
    lemma_step_collection_id(a, n.collection_id.deep_view(), com() + a5);
    let a1 = ObjAcc { has_cid: true, cid: n.collection_id.deep_view(), ..a };
    lemma_comma_step(s1, a, a1, a5);
    let s2 = nl + a5;
    assert(s2 == nl + (f5 + (com() + meta_text(n, rest))));
    lemma_step_tags(a1, n.tags@, com() + meta_text(n, rest));
    let a2 = ObjAcc { has_tags: true, tags: n.tags@, ..a1 };
    lemma_comma_step(s2, a1, a2, meta_text(n, rest));
    lemma_fields_meta(n, rest, a2);
}

/// Reading back a printed note object recovers its kept fields and stops
/// right after the closing brace.
#[verifier::rlimit(100)]
proof fn lemma_note_obj_rt(w: Seq<char>, n: Note, rest: Seq<char>)
    requires
        all_jws(w),
    ensures
        parse_note_obj(w + (note_obj_spec(n) + rest)) == Some((note_proj()(n), rest)),
{
    let nl = seq!['\n'];
    lemma_obj_text_shape(w, n, rest);
    assert(all_jws(w + ind2()));
    lemma_expect_pre(w + ind2(), '{', seq!['\n'] + obj_front_text(n, rest));
    let f2 = fld_str(key_title(), n.title@);
    let f3 = fld_str(key_content(), n.content@);
    let a3t = f3 + (com() + obj_tail_text(n, rest));
    let a2t = f2 + (com() + a3t);
    let s1 = nl + obj_front_text(n, rest);
    assert(s1 == nl + (fld_str(key_id(), n.id@) + (com() + a2t)));
    lemma_step_id(acc0(), n.id@, com() + a2t);
    let a1 = ObjAcc { has_id: true, ..acc0() };
    lemma_comma_step(s1, acc0(), a1, a2t);
    let s2 = nl + a2t;
    assert(s2 == nl + (f2 + (com() + a3t)));
    lemma_step_title(a1, n.title@, com() + a3t);
    let a2 = ObjAcc { has_title: true, title: n.title@, ..a1 };
    lemma_comma_step(s2, a1, a2, a3t);
    let s3 = nl + a3t;
    assert(s3 == nl + (f3 + (com() + obj_tail_text(n, rest))));
    lemma_step_content(a2, n.content@, com() + obj_tail_text(n, rest));
    let a3 = ObjAcc { has_content: true, content: n.content@, ..a2 };
    lemma_comma_step(s3, a2, a3, obj_tail_text(n, rest));
    lemma_fields_tail(n, rest, a3);
}

/// A printed note object is never empty.
proof fn lemma_obj_len(n: Note)
    ensures
        note_obj_spec(n).len() >= 2,
{
}

/// Reading back printed items recovers every note's kept fields through the
/// closing bracket.
#[verifier::rlimit(100)]
proof fn lemma_items_rt(w: Seq<char>, ns: Seq<Note>, after: Seq<char>)
    requires
        all_jws(w),
        ns.len() >= 1,
    ensures
        parse_notes_items(w + (items_spec(ns) + (seq!['\n', ']'] + after))) == Some(
            (ns.map_values(note_proj()), after),
        ),
    decreases ns.len(),
{
    let s = w + (items_spec(ns) + (seq!['\n', ']'] + after));
    lemma_obj_len(ns[0]);
    if ns.len() == 1 {
        assert(items_spec(ns) == note_obj_spec(ns[0]));
        let r = seq!['\n', ']'] + after;
        assert(s == w + (note_obj_spec(ns[0]) + r));
        lemma_note_obj_rt(w, ns[0], r);
        assert(r.len() < s.len());
        assert(r =~= seq!['\n'] + (seq![']'] + after));
        lemma_skip_ws_all(seq!['\n'], seq![']'] + after);
        lemma_skip_ws_stop(seq![']'] + after);
        let t = seq![']'] + after;
        assert(t[0] == ']');
        assert(t.skip(1) =~= after);
        assert(ns.map_values(note_proj()) =~= seq![note_proj()(ns[0])]);
    } else {
        assert(items_spec(ns) == note_obj_spec(ns[0]) + com() + items_spec(ns.skip(1)));
        let tail2 = items_spec(ns.skip(1)) + (seq!['\n', ']'] + after);
        let r = com() + tail2;
        lemma_shift(note_obj_spec(ns[0]), com(), items_spec(ns.skip(1)));
        lemma_shift(
            note_obj_spec(ns[0]) + com(),
            items_spec(ns.skip(1)),
            seq!['\n', ']'] + after,
        );
        lemma_shift(note_obj_spec(ns[0]), com(), tail2);
        assert(items_spec(ns) + (seq!['\n', ']'] + after) == note_obj_spec(ns[0]) + (com()
            + tail2));
        assert(s == w + (note_obj_spec(ns[0]) + r));
        lemma_note_obj_rt(w, ns[0], r);
        assert(r.len() < s.len());
        assert(r[0] == ',');
        assert(!is_jws(','));
        lemma_skip_ws_stop(r);
        assert(r.skip(1) =~= seq!['\n'] + tail2);
        lemma_items_rt(seq!['\n'], ns.skip(1), after);
        assert(seq!['\n'] + tail2 == seq!['\n'] + (items_spec(ns.skip(1)) + (seq!['\n', ']']
            + after)));
        assert(ns.map_values(note_proj()) =~= seq![note_proj()(ns[0])] + ns.skip(1).map_values(
            note_proj(),
        ));
    }
}

/// The first characters of a printed note object: the indent, then the
/// opening brace.
proof fn lemma_obj_starts(n: Note)
    ensures
        note_obj_spec(n).len() >= 3,
        note_obj_spec(n)[0] == ' ',
        note_obj_spec(n)[1] == ' ',
        note_obj_spec(n)[2] == '{',
{
}

/// Importing what the exporter printed recovers, in order, every note's
/// title, content, collection reference and tag text.
#[verifier::rlimit(100)]
pub proof fn lemma_notes_json_roundtrip(ns: Seq<Note>)
    ensures
        parse_notes(notes_json_spec(ns)) == Some(ns.map_values(note_proj())),
{
    let s = notes_json_spec(ns);
    if ns.len() == 0 {
        assert(s == seq!['[', ']']);
        assert(!is_jws('['));
        lemma_skip_ws_stop(s);
        assert(s[0] == '[');
        assert(s.skip(1) =~= seq![']']);
        lemma_skip_ws_stop(seq![']']);
        assert(seq![']'].skip(1) =~= Seq::<char>::empty());
        assert(skip_ws(Seq::<char>::empty()).len() == 0);
        assert(ns.map_values(note_proj()) =~= Seq::<ParsedNote>::empty());
    } else {
        let body = items_spec(ns) + seq!['\n', ']'];
        let t1 = seq!['\n'] + body;
        assert(s == seq!['['] + t1);
        assert(s[0] == '[');
        assert(!is_jws('['));
        lemma_skip_ws_stop(s);
        assert(s.skip(1) =~= t1);
        // the first object starts after the newline and the indent
        assert(items_spec(ns).len() >= 3 && items_spec(ns)[0] == ' ' && items_spec(ns)[1] == ' '
            && items_spec(ns)[2] == '{') by {
            lemma_obj_starts(ns[0]);
            if ns.len() == 1 {
                assert(items_spec(ns) == note_obj_spec(ns[0]));
            } else {
                assert(items_spec(ns) == note_obj_spec(ns[0]) + com() + items_spec(ns.skip(1)));
            }
        }
        assert(t1.len() >= 4 && t1[0] == '\n' && t1[1] == ' ' && t1[2] == ' ' && t1[3] == '{')
            by {
            assert(body[0] == items_spec(ns)[0]);
            assert(body[1] == items_spec(ns)[1]);
            assert(body[2] == items_spec(ns)[2]);
        }
        // the array is not empty: skipping whitespace lands on the brace
        assert(skip_ws(t1) == t1.skip(3)) by {
            assert(skip_ws(t1) == skip_ws(t1.skip(1)));
            assert(t1.skip(1)[0] == t1[1]);
            assert(t1.skip(1).skip(1) =~= t1.skip(2));
            assert(skip_ws(t1.skip(1)) == skip_ws(t1.skip(2)));
            assert(t1.skip(2)[0] == t1[2]);
            assert(t1.skip(2).skip(1) =~= t1.skip(3));
            assert(skip_ws(t1.skip(2)) == skip_ws(t1.skip(3)));
            assert(t1.skip(3)[0] == t1[3]);
            lemma_skip_ws_stop(t1.skip(3));
        }
        assert(skip_ws(t1)[0] == '{');
        // parse the items
        assert(t1 =~= seq!['\n'] + (items_spec(ns) + (seq!['\n', ']'] + Seq::<char>::empty())));
        lemma_items_rt(seq!['\n'], ns, Seq::<char>::empty());
        assert(skip_ws(Seq::<char>::empty()).len() == 0);
    }
}

/// One parsed note object as executable data.
#[derive(Debug)]
pub struct NoteRecord {
    pub title: String,
    pub content: String,
    pub collection_id: Option<String>,
    pub tags: String,
}

/// The mathematical value of a parsed record.
pub open spec fn record_view(r: NoteRecord) -> ParsedNote {
    ParsedNote {
        title: r.title@,
        content: r.content@,
        collection_id: r.collection_id.deep_view(),
        tags: r.tags@,
    }
}

/// Whether a character is JSON whitespace.
fn is_jws_char(c: char) -> (r: bool)
    ensures
        r == is_jws(c),
{
    c == ' ' || c == '\t' || c == '\n' || c == '\r'
}

/// Index just past the JSON whitespace that starts at `i`.
fn skip_ws_idx(cs: &Vec<char>, i: usize) -> (j: usize)
    requires
        i <= cs@.len(),
    ensures
        i <= j <= cs@.len(),
        skip_ws(cs@.skip(i as int)) == cs@.skip(j as int),
{
    let mut j = i;
    while j < cs.len() && is_jws_char(cs[j])
        invariant
            i <= j <= cs@.len(),
            skip_ws(cs@.skip(i as int)) == skip_ws(cs@.skip(j as int)),
        decreases cs@.len() - j,
    {
        proof {
            assert(cs@.skip(j as int)[0] == cs@[j as int]);
            assert(cs@.skip(j as int).skip(1) =~= cs@.skip(j + 1 as int));
        }
        j += 1;
    }
    proof {
        if j < cs@.len() {
            assert(cs@.skip(j as int)[0] == cs@[j as int]);
        } else {
            assert(cs@.skip(j as int).len() == 0);
        }
    }
    j
}

/// Reads the exact literal at `j`, with no whitespace skipping.
fn lit_at_idx(cs: &Vec<char>, j: usize, lit: &str) -> (r: Option<usize>)
    requires
        j <= cs@.len(),
    ensures
        r matches Some(k) ==> j <= k <= cs@.len() && k == j + lit@.len() && parse_lit(
            cs@.skip(j as int),
            lit@,
        ) == Some(cs@.skip(k as int)),
        r is None ==> parse_lit(cs@.skip(j as int), lit@) is None,
{
    let n = lit.unicode_len();
    if n > cs.len() - j {
        proof {
            assert(cs@.skip(j as int).len() < lit@.len());
        }
        return None;
    }
    let mut k: usize = 0;
    while k < n
        invariant
            j + n <= cs@.len(),
            j + n <= usize::MAX,
            n == lit@.len(),
            k <= n,
            forall|m: int| 0 <= m < k ==> cs@.skip(j as int)[m] == lit@[m],
        decreases n - k,
    {
        if cs[j + k] != lit.get_char(k) {
            proof {
                let t = cs@.skip(j as int);
                if lit@.len() <= t.len() && t.take(lit@.len() as int) == lit@ {
                    assert(t.take(lit@.len() as int)[k as int] == lit@[k as int]);
                    assert(false);
                }
            }
            return None;
        }
        k += 1;
    }
    proof {
        let t = cs@.skip(j as int);
        assert(t.take(lit@.len() as int) =~= lit@);
        assert(t.skip(lit@.len() as int) =~= cs@.skip(j + n as int));
    }
    Some(j + n)
}

/// Reads one expected punctuation character behind whitespace.
fn expect_idx(cs: &Vec<char>, i: usize, c: char) -> (r: Option<usize>)
    requires
        i <= cs@.len(),
    ensures
        r matches Some(j) ==> i < j <= cs@.len() && expect_char(cs@.skip(i as int), c) == Some(
            cs@.skip(j as int),
        ),
        r is None ==> expect_char(cs@.skip(i as int), c) is None,
{
    let j = skip_ws_idx(cs, i);
    if j < cs.len() && cs[j] == c {
        proof {
            assert(cs@.skip(j as int)[0] == c);
            assert(cs@.skip(j as int).skip(1) =~= cs@.skip(j + 1 as int));
        }
        Some(j + 1)
    } else {
        proof {
            if j < cs@.len() {
                assert(cs@.skip(j as int)[0] == cs@[j as int]);
            }
        }
        None
    }
}

/// The value of one hexadecimal digit character, if it is one.
fn hex_val_exec(c: char) -> (r: Option<u8>)
    ensures
        match r {
            Some(v) => hex_val(c) == Some(v as nat) && v < 16,
            None => hex_val(c) is None,
        },
{
    let u = c as u32;
    if 48 <= u && u <= 57 {
        Some((u - 48) as u8)
    } else if 97 <= u && u <= 102 {
        Some((u - 87) as u8)
    } else if 65 <= u && u <= 70 {
        Some((u - 55) as u8)
    } else {
        None
    }
}

/// The character one single-letter escape stands for.
fn unesc_char_exec(e: char) -> (r: Option<char>)
    ensures
        r == unesc_char(e),
{
    if e == '"' {
        Some('"')
    } else if e == '\\' {
        Some('\\')
    } else if e == '/' {
        Some('/')
    } else if e == 'n' {
        Some('\n')
    } else if e == 'r' {
        Some('\r')
    } else if e == 't' {
        Some('\t')
    } else if e == 'b' {
        Some((8u8) as char)
    } else if e == 'f' {
        Some((12u8) as char)
    } else {
        None
    }
}

/// Reads a string-literal body starting at `i`, just past the opening
/// quote.
fn parse_str_body_idx(cs: &Vec<char>, i: usize) -> (r: Option<(String, usize)>)
    requires
        i <= cs@.len(),
    ensures
        r matches Some(p) ==> i < p.1 <= cs@.len() && parse_str_body(cs@.skip(i as int)) == Some(
            (p.0@, cs@.skip(p.1 as int)),
        ),
        r is None ==> parse_str_body(cs@.skip(i as int)) is None,
{
    let mut acc = String::new();
    let mut p = i;
    loop
        invariant
            i <= p <= cs@.len(),
            parse_str_body(cs@.skip(i as int)) == (match parse_str_body(cs@.skip(p as int)) {
                Some(t) => Some((acc@ + t.0, t.1)),
                None => None::<(Seq<char>, Seq<char>)>,
            }),
        decreases cs@.len() - p,
    {
        let ghost t = cs@.skip(p as int);
        if p >= cs.len() {
            proof {
                assert(t.len() == 0);
            }
            return None;
        }
        proof {
            assert(t[0] == cs@[p as int]);
        }
        let c = cs[p];
        if c == '"' {
            proof {
                assert(t.skip(1) =~= cs@.skip(p + 1 as int));
                assert(acc@ + Seq::<char>::empty() =~= acc@);
            }
            return Some((acc, p + 1));
        }
        if c == '\\' {
            if p + 1 >= cs.len() {
                proof {
                    assert(t.len() < 2);
                }
                return None;
            }
            proof {
                assert(t[1] == cs@[p + 1 as int]);
            }
            let e = cs[p + 1];
            if e == 'u' {
                if cs.len() - p < 6 {
                    proof {
                        assert(t.len() < 6);
                    }
                    return None;
                }
                proof {
                    assert(t[2] == cs@[p + 2 as int]);
                    assert(t[3] == cs@[p + 3 as int]);
                    assert(t[4] == cs@[p + 4 as int]);
                    assert(t[5] == cs@[p + 5 as int]);
                }
                let h1 = hex_val_exec(cs[p + 2]);
                let h2 = hex_val_exec(cs[p + 3]);
                let h3 = hex_val_exec(cs[p + 4]);
                let h4 = hex_val_exec(cs[p + 5]);
                match (h1, h2, h3, h4) {
                    (Some(x), Some(y), Some(z), Some(w)) => {
                        let v: u32 = (x as u32) * 4096 + (y as u32) * 256 + (z as u32) * 16 + (
                        w as u32);
                        if 0xD800 <= v && v < 0xE000 {
                            return None;
                        }
                        let ch = match crate::ext::char_from_u32(v) {
                            Some(ch) => ch,
                            None => {
                                proof {
                                    assert(false);
                                }
                                ' '
                            },
                        };
                        let ghost acc0 = acc@;
                        push_char(&mut acc, ch);
                        proof {
                            assert(t.skip(6) =~= cs@.skip(p + 6 as int));
                            assert(ch == (v as u32) as char);
                            if parse_str_body(cs@.skip(p + 6 as int)) is Some {
                                let (tv, tr) = parse_str_body(cs@.skip(p + 6 as int)).unwrap();
                                assert(acc@ + tv =~= acc0 + (seq![(v as u32) as char] + tv));
                            }
                        }
                        p += 6;
                    },
                    _ => {
                        return None;
                    },
                }
            } else {
                match unesc_char_exec(e) {
                    Some(c2) => {
                        let ghost acc0 = acc@;
                        push_char(&mut acc, c2);
                        proof {
                            assert(t.skip(2) =~= cs@.skip(p + 2 as int));
                            if parse_str_body(cs@.skip(p + 2 as int)) is Some {
                                let (tv, tr) = parse_str_body(cs@.skip(p + 2 as int)).unwrap();
                                assert(acc@ + tv =~= acc0 + (seq![c2] + tv));
                            }
                        }
                        p += 2;
                    },
                    None => {
                        return None;
                    },
                }
            }
        } else if (c as u32) < 32 {
            return None;
        } else {
            let ghost acc0 = acc@;
            push_char(&mut acc, c);
            proof {
                assert(t.skip(1) =~= cs@.skip(p + 1 as int));
                if parse_str_body(cs@.skip(p + 1 as int)) is Some {
                    let (tv, tr) = parse_str_body(cs@.skip(p + 1 as int)).unwrap();
                    assert(acc@ + tv =~= acc0 + (seq![c] + tv));
                }
            }
            p += 1;
        }
    }
}

/// Reads a quoted string behind whitespace.
fn parse_jstring_idx(cs: &Vec<char>, i: usize) -> (r: Option<(String, usize)>)
    requires
        i <= cs@.len(),
    ensures
        r matches Some(p) ==> i < p.1 <= cs@.len() && parse_jstring(cs@.skip(i as int)) == Some(
            (p.0@, cs@.skip(p.1 as int)),
        ),
        r is None ==> parse_jstring(cs@.skip(i as int)) is None,
{
    let j = skip_ws_idx(cs, i);
    if j < cs.len() && cs[j] == '"' {
        proof {
            assert(cs@.skip(j as int)[0] == '"');
            assert(cs@.skip(j as int).skip(1) =~= cs@.skip(j + 1 as int));
        }
        parse_str_body_idx(cs, j + 1)
    } else {
        proof {
            if j < cs@.len() {
                assert(cs@.skip(j as int)[0] == cs@[j as int]);
            }
        }
        None
    }
}

/// Whether a character is a decimal digit.
fn is_digit_char(c: char) -> (r: bool)
    ensures
        r == digit_pred()(c),
{
    let u = c as u32;
    48 <= u && u <= 57
}

/// Reads an integer token behind whitespace, discarding its value.
fn parse_number_idx(cs: &Vec<char>, i: usize) -> (r: Option<usize>)
    requires
        i <= cs@.len(),
    ensures
        r matches Some(j) ==> i < j <= cs@.len() && parse_number(cs@.skip(i as int)) == Some(
            cs@.skip(j as int),
        ),
        r is None ==> parse_number(cs@.skip(i as int)) is None,
{
    let j = skip_ws_idx(cs, i);
    let j2 = if j < cs.len() && cs[j] == '-' {
        proof {
            assert(cs@.skip(j as int)[0] == '-');
            assert(cs@.skip(j as int).skip(1) =~= cs@.skip(j + 1 as int));
        }
        j + 1
    } else {
        proof {
            if j < cs@.len() {
                assert(cs@.skip(j as int)[0] == cs@[j as int]);
            }
        }
        j
    };
    let ghost t2 = cs@.skip(j2 as int);
    let mut k = j2;
    while k < cs.len() && is_digit_char(cs[k])
        invariant
            j2 <= k <= cs@.len(),
            forall|m: int| j2 <= m < k ==> #[trigger] digit_pred()(cs@[m]),
        decreases cs@.len() - k,
    {
        k += 1;
    }
    proof {
        assert(forall|m: int| 0 <= m < k - j2 ==> #[trigger] digit_pred()(t2[m]));
        if (k as int) - (j2 as int) < t2.len() {
            assert(t2[k - j2] == cs@[k as int]);
            assert(!digit_pred()(t2[k - j2]));
        }
        lemma_run_end_is(t2, 0, digit_pred(), k - j2);
        assert(t2.skip(k - j2) =~= cs@.skip(k as int));
    }
    if k == j2 {
        None
    } else {
        Some(k)
    }
}

/// Reads a boolean token behind whitespace, discarding its value.
fn parse_bool_idx(cs: &Vec<char>, i: usize) -> (r: Option<usize>)
    requires
        i <= cs@.len(),
    ensures
        r matches Some(j) ==> i < j <= cs@.len() && parse_bool(cs@.skip(i as int)) == Some(
            cs@.skip(j as int),
        ),
        r is None ==> parse_bool(cs@.skip(i as int)) is None,
{
    let j = skip_ws_idx(cs, i);
    proof {
        reveal_strlit("true");
        reveal_strlit("false");
        assert("true"@ =~= true_lit());
        assert("false"@ =~= false_lit());
    }
    match lit_at_idx(cs, j, "true") {
        Some(k) => Some(k),
        None => match lit_at_idx(cs, j, "false") {
            Some(k) => Some(k),
            None => None,
        },
    }
}

/// Reads a quoted string or `null` behind whitespace.
fn parse_opt_string_idx(cs: &Vec<char>, i: usize) -> (r: Option<(Option<String>, usize)>)
    requires
        i <= cs@.len(),
    ensures
        r matches Some(p) ==> i <= p.1 <= cs@.len() && parse_opt_string(cs@.skip(i as int))
            == Some((p.0.deep_view(), cs@.skip(p.1 as int))),
        r is None ==> parse_opt_string(cs@.skip(i as int)) is None,
{
    let j = skip_ws_idx(cs, i);
    proof {
        reveal_strlit("null");
        assert("null"@ =~= null_lit());
    }
    match lit_at_idx(cs, j, "null") {
        Some(k) => Some((None, k)),
        None => {
            if j < cs.len() && cs[j] == '"' {
                proof {
                    assert(cs@.skip(j as int)[0] == '"');
                    assert(cs@.skip(j as int).skip(1) =~= cs@.skip(j + 1 as int));
                }
                match parse_str_body_idx(cs, j + 1) {
                    Some((v, k)) => Some((Some(v), k)),
                    None => None,
                }
            } else {
                proof {
                    if j < cs@.len() {
                        assert(cs@.skip(j as int)[0] == cs@[j as int]);
                    }
                }
                None
            }
        },
    }
}

/// Reads a field's quoted key and its colon, each behind whitespace.
fn parse_field_kv_idx(cs: &Vec<char>, i: usize) -> (r: Option<(String, usize)>)
    requires
        i <= cs@.len(),
    ensures
        r matches Some(p) ==> i < p.1 <= cs@.len() && parse_field_kv(cs@.skip(i as int)) == Some(
            (p.0@, cs@.skip(p.1 as int)),
        ),
        r is None ==> parse_field_kv(cs@.skip(i as int)) is None,
{
    let j = skip_ws_idx(cs, i);
    if j < cs.len() && cs[j] == '"' {
        proof {
            assert(cs@.skip(j as int)[0] == '"');
            assert(cs@.skip(j as int).skip(1) =~= cs@.skip(j + 1 as int));
        }
        match parse_str_body_idx(cs, j + 1) {
            Some((k, r)) => {
                let q = skip_ws_idx(cs, r);
                if q < cs.len() && cs[q] == ':' {
                    proof {
                        assert(cs@.skip(q as int)[0] == ':');
                        assert(cs@.skip(q as int).skip(1) =~= cs@.skip(q + 1 as int));
                    }
                    Some((k, q + 1))
                } else {
                    proof {
                        if q < cs@.len() {
                            assert(cs@.skip(q as int)[0] == cs@[q as int]);
                        }
                    }
                    None
                }
            },
            None => None,
        }
    } else {
        proof {
            if j < cs@.len() {
                assert(cs@.skip(j as int)[0] == cs@[j as int]);
            }
        }
        None
    }
}

/// Reads one note object at `i`: its ten fields in any order, each exactly
/// once.
#[verifier::rlimit(100)]
fn parse_note_obj_idx(cs: &Vec<char>, i: usize) -> (r: Option<(NoteRecord, usize)>)
    requires
        i <= cs@.len(),
    ensures
        r matches Some(p) ==> i < p.1 <= cs@.len() && parse_note_obj(cs@.skip(i as int)) == Some(
            (record_view(p.0), cs@.skip(p.1 as int)),
        ),
        r is None ==> parse_note_obj(cs@.skip(i as int)) is None,
{
    let r0 = match expect_idx(cs, i, '{') {
        Some(j) => j,
        None => {
            return None;
        },
    };
    let ghost start = r0 as int;
    let mut has_id = false;
    let mut has_created = false;
    let mut has_updated = false;
    let mut has_wc = false;
    let mut has_cc = false;
    let mut has_arch = false;
    let mut title: Option<String> = None;
    let mut content: Option<String> = None;
    let mut cid: Option<Option<String>> = None;
    let mut tags: Option<String> = None;
    let ghost mut acc = acc0();
    let mut p = r0;
    loop
        invariant
            i < r0,
            i <= cs@.len(),
            start == r0 as int,
            r0 <= p <= cs@.len(),
            expect_char(cs@.skip(i as int), '{') == Some(cs@.skip(start)),
            parse_obj_fields(cs@.skip(start), acc0()) == parse_obj_fields(
                cs@.skip(p as int),
                acc,
            ),
            acc.has_id == has_id,
            acc.has_created == has_created,
            acc.has_updated == has_updated,
            acc.has_wc == has_wc,
            acc.has_cc == has_cc,
            acc.has_arch == has_arch,
            acc.has_title == (title is Some),
            title matches Some(x) ==> acc.title == x@,
            acc.has_content == (content is Some),
            content matches Some(x) ==> acc.content == x@,
            acc.has_cid == (cid is Some),
            cid matches Some(x) ==> acc.cid == x.deep_view(),
            acc.has_tags == (tags is Some),
            tags matches Some(x) ==> acc.tags == x@,
        decreases cs@.len() - p,
    {
        let ghost sp = cs@.skip(p as int);
        let ghost acc_prev = acc;
        proof {
            reveal_strlit("id");
            reveal_strlit("title");
            reveal_strlit("content");
            reveal_strlit("collection_id");
            reveal_strlit("tags");
            reveal_strlit("created_at");
            reveal_strlit("updated_at");
            reveal_strlit("word_count");
            reveal_strlit("character_count");
            reveal_strlit("is_archived");
            assert("id"@ =~= id_name());
            assert("title"@ =~= title_name());
            assert("content"@ =~= content_name());
            assert("collection_id"@ =~= collection_id_name());
            assert("tags"@ =~= tags_name());
            assert("created_at"@ =~= created_at_name());
            assert("updated_at"@ =~= updated_at_name());
            assert("word_count"@ =~= word_count_name());
            assert("character_count"@ =~= character_count_name());
            assert("is_archived"@ =~= is_archived_name());
        }
        let (k, r) = match parse_field_kv_idx(cs, p) {
            Some(q) => q,
            None => {
                proof {
                    assert(parse_obj_field_one(sp, acc) is None);
                    assert(parse_obj_fields(sp, acc) is None);
                }
                return None;
            },
        };
        let r2: usize;
        if crate::text::str_eq(k.as_str(), "id") {
            if has_id {
                proof {
                    assert(parse_obj_field_one(sp, acc) is None);
                    assert(parse_obj_fields(sp, acc) is None);
                }
                return None;
            }
            r2 = match parse_jstring_idx(cs, r) {
                Some((_v, j)) => j,
                None => {
                    proof {
                    assert(parse_obj_field_one(sp, acc) is None);
                    assert(parse_obj_fields(sp, acc) is None);
                }
                return None;
                },
            };
            has_id = true;
            proof {
                acc = ObjAcc { has_id: true, ..acc };
            }
        } else if crate::text::str_eq(k.as_str(), "title") {
            if title.is_some() {
                proof {
                    assert(parse_obj_field_one(sp, acc) is None);
                    assert(parse_obj_fields(sp, acc) is None);
                }
                return None;
            }
            let (v, j) = match parse_jstring_idx(cs, r) {
                Some(q) => q,
                None => {
                    proof {
                    assert(parse_obj_field_one(sp, acc) is None);
                    assert(parse_obj_fields(sp, acc) is None);
                }
                return None;
                },
            };
            r2 = j;
            proof {
                acc = ObjAcc { has_title: true, title: v@, ..acc };
            }
            title = Some(v);
        } else if crate::text::str_eq(k.as_str(), "content") {
            if content.is_some() {
                proof {
                    assert(parse_obj_field_one(sp, acc) is None);
                    assert(parse_obj_fields(sp, acc) is None);
                }
                return None;
            }
            let (v, j) = match parse_jstring_idx(cs, r) {
                Some(q) => q,
                None => {
                    proof {
                    assert(parse_obj_field_one(sp, acc) is None);
                    assert(parse_obj_fields(sp, acc) is None);
                }
                return None;
                },
            };
            r2 = j;
            proof {
                acc = ObjAcc { has_content: true, content: v@, ..acc };
            }
            content = Some(v);
        } else if crate::text::str_eq(k.as_str(), "collection_id") {
            if cid.is_some() {
                proof {
                    assert(parse_obj_field_one(sp, acc) is None);
                    assert(parse_obj_fields(sp, acc) is None);
                }
                return None;
            }
            let (v, j) = match parse_opt_string_idx(cs, r) {
                Some(q) => q,
                None => {
                    proof {
                    assert(parse_obj_field_one(sp, acc) is None);
                    assert(parse_obj_fields(sp, acc) is None);
                }
                return None;
                },
            };
            r2 = j;
            proof {
                acc = ObjAcc { has_cid: true, cid: v.deep_view(), ..acc };
            }
            cid = Some(v);
        } else if crate::text::str_eq(k.as_str(), "tags") {
            if tags.is_some() {
                proof {
                    assert(parse_obj_field_one(sp, acc) is None);
                    assert(parse_obj_fields(sp, acc) is None);
                }
                return None;
            }
            let (v, j) = match parse_jstring_idx(cs, r) {
                Some(q) => q,
                None => {
                    proof {
                    assert(parse_obj_field_one(sp, acc) is None);
                    assert(parse_obj_fields(sp, acc) is None);
                }
                return None;
                },
            };
            r2 = j;
            proof {
                acc = ObjAcc { has_tags: true, tags: v@, ..acc };
            }
            tags = Some(v);
        } else if crate::text::str_eq(k.as_str(), "created_at") {
            if has_created {
                proof {
                    assert(parse_obj_field_one(sp, acc) is None);
                    assert(parse_obj_fields(sp, acc) is None);
                }
                return None;
            }
            r2 = match parse_jstring_idx(cs, r) {
                Some((_v, j)) => j,
                None => {
                    proof {
                    assert(parse_obj_field_one(sp, acc) is None);
                    assert(parse_obj_fields(sp, acc) is None);
                }
                return None;
                },
            };
            has_created = true;
            proof {
                acc = ObjAcc { has_created: true, ..acc };
            }
        } else if crate::text::str_eq(k.as_str(), "updated_at") {
            if has_updated {
                proof {
                    assert(parse_obj_field_one(sp, acc) is None);
                    assert(parse_obj_fields(sp, acc) is None);
                }
                return None;
            }
            r2 = match parse_jstring_idx(cs, r) {
                Some((_v, j)) => j,
                None => {
                    proof {
                    assert(parse_obj_field_one(sp, acc) is None);
                    assert(parse_obj_fields(sp, acc) is None);
                }
                return None;
                },
            };
            has_updated = true;
            proof {
                acc = ObjAcc { has_updated: true, ..acc };
            }
        } else if crate::text::str_eq(k.as_str(), "word_count") {
            if has_wc {
                proof {
                    assert(parse_obj_field_one(sp, acc) is None);
                    assert(parse_obj_fields(sp, acc) is None);
                }
                return None;
            }
            r2 = match parse_number_idx(cs, r) {
                Some(j) => j,
                None => {
                    proof {
                    assert(parse_obj_field_one(sp, acc) is None);
                    assert(parse_obj_fields(sp, acc) is None);
                }
                return None;
                },
            };
            has_wc = true;
            proof {
                acc = ObjAcc { has_wc: true, ..acc };
            }
        } else if crate::text::str_eq(k.as_str(), "character_count") {
            if has_cc {
                proof {
                    assert(parse_obj_field_one(sp, acc) is None);
                    assert(parse_obj_fields(sp, acc) is None);
                }
                return None;
            }
            r2 = match parse_number_idx(cs, r) {
                Some(j) => j,
                None => {
                    proof {
                    assert(parse_obj_field_one(sp, acc) is None);
                    assert(parse_obj_fields(sp, acc) is None);
                }
                return None;
                },
            };
            has_cc = true;
            proof {
                acc = ObjAcc { has_cc: true, ..acc };
            }
        } else if crate::text::str_eq(k.as_str(), "is_archived") {
            if has_arch {
                proof {
                    assert(parse_obj_field_one(sp, acc) is None);
                    assert(parse_obj_fields(sp, acc) is None);
                }
                return None;
            }
            r2 = match parse_bool_idx(cs, r) {
                Some(j) => j,
                None => {
                    proof {
                    assert(parse_obj_field_one(sp, acc) is None);
                    assert(parse_obj_fields(sp, acc) is None);
                }
                return None;
                },
            };
            has_arch = true;
            proof {
                acc = ObjAcc { has_arch: true, ..acc };
            }
        } else {
            proof {
                assert(parse_obj_field_one(sp, acc) is None);
                assert(parse_obj_fields(sp, acc) is None);
            }
            return None;
        }
        proof {
            assert(parse_obj_field_one(sp, acc_prev) == Some((acc, cs@.skip(r2 as int))));
        }
        let q = skip_ws_idx(cs, r2);
        proof {
            assert(cs@.skip(q as int).len() < sp.len());
        }
        if q < cs.len() && cs[q] == ',' {
            proof {
                assert(cs@.skip(q as int)[0] == ',');
                assert(cs@.skip(q as int).skip(1) =~= cs@.skip(q + 1 as int));
                assert(parse_obj_fields(sp, acc_prev) == parse_obj_fields(
                    cs@.skip(q + 1 as int),
                    acc,
                ));
            }
            p = q + 1;
        } else if q < cs.len() && cs[q] == '}' {
            proof {
                assert(cs@.skip(q as int)[0] == '}');
                assert(cs@.skip(q as int).skip(1) =~= cs@.skip(q + 1 as int));
            }
            if has_id && has_created && has_updated && has_wc && has_cc && has_arch {
                match (title, content, cid, tags) {
                    (Some(t), Some(c), Some(ci), Some(tg)) => {
                        proof {
                            assert(acc_complete(acc));
                            assert(parse_obj_fields(sp, acc_prev) == Some(
                                (acc_note(acc), cs@.skip(q + 1 as int)),
                            ));
                        }
                        let rec = NoteRecord { title: t, content: c, collection_id: ci, tags: tg };
                        proof {
                            assert(record_view(rec) == acc_note(acc));
                        }
                        return Some((rec, q + 1));
                    },
                    _ => {
                        proof {
                            assert(!acc_complete(acc));
                            assert(parse_obj_fields(sp, acc_prev) is None);
                        }
                        return None;
                    },
                }
            } else {
                proof {
                    assert(!acc_complete(acc));
                    assert(parse_obj_fields(sp, acc_prev) is None);
                }
                return None;
            }
        } else {
            proof {
                if q < cs@.len() {
                    assert(cs@.skip(q as int)[0] == cs@[q as int]);
                }
                assert(parse_obj_fields(sp, acc_prev) is None);
            }
            return None;
        }
    }
}

/// Reads a whole notes document. The result mirrors exactly what the
/// mathematical parser accepts.
#[verifier::rlimit(100)]
pub fn parse_notes_text(source: &str) -> (r: Option<Vec<NoteRecord>>)
    ensures
        r matches Some(v) ==> parse_notes(source@) matches Some(items) && v@.len() == items.len()
            && (forall|i: int| 0 <= i < v@.len() ==> record_view(#[trigger] v@[i]) == items[i]),
        r is None ==> parse_notes(source@) is None,
{
    let cs = crate::text::chars_vec(source);
    proof {
        assert(cs@.skip(0) =~= cs@);
    }
    let t = match expect_idx(&cs, 0, '[') {
        Some(j) => j,
        None => {
            return None;
        },
    };
    let u = skip_ws_idx(&cs, t);
    if u < cs.len() && cs[u] == ']' {
        proof {
            assert(cs@.skip(u as int)[0] == ']');
            assert(cs@.skip(u as int).skip(1) =~= cs@.skip(u + 1 as int));
        }
        let f = skip_ws_idx(&cs, u + 1);
        if f == cs.len() {
            proof {
                assert(cs@.skip(f as int).len() == 0);
                assert(parse_notes(source@) == Some(Seq::<ParsedNote>::empty()));
            }
            let v: Vec<NoteRecord> = Vec::new();
            proof {
                assert(v@.len() == 0);
            }
            return Some(v);
        } else {
            proof {
                assert(cs@.skip(f as int).len() > 0);
            }
            return None;
        }
    }
    proof {
        if u < cs@.len() {
            assert(cs@.skip(u as int)[0] == cs@[u as int]);
        }
    }
    let ghost items0 = parse_notes_items(cs@.skip(t as int));
    proof {
        assert(parse_notes(source@) == (match items0 {
            Some(q) => if skip_ws(q.1).len() == 0 {
                Some(q.0)
            } else {
                None::<Seq<ParsedNote>>
            },
            None => None::<Seq<ParsedNote>>,
        }));
    }
    let mut out: Vec<NoteRecord> = Vec::new();
    let mut p = t;
    proof {
        assert(out@.map_values(|rec: NoteRecord| record_view(rec)) =~= Seq::<ParsedNote>::empty());
    }
    loop
        invariant
            t <= p <= cs@.len(),
            items0 == parse_notes_items(cs@.skip(t as int)),
            parse_notes(source@) == (match items0 {
                Some(q) => if skip_ws(q.1).len() == 0 {
                    Some(q.0)
                } else {
                    None::<Seq<ParsedNote>>
                },
                None => None::<Seq<ParsedNote>>,
            }),
            items0 == (match parse_notes_items(cs@.skip(p as int)) {
                Some(q) => Some(
                    (out@.map_values(|rec: NoteRecord| record_view(rec)) + q.0, q.1),
                ),
                None => None::<(Seq<ParsedNote>, Seq<char>)>,
            }),
        decreases cs@.len() - p,
    {
        let ghost sp = cs@.skip(p as int);
        let ghost dv0 = out@.map_values(|rec: NoteRecord| record_view(rec));
        let (rec, r) = match parse_note_obj_idx(&cs, p) {
            Some(q) => q,
            None => {
                proof {
                    assert(parse_notes_items(sp) is None);
                }
                return None;
            },
        };
        let ghost rv = record_view(rec);
        out.push(rec);
        proof {
            assert(out@.map_values(|rec2: NoteRecord| record_view(rec2)) =~= dv0.push(rv));
        }
        let q = skip_ws_idx(&cs, r);
        proof {
            assert(cs@.skip(q as int).len() < sp.len());
        }
        if q < cs.len() && cs[q] == ',' {
            proof {
                assert(cs@.skip(q as int)[0] == ',');
                assert(cs@.skip(q as int).skip(1) =~= cs@.skip(q + 1 as int));
                assert(parse_notes_items(sp) == (match parse_notes_items(cs@.skip(q + 1 as int)) {
                    Some(m) => Some((seq![rv] + m.0, m.1)),
                    None => None::<(Seq<ParsedNote>, Seq<char>)>,
                }));
                if parse_notes_items(cs@.skip(q + 1 as int)) is Some {
                    let m = parse_notes_items(cs@.skip(q + 1 as int)).unwrap();
                    assert(dv0.push(rv) + m.0 =~= dv0 + (seq![rv] + m.0));
                }
            }
            p = q + 1;
        } else if q < cs.len() && cs[q] == ']' {
            proof {
                assert(cs@.skip(q as int)[0] == ']');
                assert(cs@.skip(q as int).skip(1) =~= cs@.skip(q + 1 as int));
                assert(parse_notes_items(sp) == Some((seq![rv], cs@.skip(q + 1 as int))));
                assert(dv0.push(rv) =~= dv0 + seq![rv]);
                assert(items0 == Some(
                    (out@.map_values(|rec2: NoteRecord| record_view(rec2)), cs@.skip(q + 1 as int)),
                ));
            }
            let f = skip_ws_idx(&cs, q + 1);
            if f == cs.len() {
                proof {
                    assert(cs@.skip(f as int).len() == 0);
                }
                return Some(out);
            } else {
                proof {
                    assert(cs@.skip(f as int).len() > 0);
                }
                return None;
            }
        } else {
            proof {
                if q < cs@.len() {
                    assert(cs@.skip(q as int)[0] == cs@[q as int]);
                }
                assert(parse_notes_items(sp) is None);
            }
            return None;
        }
    }
}


/// Appends one printed string field: the indent, the quoted key, the colon
/// and the rendered value.
fn push_field_str(out: &mut String, key: &str, v: &str)
    ensures
        final(out)@ == old(out)@ + (ind4() + key@ + colsp() + jstr(v@)),
{
    let ghost base = old(out)@;
    out.append("    ");
    out.append(key);
    out.append(": ");
    let ghost mid = out@;
    push_json_string(out, v);
    proof {
        reveal_strlit("    ");
        reveal_strlit(": ");
        assert("    "@ =~= ind4());
        assert(": "@ =~= colsp());
        assert(mid + seq!['"'] + escape_spec(v@) + seq!['"'] =~= base + (ind4() + key@ + colsp()
            + jstr(v@)));
    }
}

/// Appends a printed note object.
#[verifier::rlimit(100)]
fn push_note_obj(out: &mut String, n: &Note)
    ensures
        final(out)@ == old(out)@ + note_obj_spec(*n),
{
    let ghost base = old(out)@;
    proof {
        reveal_strlit("  {\n");
        reveal_strlit(",\n");
        reveal_strlit("    \"collection_id\": ");
        reveal_strlit("null");
        reveal_strlit("    \"word_count\": ");
        reveal_strlit("    \"character_count\": ");
        reveal_strlit("    \"is_archived\": ");
        reveal_strlit("true");
        reveal_strlit("false");
        reveal_strlit("\n  }");
        reveal_strlit("\"id\"");
        reveal_strlit("\"title\"");
        reveal_strlit("\"content\"");
        reveal_strlit("\"tags\"");
        reveal_strlit("\"created_at\"");
        reveal_strlit("\"updated_at\"");
        assert("\"id\""@ =~= key_id());
        assert("\"title\""@ =~= key_title());
        assert("\"content\""@ =~= key_content());
        assert("\"tags\""@ =~= key_tags());
        assert("\"created_at\""@ =~= key_created_at());
        assert("\"updated_at\""@ =~= key_updated_at());
        assert("    \"collection_id\": "@ =~= ind4() + key_collection_id() + colsp());
        assert("    \"word_count\": "@ =~= ind4() + key_word_count() + colsp());
        assert("    \"character_count\": "@ =~= ind4() + key_character_count() + colsp());
        assert("    \"is_archived\": "@ =~= ind4() + key_is_archived() + colsp());
        assert("null"@ =~= null_lit());
        assert("true"@ =~= true_lit());
        assert("false"@ =~= false_lit());
        assert(",\n"@ =~= com());
        assert("  {\n"@ =~= ind2() + seq!['{'] + seq!['\n']);
        assert("\n  }"@ =~= seq!['\n'] + ind2() + seq!['}']);
    }
    let ghost mut p: Seq<char> = Seq::empty();
    out.append("  {\n");
    proof {
        assert(base + "  {\n"@ =~= base + (ind2() + seq!['{'] + seq!['\n']));
        p = ind2() + seq!['{'] + seq!['\n'];
        assert(out@ == base + p);
    }
    push_field_str(out, "\"id\"", n.id.as_str());
    proof {
        lemma_shift(base, p, ind4() + key_id() + colsp() + jstr(n.id@));
        p = p + fld_str(key_id(), n.id@);
        assert(out@ == base + p);
    }
    out.append(",\n");
    proof {
        lemma_shift(base, p, com());
        p = p + com();
        assert(out@ == base + p);
    }
    push_field_str(out, "\"title\"", n.title.as_str());
    proof {
        lemma_shift(base, p, ind4() + key_title() + colsp() + jstr(n.title@));
        p = p + fld_str(key_title(), n.title@);
        assert(out@ == base + p);
    }
    out.append(",\n");
    proof {
        lemma_shift(base, p, com());
        p = p + com();
    }
    push_field_str(out, "\"content\"", n.content.as_str());
    proof {
        lemma_shift(base, p, ind4() + key_content() + colsp() + jstr(n.content@));
        p = p + fld_str(key_content(), n.content@);
    }
    out.append(",\n");
    proof {
        lemma_shift(base, p, com());
        p = p + com();
    }
    out.append("    \"collection_id\": ");
    proof {
        lemma_shift(base, p, ind4() + key_collection_id() + colsp());
        p = p + (ind4() + key_collection_id() + colsp());
    }
    match &n.collection_id {
        Option::Some(c) => {
            push_json_string(out, c.as_str());
            proof {
                lemma_shift(base, p, seq!['"'] + escape_spec(c@) + seq!['"']);
                assert(seq!['"'] + escape_spec(c@) + seq!['"'] == jstr(c@));
            }
        },
        Option::None => {
            out.append("null");
            proof {
                lemma_shift(base, p, null_lit());
            }
        },
    }
    proof {
        p = p + (match n.collection_id.deep_view() {
            Option::Some(cv) => jstr(cv),
            Option::None => null_lit(),
        });
        assert(out@ == base + p);
    }
    out.append(",\n");
    proof {
        lemma_shift(base, p, com());
        p = p + com();
    }
    push_field_str(out, "\"tags\"", n.tags.as_str());
    proof {
        lemma_shift(base, p, ind4() + key_tags() + colsp() + jstr(n.tags@));
        p = p + fld_str(key_tags(), n.tags@);
    }
    out.append(",\n");
    proof {
        lemma_shift(base, p, com());
        p = p + com();
    }
    let created = crate::ext::rfc3339_timestamp(n.created_at);
    push_field_str(out, "\"created_at\"", created.as_str());
    proof {
        lemma_shift(base, p, ind4() + key_created_at() + colsp() + jstr(ts_rfc3339_of(n.created_at)));
        p = p + fld_str(key_created_at(), ts_rfc3339_of(n.created_at));
    }
    out.append(",\n");
    proof {
        lemma_shift(base, p, com());
        p = p + com();
    }
    let updated = crate::ext::rfc3339_timestamp(n.updated_at);
    push_field_str(out, "\"updated_at\"", updated.as_str());
    proof {
        lemma_shift(base, p, ind4() + key_updated_at() + colsp() + jstr(ts_rfc3339_of(n.updated_at)));
        p = p + fld_str(key_updated_at(), ts_rfc3339_of(n.updated_at));
    }
    out.append(",\n");
    proof {
        lemma_shift(base, p, com());
        p = p + com();
    }
    out.append("    \"word_count\": ");
    proof {
        lemma_shift(base, p, ind4() + key_word_count() + colsp());
        p = p + (ind4() + key_word_count() + colsp());
    }
    let wc = crate::text::u64_dec(n.word_count as u64);
    out.append(wc.as_str());
    proof {
        lemma_shift(base, p, dec_spec(n.word_count as nat));
        p = p + dec_spec(n.word_count as nat);
    }
    out.append(",\n");
    proof {
        lemma_shift(base, p, com());
        p = p + com();
    }
    out.append("    \"character_count\": ");
    proof {
        lemma_shift(base, p, ind4() + key_character_count() + colsp());
        p = p + (ind4() + key_character_count() + colsp());
    }
    let cc = crate::text::u64_dec(n.character_count as u64);
    out.append(cc.as_str());
    proof {
        lemma_shift(base, p, dec_spec(n.character_count as nat));
        p = p + dec_spec(n.character_count as nat);
    }
    out.append(",\n");
    proof {
        lemma_shift(base, p, com());
        p = p + com();
    }
    out.append("    \"is_archived\": ");
    proof {
        lemma_shift(base, p, ind4() + key_is_archived() + colsp());
        p = p + (ind4() + key_is_archived() + colsp());
    }
    if n.is_archived {
        out.append("true");
        proof {
            lemma_shift(base, p, true_lit());
        }
    } else {
        out.append("false");
        proof {
            lemma_shift(base, p, false_lit());
        }
    }
    proof {
        p = p + (if n.is_archived {
            true_lit()
        } else {
            false_lit()
        });
        assert(out@ == base + p);
    }
    out.append("\n  }");
    proof {
        lemma_shift(base, p, seq!['\n'] + ind2() + seq!['}']);
        p = p + (seq!['\n'] + ind2() + seq!['}']);
        assert(out@ == base + p);
        assert(p =~= note_obj_spec(*n));
    }
}

/// Prints the whole note list as the pretty JSON array the importer reads
/// back.
#[verifier::rlimit(100)]
pub fn notes_to_json(notes: &Vec<Note>) -> (r: String)
    ensures
        r@ == notes_json_spec(notes@),
{
    if notes.len() == 0 {
        let r = String::from_str("[]");
        proof {
            reveal_strlit("[]");
            assert(r@ =~= seq!['[', ']']);
        }
        return r;
    }
    let mut out = String::from_str("[\n");
    proof {
        reveal_strlit("[\n");
        assert(notes@.skip(0) =~= notes@);
        assert(out@ + (items_spec(notes@) + seq!['\n', ']']) =~= notes_json_spec(notes@));
    }
    let mut i: usize = 0;
    while i < notes.len()
        invariant
            notes@.len() > 0,
            i <= notes@.len(),
            i < notes@.len() ==> out@ + (items_spec(notes@.skip(i as int)) + seq!['\n', ']'])
                == notes_json_spec(notes@),
            i == notes@.len() ==> out@ + seq!['\n', ']'] == notes_json_spec(notes@),
        decreases notes@.len() - i,
    {
        let ghost pre = out@;
        proof {
            assert(notes@.skip(i as int)[0] == notes@[i as int]);
        }
        push_note_obj(&mut out, &notes[i]);
        if i + 1 < notes.len() {
            out.append(",\n");
            proof {
                reveal_strlit(",\n");
                assert(",\n"@ =~= com());
                assert(notes@.skip(i as int).skip(1) =~= notes@.skip(i + 1 as int));
                assert(items_spec(notes@.skip(i as int)) == note_obj_spec(notes@[i as int]) + com()
                    + items_spec(notes@.skip(i + 1 as int)));
                assert(out@ + (items_spec(notes@.skip(i + 1 as int)) + seq!['\n', ']']) =~= pre + (
                items_spec(notes@.skip(i as int)) + seq!['\n', ']']));
            }
        } else {
            proof {
                assert(notes@.skip(i as int).len() == 1);
                assert(items_spec(notes@.skip(i as int)) == note_obj_spec(
                    notes@.skip(i as int)[0],
                ));
                assert(out@ + seq!['\n', ']'] =~= pre + (items_spec(notes@.skip(i as int)) + seq![
                    '\n',
                    ']',
                ]));
            }
        }
        i += 1;
    }
    out.append("\n]");
    proof {
        reveal_strlit("\n]");
        assert("\n]"@ =~= seq!['\n', ']']);
    }
    out
}

} // verus!
