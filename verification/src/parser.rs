//! The template document parser: a document is a structured metadata record,
//! a `--!code` marker line, and a verbatim code body. The metadata record is
//! written in a parenthesized field notation: `name: value` fields separated
//! by commas, string values in double quotes with backslash escapes, an
//! optional integer as `None` or `Some(n)`, and a `{ "key": "value", ... }`
//! mapping. Unknown fields are skipped; a missing required field or any
//! malformed syntax is a decode failure.

use vstd::prelude::*;
use crate::text::{is_ws, trim, split_doc};
use crate::template::{Origin, TemplateData};

verus! {

pub open spec fn is_digit(c: char) -> bool {
    '0' <= c && c <= '9'
}

pub open spec fn is_ident_char(c: char) -> bool {
    ('a' <= c && c <= 'z') || ('A' <= c && c <= 'Z') || is_digit(c) || c == '_'
}

/// First index at or after `i` holding no whitespace.
pub open spec fn skip_ws(s: Seq<char>, i: int) -> int
    decreases s.len() - i,
    when 0 <= i <= s.len()
{
    if i < s.len() && is_ws(s[i]) {
        skip_ws(s, i + 1)
    } else {
        i
    }
}

pub proof fn lemma_skip_ws(s: Seq<char>, i: int)
    requires
        0 <= i <= s.len(),
    ensures
        i <= skip_ws(s, i) <= s.len(),
    decreases s.len() - i,
{
    if i < s.len() && is_ws(s[i]) {
        lemma_skip_ws(s, i + 1);
    }
}

/// End of the identifier run beginning at `i`.
pub open spec fn ident_end(s: Seq<char>, i: int) -> int
    decreases s.len() - i,
    when 0 <= i <= s.len()
{
    if i < s.len() && is_ident_char(s[i]) {
        ident_end(s, i + 1)
    } else {
        i
    }
}

pub proof fn lemma_ident_end(s: Seq<char>, i: int)
    requires
        0 <= i <= s.len(),
    ensures
        i <= ident_end(s, i) <= s.len(),
    decreases s.len() - i,
{
    if i < s.len() && is_ident_char(s[i]) {
        lemma_ident_end(s, i + 1);
    }
}

/// End of the digit run beginning at `i`.
pub open spec fn digits_end(s: Seq<char>, i: int) -> int
    decreases s.len() - i,
    when 0 <= i <= s.len()
{
    if i < s.len() && is_digit(s[i]) {
        digits_end(s, i + 1)
    } else {
        i
    }
}

pub proof fn lemma_digits_end(s: Seq<char>, i: int)
    requires
        0 <= i <= s.len(),
    ensures
        i <= digits_end(s, i) <= s.len(),
        forall|j: int| i <= j < digits_end(s, i) ==> is_digit(s[j]),
    decreases s.len() - i,
{
    if i < s.len() && is_digit(s[i]) {
        lemma_digits_end(s, i + 1);
    }
}

pub proof fn lemma_ident_end_at(s: Seq<char>, i: int, e: int)
    requires
        0 <= i <= e <= s.len(),
        forall|j: int| i <= j < e ==> is_ident_char(s[j]),
        e < s.len() ==> !is_ident_char(s[e]),
    ensures
        ident_end(s, i) == e,
    decreases e - i,
{
    if i < e {
        lemma_ident_end_at(s, i + 1, e);
    }
}

pub proof fn lemma_digits_end_at(s: Seq<char>, i: int, e: int)
    requires
        0 <= i <= e <= s.len(),
        forall|j: int| i <= j < e ==> is_digit(s[j]),
        e < s.len() ==> !is_digit(s[e]),
    ensures
        digits_end(s, i) == e,
    decreases e - i,
{
    if i < e {
        lemma_digits_end_at(s, i + 1, e);
    }
}

/// String body after the opening quote: characters and backslash escapes up
/// to the closing quote. Yields the unescaped content and the index after
/// the closing quote.
pub open spec fn p_str_body(s: Seq<char>, i: int, acc: Seq<char>) -> Option<(Seq<char>, int)>
    decreases s.len() - i,
    when 0 <= i <= s.len()
{
    if i >= s.len() {
        None
    } else if s[i] == '"' {
        Some((acc, i + 1))
    } else if s[i] == '\\' {
        if i + 1 < s.len() {
            let c = s[i + 1];
            if c == '\\' {
                p_str_body(s, i + 2, acc.push('\\'))
            } else if c == '"' {
                p_str_body(s, i + 2, acc.push('"'))
            } else if c == 'n' {
                p_str_body(s, i + 2, acc.push('\n'))
            } else if c == 't' {
                p_str_body(s, i + 2, acc.push('\t'))
            } else if c == 'r' {
                p_str_body(s, i + 2, acc.push('\r'))
            } else if c == '0' {
                p_str_body(s, i + 2, acc.push('\0'))
            } else {
                None
            }
        } else {
            None
        }
    } else {
        p_str_body(s, i + 1, acc.push(s[i]))
    }
}

pub proof fn lemma_p_str_body(s: Seq<char>, i: int, acc: Seq<char>)
    requires
        0 <= i <= s.len(),
    ensures
        p_str_body(s, i, acc) matches Some(p) ==> i < p.1 <= s.len(),
    decreases s.len() - i,
{
    if i < s.len() && s[i] != '"' {
        if s[i] == '\\' {
            if i + 1 < s.len() {
                let c = s[i + 1];
                if c == '\\' {
                    lemma_p_str_body(s, i + 2, acc.push('\\'));
                } else if c == '"' {
                    lemma_p_str_body(s, i + 2, acc.push('"'));
                } else if c == 'n' {
                    lemma_p_str_body(s, i + 2, acc.push('\n'));
                } else if c == 't' {
                    lemma_p_str_body(s, i + 2, acc.push('\t'));
                } else if c == 'r' {
                    lemma_p_str_body(s, i + 2, acc.push('\r'));
                } else if c == '0' {
                    lemma_p_str_body(s, i + 2, acc.push('\0'));
                }
            }
        } else {
            lemma_p_str_body(s, i + 1, acc.push(s[i]));
        }
    }
}

/// A double-quoted string starting at `i`.
pub open spec fn p_string(s: Seq<char>, i: int) -> Option<(Seq<char>, int)> {
    if 0 <= i < s.len() && s[i] == '"' {
        p_str_body(s, i + 1, Seq::empty())
    } else {
        None
    }
}

pub proof fn lemma_p_string(s: Seq<char>, i: int)
    requires
        0 <= i <= s.len(),
    ensures
        p_string(s, i) matches Some(p) ==> i < p.1 <= s.len(),
{
    if 0 <= i < s.len() && s[i] == '"' {
        lemma_p_str_body(s, i + 1, Seq::empty());
    }
}

/// Numeric value of a digit sequence, most significant digit first.
pub open spec fn dec_val(s: Seq<char>) -> nat
    decreases s.len(),
{
    if s.len() == 0 {
        0
    } else {
        dec_val(s.drop_last()) * 10 + ((s.last() as int - 48) as nat)
    }
}

/// An unsigned decimal integer starting at `i`; fails when absent or too
/// large for `usize`.
pub open spec fn p_uint(s: Seq<char>, i: int) -> Option<(usize, int)> {
    let e = digits_end(s, i);
    if e == i {
        None
    } else {
        let v = dec_val(s.subrange(i, e));
        if v <= usize::MAX {
            Some((v as usize, e))
        } else {
            None
        }
    }
}

pub proof fn lemma_p_uint(s: Seq<char>, i: int)
    requires
        0 <= i <= s.len(),
    ensures
        p_uint(s, i) matches Some(p) ==> i < p.1 <= s.len(),
{
    lemma_digits_end(s, i);
}

pub open spec fn kw_none() -> Seq<char> {
    seq!['N', 'o', 'n', 'e']
}

pub open spec fn kw_some() -> Seq<char> {
    seq!['S', 'o', 'm', 'e']
}

pub open spec fn kw_beauty_name() -> Seq<char> {
    seq!['b', 'e', 'a', 'u', 't', 'y', '_', 'n', 'a', 'm', 'e']
}

pub open spec fn kw_force_order() -> Seq<char> {
    seq!['f', 'o', 'r', 'c', 'e', '_', 'o', 'r', 'd', 'e', 'r']
}

pub open spec fn kw_bevy_version() -> Seq<char> {
    seq!['b', 'e', 'v', 'y', '_', 'v', 'e', 'r', 's', 'i', 'o', 'n']
}

pub open spec fn kw_extra_crates() -> Seq<char> {
    seq!['e', 'x', 't', 'r', 'a', '_', 'c', 'r', 'a', 't', 'e', 's']
}

/// An optional integer: the word `None`, or `Some` around a decimal integer.
pub open spec fn p_force_order(s: Seq<char>, i: int) -> Option<(Option<usize>, int)> {
    let e = ident_end(s, i);
    let w = s.subrange(i, e);
    if w == kw_none() {
        Some((None, e))
    } else if w == kw_some() {
        let j = skip_ws(s, e);
        if j < s.len() && s[j] == '(' {
            let j2 = skip_ws(s, j + 1);
            match p_uint(s, j2) {
                None => None,
                Some((v, j3)) => {
                    let j4 = skip_ws(s, j3);
                    if j4 < s.len() && s[j4] == ')' {
                        Some((Some(v), j4 + 1))
                    } else {
                        None
                    }
                },
            }
        } else {
            None
        }
    } else {
        None
    }
}

pub proof fn lemma_p_force_order(s: Seq<char>, i: int)
    requires
        0 <= i <= s.len(),
    ensures
        p_force_order(s, i) matches Some(p) ==> i <= p.1 <= s.len(),
{
    lemma_ident_end(s, i);
    let e = ident_end(s, i);
    lemma_skip_ws(s, e);
    let j = skip_ws(s, e);
    if j < s.len() && s[j] == '(' {
        lemma_skip_ws(s, j + 1);
        let j2 = skip_ws(s, j + 1);
        lemma_p_uint(s, j2);
        match p_uint(s, j2) {
            Some((v, j3)) => lemma_skip_ws(s, j3),
            None => (),
        }
    }
}

/// Inserts a key/value pair into an association list: replaces the value of
/// an existing key in place, else appends.
pub open spec fn upsert(m: Seq<(Seq<char>, Seq<char>)>, k: Seq<char>, v: Seq<char>) -> Seq<
    (Seq<char>, Seq<char>),
>
    decreases m.len(),
{
    if m.len() == 0 {
        seq![(k, v)]
    } else if m[0].0 == k {
        seq![(k, v)] + m.drop_first()
    } else {
        seq![m[0]] + upsert(m.drop_first(), k, v)
    }
}

/// The entries of a `{ "key": "value", ... }` mapping after the opening
/// brace; later occurrences of a key replace earlier ones.
pub open spec fn p_map_items(
    s: Seq<char>,
    i: int,
    acc: Seq<(Seq<char>, Seq<char>)>,
) -> Option<(Seq<(Seq<char>, Seq<char>)>, int)>
    decreases s.len() - i,
    when 0 <= i <= s.len()
    via p_map_items_dec
{
    let j = skip_ws(s, i);
    if j >= s.len() {
        None
    } else if s[j] == '}' {
        Some((acc, j + 1))
    } else {
        match p_string(s, j) {
            None => None,
            Some((k, j2)) => {
                let j3 = skip_ws(s, j2);
                if j3 < s.len() && s[j3] == ':' {
                    let j4 = skip_ws(s, j3 + 1);
                    match p_string(s, j4) {
                        None => None,
                        Some((v, j5)) => {
                            let j6 = skip_ws(s, j5);
                            if j6 < s.len() && s[j6] == ',' {
                                p_map_items(s, j6 + 1, upsert(acc, k, v))
                            } else if j6 < s.len() && s[j6] == '}' {
                                Some((upsert(acc, k, v), j6 + 1))
                            } else {
                                None
                            }
                        },
                    }
                } else {
                    None
                }
            },
        }
    }
}

#[via_fn]
proof fn p_map_items_dec(s: Seq<char>, i: int, acc: Seq<(Seq<char>, Seq<char>)>) {
    lemma_skip_ws(s, i);
    let j = skip_ws(s, i);
    lemma_p_string(s, j);
    match p_string(s, j) {
        Some((k, j2)) => {
            lemma_skip_ws(s, j2);
            let j3 = skip_ws(s, j2);
            if j3 < s.len() && s[j3] == ':' {
                lemma_skip_ws(s, j3 + 1);
                let j4 = skip_ws(s, j3 + 1);
                lemma_p_string(s, j4);
                match p_string(s, j4) {
                    Some((v, j5)) => lemma_skip_ws(s, j5),
                    None => (),
                }
            }
        },
        None => (),
    }
}

/// A mapping starting at `i` with its opening brace.
pub open spec fn p_map(s: Seq<char>, i: int) -> Option<(Seq<(Seq<char>, Seq<char>)>, int)> {
    if 0 <= i < s.len() && s[i] == '{' {
        p_map_items(s, i + 1, Seq::empty())
    } else {
        None
    }
}

pub proof fn lemma_p_map_items(s: Seq<char>, i: int, acc: Seq<(Seq<char>, Seq<char>)>)
    requires
        0 <= i <= s.len(),
    ensures
        p_map_items(s, i, acc) matches Some(p) ==> i < p.1 <= s.len(),
    decreases s.len() - i,
{
    lemma_skip_ws(s, i);
    let j = skip_ws(s, i);
    lemma_p_string(s, j);
    if j < s.len() && s[j] != '}' {
        match p_string(s, j) {
            Some((k, j2)) => {
                lemma_skip_ws(s, j2);
                let j3 = skip_ws(s, j2);
                if j3 < s.len() && s[j3] == ':' {
                    lemma_skip_ws(s, j3 + 1);
                    let j4 = skip_ws(s, j3 + 1);
                    lemma_p_string(s, j4);
                    match p_string(s, j4) {
                        Some((v, j5)) => {
                            lemma_skip_ws(s, j5);
                            let j6 = skip_ws(s, j5);
                            if j6 < s.len() && s[j6] == ',' {
                                lemma_p_map_items(s, j6 + 1, upsert(acc, k, v));
                            }
                        },
                        None => (),
                    }
                }
            },
            None => (),
        }
    }
}

pub proof fn lemma_p_map(s: Seq<char>, i: int)
    requires
        0 <= i <= s.len(),
    ensures
        p_map(s, i) matches Some(p) ==> i < p.1 <= s.len(),
{
    if 0 <= i < s.len() && s[i] == '{' {
        lemma_p_map_items(s, i + 1, Seq::empty());
    }
}

/// Skips one balanced group after its opening delimiter: `depth` open
/// delimiters are still unclosed. String contents do not count.
pub open spec fn p_skip_bal(s: Seq<char>, i: int, depth: int) -> Option<int>
    decreases s.len() - i,
    when 0 <= i <= s.len()
    via p_skip_bal_dec
{
    if i >= s.len() {
        None
    } else if s[i] == '"' {
        match p_string(s, i) {
            None => None,
            Some((v, j)) => p_skip_bal(s, j, depth),
        }
    } else if s[i] == '(' || s[i] == '[' || s[i] == '{' {
        p_skip_bal(s, i + 1, depth + 1)
    } else if s[i] == ')' || s[i] == ']' || s[i] == '}' {
        if depth == 1 {
            Some(i + 1)
        } else {
            p_skip_bal(s, i + 1, depth - 1)
        }
    } else {
        p_skip_bal(s, i + 1, depth)
    }
}

#[via_fn]
proof fn p_skip_bal_dec(s: Seq<char>, i: int, depth: int) {
    lemma_p_string(s, i);
}

pub proof fn lemma_p_skip_bal(s: Seq<char>, i: int, depth: int)
    requires
        0 <= i <= s.len(),
    ensures
        p_skip_bal(s, i, depth) matches Some(j) ==> i < j <= s.len(),
    decreases s.len() - i,
{
    if i < s.len() {
        if s[i] == '"' {
            lemma_p_string(s, i);
            match p_string(s, i) {
                Some((v, j)) => lemma_p_skip_bal(s, j, depth),
                None => (),
            }
        } else {
            lemma_p_skip_bal(s, i + 1, depth + 1);
            lemma_p_skip_bal(s, i + 1, depth - 1);
            lemma_p_skip_bal(s, i + 1, depth);
        }
    }
}

/// Skips the value of an unknown field: a string, an integer, a bare word,
/// a word with a parenthesized payload, or any balanced group.
pub open spec fn p_skip_value(s: Seq<char>, i: int) -> Option<int> {
    if i < 0 || i >= s.len() {
        None
    } else if s[i] == '"' {
        match p_string(s, i) {
            None => None,
            Some((v, j)) => Some(j),
        }
    } else if is_digit(s[i]) {
        Some(digits_end(s, i))
    } else if is_ident_char(s[i]) {
        let e = ident_end(s, i);
        let j = skip_ws(s, e);
        if j < s.len() && s[j] == '(' {
            p_skip_bal(s, j + 1, 1)
        } else {
            Some(e)
        }
    } else if s[i] == '(' || s[i] == '[' || s[i] == '{' {
        p_skip_bal(s, i + 1, 1)
    } else {
        None
    }
}

pub proof fn lemma_p_skip_value(s: Seq<char>, i: int)
    requires
        0 <= i <= s.len(),
    ensures
        p_skip_value(s, i) matches Some(j) ==> i < j <= s.len(),
{
    if 0 <= i < s.len() {
        lemma_p_string(s, i);
        lemma_digits_end(s, i);
        lemma_ident_end(s, i);
        lemma_digits_end(s, i + 1);
        lemma_ident_end(s, i + 1);
        let e = ident_end(s, i);
        lemma_skip_ws(s, e);
        let j = skip_ws(s, e);
        if j < s.len() && s[j] == '(' {
            lemma_p_skip_bal(s, j + 1, 1);
        }
        lemma_p_skip_bal(s, i + 1, 1);
    }
}

/// Fields gathered so far while decoding a metadata record; `None` marks a
/// field not seen yet.
pub struct MetaAcc {
    pub beauty_name: Option<Seq<char>>,
    pub force_order: Option<Option<usize>>,
    pub bevy_version: Option<Seq<char>>,
    pub extra_crates: Option<Seq<(Seq<char>, Seq<char>)>>,
}

pub open spec fn empty_acc() -> MetaAcc {
    MetaAcc { beauty_name: None, force_order: None, bevy_version: None, extra_crates: None }
}

/// One field's value, dispatched on the field name. A known field seen twice
/// is a decode failure; an unknown field's value is skipped.
pub open spec fn p_field_value(s: Seq<char>, i: int, acc: MetaAcc, name: Seq<char>) -> Option<
    (MetaAcc, int),
> {
    if name == kw_beauty_name() {
        if acc.beauty_name is Some {
            None
        } else {
            match p_string(s, i) {
                None => None,
                Some((v, j)) => Some((MetaAcc { beauty_name: Some(v), ..acc }, j)),
            }
        }
    } else if name == kw_bevy_version() {
        if acc.bevy_version is Some {
            None
        } else {
            match p_string(s, i) {
                None => None,
                Some((v, j)) => Some((MetaAcc { bevy_version: Some(v), ..acc }, j)),
            }
        }
    } else if name == kw_force_order() {
        if acc.force_order is Some {
            None
        } else {
            match p_force_order(s, i) {
                None => None,
                Some((v, j)) => Some((MetaAcc { force_order: Some(v), ..acc }, j)),
            }
        }
    } else if name == kw_extra_crates() {
        if acc.extra_crates is Some {
            None
        } else {
            match p_map(s, i) {
                None => None,
                Some((v, j)) => Some((MetaAcc { extra_crates: Some(v), ..acc }, j)),
            }
        }
    } else {
        match p_skip_value(s, i) {
            None => None,
            Some(j) => Some((acc, j)),
        }
    }
}

pub proof fn lemma_p_field_value(s: Seq<char>, i: int, acc: MetaAcc, name: Seq<char>)
    requires
        0 <= i <= s.len(),
    ensures
        p_field_value(s, i, acc, name) matches Some(p) ==> i <= p.1 <= s.len(),
{
    lemma_p_string(s, i);
    lemma_p_force_order(s, i);
    lemma_p_map(s, i);
    lemma_p_skip_value(s, i);
}

/// The fields of the record after its opening parenthesis, up to and
/// including the closing one.
pub open spec fn p_fields(s: Seq<char>, i: int, acc: MetaAcc) -> Option<(MetaAcc, int)>
    decreases s.len() - i,
    when 0 <= i <= s.len()
    via p_fields_dec
{
    let j = skip_ws(s, i);
    if j >= s.len() {
        None
    } else if s[j] == ')' {
        Some((acc, j + 1))
    } else {
        let e = ident_end(s, j);
        if e == j {
            None
        } else {
            let name = s.subrange(j, e);
            let j2 = skip_ws(s, e);
            if j2 < s.len() && s[j2] == ':' {
                let j3 = skip_ws(s, j2 + 1);
                match p_field_value(s, j3, acc, name) {
                    None => None,
                    Some((acc2, j4)) => {
                        let j5 = skip_ws(s, j4);
                        if j5 < s.len() && s[j5] == ',' {
                            p_fields(s, j5 + 1, acc2)
                        } else if j5 < s.len() && s[j5] == ')' {
                            Some((acc2, j5 + 1))
                        } else {
                            None
                        }
                    },
                }
            } else {
                None
            }
        }
    }
}

#[via_fn]
proof fn p_fields_dec(s: Seq<char>, i: int, acc: MetaAcc) {
    lemma_skip_ws(s, i);
    let j = skip_ws(s, i);
    lemma_ident_end(s, j);
    let e = ident_end(s, j);
    if j < e {
        lemma_skip_ws(s, e);
        let j2 = skip_ws(s, e);
        if j2 < s.len() && s[j2] == ':' {
            lemma_skip_ws(s, j2 + 1);
            let j3 = skip_ws(s, j2 + 1);
            lemma_p_field_value(s, j3, acc, s.subrange(j, e));
            match p_field_value(s, j3, acc, s.subrange(j, e)) {
                Some((acc2, j4)) => lemma_skip_ws(s, j4),
                None => (),
            }
        }
    }
}

/// The decoded metadata record.
pub struct MetaData {
    pub beauty_name: Seq<char>,
    pub force_order: Option<usize>,
    pub bevy_version: Seq<char>,
    pub extra_crates: Seq<(Seq<char>, Seq<char>)>,
}

/// Decodes one whole metadata block (already trimmed): an optional record
/// name, the parenthesized fields, and nothing after. `beauty_name` and
/// `bevy_version` are required; a missing `force_order` is `None`; a missing
/// `extra_crates` is the empty mapping.
pub open spec fn p_meta(s: Seq<char>) -> Option<MetaData> {
    let i0 = skip_ws(s, 0);
    let e0 = ident_end(s, i0);
    let i1 = skip_ws(s, e0);
    if 0 <= i1 < s.len() && s[i1] == '(' {
        match p_fields(s, i1 + 1, empty_acc()) {
            None => None,
            Some((acc, j)) => if skip_ws(s, j) == s.len() {
                match (acc.beauty_name, acc.bevy_version) {
                    (Some(bn), Some(bv)) => Some(
                        MetaData {
                            beauty_name: bn,
                            force_order: match acc.force_order {
                                Some(fo) => fo,
                                None => None,
                            },
                            bevy_version: bv,
                            extra_crates: match acc.extra_crates {
                                Some(ec) => ec,
                                None => Seq::empty(),
                            },
                        },
                    ),
                    _ => None,
                }
            } else {
                None
            },
        }
    } else {
        None
    }
}

/// One whole document: the text above the first marker line, trimmed, is the
/// metadata record; the text below it, trimmed, is the code body. A document
/// without a marker has an empty code body. Metadata decode failure is the
/// only parse failure.
pub open spec fn spec_parse_template(raw: Seq<char>, origin: Origin) -> Option<TemplateData> {
    let parts = split_doc(raw);
    match p_meta(trim(parts.0)) {
        None => None,
        Some(m) => Some(
            TemplateData {
                beauty_name: m.beauty_name,
                force_order: m.force_order,
                bevy_version: m.bevy_version,
                extra_crates: m.extra_crates,
                main_code: trim(parts.1),
                origin,
            },
        ),
    }
}

pub(crate) fn ex_skip_ws(v: &Vec<char>, i: usize) -> (r: usize)
    requires
        i <= v@.len(),
    ensures
        r as int == skip_ws(v@, i as int),
        i <= r <= v@.len(),
    decreases v@.len() - i,
{
    if i < v.len() && crate::text::ws_char(v[i]) {
        ex_skip_ws(v, i + 1)
    } else {
        i
    }
}

fn digit_char(c: char) -> (r: bool)
    ensures
        r == is_digit(c),
{
    '0' <= c && c <= '9'
}

fn ident_char(c: char) -> (r: bool)
    ensures
        r == is_ident_char(c),
{
    ('a' <= c && c <= 'z') || ('A' <= c && c <= 'Z') || ('0' <= c && c <= '9') || c == '_'
}

pub(crate) fn ex_ident_end(v: &Vec<char>, i: usize) -> (r: usize)
    requires
        i <= v@.len(),
    ensures
        r as int == ident_end(v@, i as int),
        i <= r <= v@.len(),
    decreases v@.len() - i,
{
    if i < v.len() && ident_char(v[i]) {
        ex_ident_end(v, i + 1)
    } else {
        i
    }
}

fn ex_digits_end(v: &Vec<char>, i: usize) -> (r: usize)
    requires
        i <= v@.len(),
    ensures
        r as int == digits_end(v@, i as int),
        i <= r <= v@.len(),
    decreases v@.len() - i,
{
    if i < v.len() && digit_char(v[i]) {
        ex_digits_end(v, i + 1)
    } else {
        i
    }
}

/// The characters `v[i..e]` are exactly the literal's.
pub(crate) fn range_is_lit(v: &Vec<char>, i: usize, e: usize, lit: &str) -> (r: bool)
    requires
        i <= e <= v@.len(),
    ensures
        r == (v@.subrange(i as int, e as int) == lit@),
{
    let n = lit.unicode_len();
    if e - i != n {
        proof {
            assert(v@.subrange(i as int, e as int).len() != lit@.len());
        }
        return false;
    }
    let mut t: usize = 0;
    while t < n
        invariant
            i <= e <= v@.len(),
            n == lit@.len(),
            e - i == n,
            t <= n,
            forall|j: int| 0 <= j < t ==> v@[i + j] == lit@[j],
        decreases n - t,
    {
        if lit.get_char(t) != v[i + t] {
            proof {
                assert(v@.subrange(i as int, e as int)[t as int] != lit@[t as int]);
            }
            return false;
        }
        t = t + 1;
    }
    proof {
        assert(v@.subrange(i as int, e as int) =~= lit@);
    }
    true
}

fn ex_str_body(v: &Vec<char>, i: usize, acc: Vec<char>) -> (r: Option<(Vec<char>, usize)>)
    requires
        i <= v@.len(),
    ensures
        ({
            let sp = p_str_body(v@, i as int, acc@);
            match r {
                None => sp is None,
                Some(p) => sp == Some((p.0@, p.1 as int)),
            }
        }),
    decreases v@.len() - i,
{
    if i >= v.len() {
        return None;
    }
    let c = v[i];
    if c == '"' {
        Some((acc, i + 1))
    } else if c == '\\' {
        if i + 1 < v.len() {
            let d = v[i + 1];
            let mut acc = acc;
            if d == '\\' {
                acc.push('\\');
                ex_str_body(v, i + 2, acc)
            } else if d == '"' {
                acc.push('"');
                ex_str_body(v, i + 2, acc)
            } else if d == 'n' {
                acc.push('\n');
                ex_str_body(v, i + 2, acc)
            } else if d == 't' {
                acc.push('\t');
                ex_str_body(v, i + 2, acc)
            } else if d == 'r' {
                acc.push('\r');
                ex_str_body(v, i + 2, acc)
            } else if d == '0' {
                acc.push('\0');
                ex_str_body(v, i + 2, acc)
            } else {
                None
            }
        } else {
            None
        }
    } else {
        let mut acc = acc;
        acc.push(c);
        ex_str_body(v, i + 1, acc)
    }
}

pub(crate) fn ex_string(v: &Vec<char>, i: usize) -> (r: Option<(Vec<char>, usize)>)
    requires
        i <= v@.len(),
    ensures
        ({
            let sp = p_string(v@, i as int);
            match r {
                None => sp is None,
                Some(p) => sp == Some((p.0@, p.1 as int)) && i < p.1 <= v@.len(),
            }
        }),
{
    proof {
        lemma_p_string(v@, i as int);
    }
    if i < v.len() && v[i] == '"' {
        ex_str_body(v, i + 1, Vec::new())
    } else {
        None
    }
}

proof fn lemma_dec_val_step(s: Seq<char>, i: int, k: int)
    requires
        0 <= i <= k < s.len(),
        is_digit(s[k]),
    ensures
        dec_val(s.subrange(i, k + 1)) == dec_val(s.subrange(i, k)) * 10 + (s[k] as int - 48),
{
    assert(s.subrange(i, k + 1).drop_last() =~= s.subrange(i, k));
    assert(s.subrange(i, k + 1).last() == s[k]);
    assert('0' as int == 48 && '9' as int == 57);
    assert(s[k] as int - 48 >= 0);
}

proof fn lemma_dec_val_mono(s: Seq<char>, i: int, k: int, e: int)
    requires
        0 <= i <= k <= e <= s.len(),
    ensures
        dec_val(s.subrange(i, k)) <= dec_val(s.subrange(i, e)),
    decreases e - k,
{
    if k < e {
        lemma_dec_val_mono(s, i, k, e - 1);
        assert(s.subrange(i, e).drop_last() =~= s.subrange(i, e - 1));
        assert(dec_val(s.subrange(i, e)) >= dec_val(s.subrange(i, e - 1)));
    }
}

fn ex_uint(v: &Vec<char>, i: usize) -> (r: Option<(usize, usize)>)
    requires
        i <= v@.len(),
    ensures
        ({
            let sp = p_uint(v@, i as int);
            match r {
                None => sp is None,
                Some(p) => sp == Some((p.0, p.1 as int)) && i < p.1 <= v@.len(),
            }
        }),
{
    let e = ex_digits_end(v, i);
    if e == i {
        return None;
    }
    proof {
        lemma_digits_end(v@, i as int);
    }
    let mut val: usize = 0;
    let mut k = i;
    proof {
        assert(v@.subrange(i as int, i as int) =~= Seq::<char>::empty());
    }
    while k < e
        invariant
            i <= k <= e <= v@.len(),
            e as int == digits_end(v@, i as int),
            forall|j: int| i <= j < e ==> is_digit(v@[j]),
            val == dec_val(v@.subrange(i as int, k as int)),
        decreases e - k,
    {
        let c = v[k];
        assert(is_digit(c));
        let d = (c as u32 - 48) as usize;
        proof {
            lemma_dec_val_step(v@, i as int, k as int);
        }
        let step = match val.checked_mul(10) {
            Some(x) => x.checked_add(d),
            None => None,
        };
        match step {
            Some(x) => {
                val = x;
            },
            None => {
                proof {
                    assert(dec_val(v@.subrange(i as int, k + 1)) > usize::MAX);
                    lemma_dec_val_mono(v@, i as int, k + 1, e as int);
                }
                return None;
            },
        }
        k = k + 1;
    }
    Some((val, e))
}

fn ex_force_order(v: &Vec<char>, i: usize) -> (r: Option<(Option<usize>, usize)>)
    requires
        i <= v@.len(),
    ensures
        ({
            let sp = p_force_order(v@, i as int);
            match r {
                None => sp is None,
                Some(p) => sp == Some((p.0, p.1 as int)) && i <= p.1 <= v@.len(),
            }
        }),
{
    proof {
        lemma_p_force_order(v@, i as int);
        reveal_strlit("None");
        reveal_strlit("Some");
        assert("None"@ =~= kw_none());
        assert("Some"@ =~= kw_some());
    }
    let e = ex_ident_end(v, i);
    if range_is_lit(v, i, e, "None") {
        Some((None, e))
    } else if range_is_lit(v, i, e, "Some") {
        let j = ex_skip_ws(v, e);
        if j < v.len() && v[j] == '(' {
            let j2 = ex_skip_ws(v, j + 1);
            match ex_uint(v, j2) {
                None => None,
                Some((n, j3)) => {
                    let j4 = ex_skip_ws(v, j3);
                    if j4 < v.len() && v[j4] == ')' {
                        Some((Some(n), j4 + 1))
                    } else {
                        None
                    }
                },
            }
        } else {
            None
        }
    } else {
        None
    }
}

/// The views of an association list of character vectors.
pub open spec fn pairs_views(s: Seq<(Vec<char>, Vec<char>)>) -> Seq<(Seq<char>, Seq<char>)> {
    s.map(|i: int, p: (Vec<char>, Vec<char>)| (p.0@, p.1@))
}

fn eq_chars(a: &Vec<char>, b: &Vec<char>) -> (r: bool)
    ensures
        r == (a@ == b@),
{
    if a.len() != b.len() {
        return false;
    }
    let mut t: usize = 0;
    while t < a.len()
        invariant
            a@.len() == b@.len(),
            t <= a@.len(),
            forall|j: int| 0 <= j < t ==> a@[j] == b@[j],
        decreases a@.len() - t,
    {
        if a[t] != b[t] {
            return false;
        }
        t = t + 1;
    }
    proof {
        assert(a@ =~= b@);
    }
    true
}

pub proof fn lemma_upsert_at(m: Seq<(Seq<char>, Seq<char>)>, k: Seq<char>, v: Seq<char>, idx: int)
    requires
        0 <= idx <= m.len(),
        forall|j: int| 0 <= j < idx ==> m[j].0 != k,
        idx < m.len() ==> m[idx].0 == k,
    ensures
        idx < m.len() ==> upsert(m, k, v) =~= m.update(idx, (k, v)),
        idx == m.len() ==> upsert(m, k, v) =~= m.push((k, v)),
    decreases idx,
{
    if m.len() == 0 {
    } else if idx == 0 {
    } else {
        let d = m.drop_first();
        assert(forall|j: int| 0 <= j < idx - 1 ==> d[j] == m[j + 1] && d[j].0 != k);
        lemma_upsert_at(d, k, v, idx - 1);
        if idx < m.len() {
            assert(seq![m[0]] + d.update(idx - 1, (k, v)) =~= m.update(idx, (k, v)));
        } else {
            assert(seq![m[0]] + d.push((k, v)) =~= m.push((k, v)));
        }
    }
}

fn ex_upsert(m: Vec<(Vec<char>, Vec<char>)>, k: Vec<char>, val: Vec<char>) -> (r: Vec<
    (Vec<char>, Vec<char>),
>)
    ensures
        pairs_views(r@) == upsert(pairs_views(m@), k@, val@),
{
    let mut m = m;
    let mut idx: usize = 0;
    while idx < m.len() && !eq_chars(&m[idx].0, &k)
        invariant
            idx <= m@.len(),
            forall|j: int| 0 <= j < idx ==> m@[j].0@ != k@,
        decreases m@.len() - idx,
    {
        idx = idx + 1;
    }
    proof {
        assert(forall|j: int| 0 <= j < idx ==> pairs_views(m@)[j].0 != k@);
        if idx < m@.len() {
            assert(pairs_views(m@)[idx as int].0 == k@);
        }
        lemma_upsert_at(pairs_views(m@), k@, val@, idx as int);
    }
    let ghost m0 = pairs_views(m@);
    if idx < m.len() {
        m.remove(idx);
        m.insert(idx, (k, val));
        proof {
            assert(pairs_views(m@) =~= m0.update(idx as int, (k@, val@)));
        }
    } else {
        m.push((k, val));
        proof {
            assert(pairs_views(m@) =~= m0.push((k@, val@)));
        }
    }
    m
}

fn ex_map_items(v: &Vec<char>, i: usize, acc: Vec<(Vec<char>, Vec<char>)>) -> (r: Option<
    (Vec<(Vec<char>, Vec<char>)>, usize),
>)
    requires
        i <= v@.len(),
    ensures
        ({
            let sp = p_map_items(v@, i as int, pairs_views(acc@));
            match r {
                None => sp is None,
                Some(p) => sp == Some((pairs_views(p.0@), p.1 as int)),
            }
        }),
    decreases v@.len() - i,
{
    let j = ex_skip_ws(v, i);
    if j >= v.len() {
        return None;
    }
    if v[j] == '}' {
        return Some((acc, j + 1));
    }
    match ex_string(v, j) {
        None => None,
        Some((k, j2)) => {
            let j3 = ex_skip_ws(v, j2);
            if j3 < v.len() && v[j3] == ':' {
                let j4 = ex_skip_ws(v, j3 + 1);
                match ex_string(v, j4) {
                    None => None,
                    Some((val, j5)) => {
                        let j6 = ex_skip_ws(v, j5);
                        if j6 < v.len() && v[j6] == ',' {
                            let acc2 = ex_upsert(acc, k, val);
                            ex_map_items(v, j6 + 1, acc2)
                        } else if j6 < v.len() && v[j6] == '}' {
                            let acc2 = ex_upsert(acc, k, val);
                            Some((acc2, j6 + 1))
                        } else {
                            None
                        }
                    },
                }
            } else {
                None
            }
        },
    }
}

fn ex_map(v: &Vec<char>, i: usize) -> (r: Option<(Vec<(Vec<char>, Vec<char>)>, usize)>)
    requires
        i <= v@.len(),
    ensures
        ({
            let sp = p_map(v@, i as int);
            match r {
                None => sp is None,
                Some(p) => sp == Some((pairs_views(p.0@), p.1 as int)) && i < p.1 <= v@.len(),
            }
        }),
{
    proof {
        lemma_p_map(v@, i as int);
    }
    if i < v.len() && v[i] == '{' {
        proof {
            assert(pairs_views(Seq::<(Vec<char>, Vec<char>)>::empty()) =~= Seq::<
                (Seq<char>, Seq<char>),
            >::empty());
        }
        ex_map_items(v, i + 1, Vec::new())
    } else {
        None
    }
}

fn ex_skip_bal(v: &Vec<char>, i: usize, depth: usize) -> (r: Option<usize>)
    requires
        i <= v@.len(),
        1 <= depth <= i,
    ensures
        ({
            let sp = p_skip_bal(v@, i as int, depth as int);
            match r {
                None => sp is None,
                Some(j) => sp == Some(j as int) && j <= v@.len(),
            }
        }),
    decreases v@.len() - i,
{
    if i >= v.len() {
        return None;
    }
    let c = v[i];
    if c == '"' {
        match ex_string(v, i) {
            None => None,
            Some((_s, j)) => ex_skip_bal(v, j, depth),
        }
    } else if c == '(' || c == '[' || c == '{' {
        ex_skip_bal(v, i + 1, depth + 1)
    } else if c == ')' || c == ']' || c == '}' {
        if depth == 1 {
            Some(i + 1)
        } else {
            ex_skip_bal(v, i + 1, depth - 1)
        }
    } else {
        ex_skip_bal(v, i + 1, depth)
    }
}

fn ex_skip_value(v: &Vec<char>, i: usize) -> (r: Option<usize>)
    requires
        i <= v@.len(),
    ensures
        ({
            let sp = p_skip_value(v@, i as int);
            match r {
                None => sp is None,
                Some(j) => sp == Some(j as int) && i < j <= v@.len(),
            }
        }),
{
    proof {
        lemma_p_skip_value(v@, i as int);
    }
    if i >= v.len() {
        return None;
    }
    let c = v[i];
    if c == '"' {
        match ex_string(v, i) {
            None => None,
            Some((_s, j)) => Some(j),
        }
    } else if digit_char(c) {
        Some(ex_digits_end(v, i))
    } else if ident_char(c) {
        let e = ex_ident_end(v, i);
        let j = ex_skip_ws(v, e);
        if j < v.len() && v[j] == '(' {
            ex_skip_bal(v, j + 1, 1)
        } else {
            Some(e)
        }
    } else if c == '(' || c == '[' || c == '{' {
        ex_skip_bal(v, i + 1, 1)
    } else {
        None
    }
}

/// Fields gathered so far, as executable values.
struct AccEx {
    beauty_name: Option<Vec<char>>,
    force_order: Option<Option<usize>>,
    bevy_version: Option<Vec<char>>,
    extra_crates: Option<Vec<(Vec<char>, Vec<char>)>>,
}

impl AccEx {
    spec fn model(&self) -> MetaAcc {
        MetaAcc {
            beauty_name: match self.beauty_name {
                Some(ref x) => Some(x@),
                None => None,
            },
            force_order: self.force_order,
            bevy_version: match self.bevy_version {
                Some(ref x) => Some(x@),
                None => None,
            },
            extra_crates: match self.extra_crates {
                Some(ref x) => Some(pairs_views(x@)),
                None => None,
            },
        }
    }
}

fn ex_field_value(v: &Vec<char>, i: usize, acc: AccEx, name: &Vec<char>) -> (r: Option<
    (AccEx, usize),
>)
    requires
        i <= v@.len(),
    ensures
        ({
            let sp = p_field_value(v@, i as int, acc.model(), name@);
            match r {
                None => sp is None,
                Some(p) => sp == Some((p.0.model(), p.1 as int)) && i <= p.1 <= v@.len(),
            }
        }),
{
    proof {
        lemma_p_field_value(v@, i as int, acc.model(), name@);
        reveal_strlit("beauty_name");
        reveal_strlit("bevy_version");
        reveal_strlit("force_order");
        reveal_strlit("extra_crates");
        assert("beauty_name"@ =~= kw_beauty_name());
        assert("bevy_version"@ =~= kw_bevy_version());
        assert("force_order"@ =~= kw_force_order());
        assert("extra_crates"@ =~= kw_extra_crates());
    }
    let n = name.len();
    if range_is_lit(name, 0, n, "beauty_name") {
        proof {
            assert(name@.subrange(0, name@.len() as int) =~= name@);
        }
        if acc.beauty_name.is_some() {
            return None;
        }
        match ex_string(v, i) {
            None => None,
            Some((s, j)) => Some((AccEx { beauty_name: Some(s), ..acc }, j)),
        }
    } else if range_is_lit(name, 0, n, "bevy_version") {
        proof {
            assert(name@.subrange(0, name@.len() as int) =~= name@);
        }
        if acc.bevy_version.is_some() {
            return None;
        }
        match ex_string(v, i) {
            None => None,
            Some((s, j)) => Some((AccEx { bevy_version: Some(s), ..acc }, j)),
        }
    } else if range_is_lit(name, 0, n, "force_order") {
        proof {
            assert(name@.subrange(0, name@.len() as int) =~= name@);
        }
        if acc.force_order.is_some() {
            return None;
        }
        match ex_force_order(v, i) {
            None => None,
            Some((fo, j)) => Some((AccEx { force_order: Some(fo), ..acc }, j)),
        }
    } else if range_is_lit(name, 0, n, "extra_crates") {
        proof {
            assert(name@.subrange(0, name@.len() as int) =~= name@);
        }
        if acc.extra_crates.is_some() {
            return None;
        }
        match ex_map(v, i) {
            None => None,
            Some((m, j)) => Some((AccEx { extra_crates: Some(m), ..acc }, j)),
        }
    } else {
        proof {
            assert(name@.subrange(0, name@.len() as int) =~= name@);
        }
        match ex_skip_value(v, i) {
            None => None,
            Some(j) => Some((acc, j)),
        }
    }
}

fn ex_fields(v: &Vec<char>, i: usize, acc: AccEx) -> (r: Option<(AccEx, usize)>)
    requires
        i <= v@.len(),
    ensures
        ({
            let sp = p_fields(v@, i as int, acc.model());
            match r {
                None => sp is None,
                Some(p) => sp == Some((p.0.model(), p.1 as int)) && p.1 <= v@.len(),
            }
        }),
    decreases v@.len() - i,
{
    let j = ex_skip_ws(v, i);
    if j >= v.len() {
        return None;
    }
    if v[j] == ')' {
        return Some((acc, j + 1));
    }
    let e = ex_ident_end(v, j);
    if e == j {
        return None;
    }
    let name = crate::text::copy_range(v, j, e);
    let j2 = ex_skip_ws(v, e);
    if j2 < v.len() && v[j2] == ':' {
        let j3 = ex_skip_ws(v, j2 + 1);
        match ex_field_value(v, j3, acc, &name) {
            None => None,
            Some((acc2, j4)) => {
                let j5 = ex_skip_ws(v, j4);
                if j5 < v.len() && v[j5] == ',' {
                    ex_fields(v, j5 + 1, acc2)
                } else if j5 < v.len() && v[j5] == ')' {
                    Some((acc2, j5 + 1))
                } else {
                    None
                }
            },
        }
    } else {
        None
    }
}

/// The decoded metadata record, as executable values.
pub struct MetaOut {
    pub beauty_name: Vec<char>,
    pub force_order: Option<usize>,
    pub bevy_version: Vec<char>,
    pub extra_crates: Vec<(Vec<char>, Vec<char>)>,
}

impl MetaOut {
    pub open spec fn model(&self) -> MetaData {
        MetaData {
            beauty_name: self.beauty_name@,
            force_order: self.force_order,
            bevy_version: self.bevy_version@,
            extra_crates: pairs_views(self.extra_crates@),
        }
    }
}

/// Decodes one whole (already trimmed) metadata block.
pub fn parse_meta(v: &Vec<char>) -> (r: Option<MetaOut>)
    ensures
        ({
            let sp = p_meta(v@);
            match r {
                None => sp is None,
                Some(m) => sp == Some(m.model()),
            }
        }),
{
    let i0 = ex_skip_ws(v, 0);
    let e0 = ex_ident_end(v, i0);
    let i1 = ex_skip_ws(v, e0);
    if i1 < v.len() && v[i1] == '(' {
        let acc0 = AccEx { beauty_name: None, force_order: None, bevy_version: None, extra_crates: None };
        proof {
            assert(acc0.model() == empty_acc());
        }
        match ex_fields(v, i1 + 1, acc0) {
            None => None,
            Some((acc, j)) => {
                let j2 = ex_skip_ws(v, j);
                if j2 == v.len() {
                    let AccEx { beauty_name, force_order, bevy_version, extra_crates } = acc;
                    match (beauty_name, bevy_version) {
                        (Some(bn), Some(bv)) => {
                            let fo = match force_order {
                                Some(fo) => fo,
                                None => None,
                            };
                            let ec = match extra_crates {
                                Some(ec) => ec,
                                None => Vec::new(),
                            };
                            let m = MetaOut {
                                beauty_name: bn,
                                force_order: fo,
                                bevy_version: bv,
                                extra_crates: ec,
                            };
                            proof {
                                assert(pairs_views(Seq::<(Vec<char>, Vec<char>)>::empty()) =~= Seq::<
                                    (Seq<char>, Seq<char>),
                                >::empty());
                            }
                            Some(m)
                        },
                        _ => None,
                    }
                } else {
                    None
                }
            },
        }
    } else {
        None
    }
}

/// Marker detection: a document without a `--!code` line is all metadata;
/// it parses exactly when that metadata decodes, and then its code body is
/// empty. Parsing never fails merely because the marker is absent.
pub proof fn lemma_no_marker(raw: Seq<char>, origin: Origin)
    requires
        forall|i: int|
            0 <= i < crate::text::spec_lines(raw).len() ==> !crate::text::has_marker(
                #[trigger] crate::text::spec_lines(raw)[i],
            ),
    ensures
        (spec_parse_template(raw, origin) is Some) == (p_meta(
            trim(crate::text::join_nl(crate::text::spec_lines(raw))),
        ) is Some),
        spec_parse_template(raw, origin) matches Some(td) ==> td.main_code
            == Seq::<char>::empty(),
{
    let ls = crate::text::spec_lines(raw);
    crate::text::lemma_first_marker_at(ls, ls.len() as int);
    let parts = split_doc(raw);
    assert(parts.1 == Seq::<char>::empty());
    assert(trim(Seq::<char>::empty()) == Seq::<char>::empty());
}

/// Parses one raw document into a template tagged with its origin. The text
/// above the first `--!code` line, trimmed, must decode as a metadata
/// record; the text below it, trimmed, becomes the code body. The only
/// failure is a malformed metadata section.
pub fn parse_template(raw: String, origin: Origin) -> (r: Result<
    crate::template::Template,
    crate::registry::LoadError,
>)
    ensures
        ({
            let sp = spec_parse_template(raw@, origin);
            match r {
                Ok(t) => sp == Some(t@),
                Err(e) => sp is None && e == crate::registry::LoadError::MalformedTemplate,
            }
        }),
{
    let chars = crate::text::str_chars(raw.as_str());
    let parts = crate::text::split_document(&chars);
    let above_t = crate::text::trim_chars(&parts.0);
    let below_t = crate::text::trim_chars(&parts.1);
    match parse_meta(&above_t) {
        None => Err(crate::registry::LoadError::MalformedTemplate),
        Some(m) => {
            let name = crate::text::chars_string(&m.beauty_name);
            let ver = crate::text::chars_string(&m.bevy_version);
            let code = crate::text::chars_string(&below_t);
            let mut crates: Vec<(String, String)> = Vec::new();
            let mut idx: usize = 0;
            proof {
                assert(crate::template::crates_view(crates@) =~= pairs_views(
                    m.extra_crates@,
                ).subrange(0, 0));
            }
            while idx < m.extra_crates.len()
                invariant
                    idx <= m.extra_crates@.len(),
                    crate::template::crates_view(crates@) == pairs_views(
                        m.extra_crates@,
                    ).subrange(0, idx as int),
                decreases m.extra_crates@.len() - idx,
            {
                let k = crate::text::chars_string(&m.extra_crates[idx].0);
                let val = crate::text::chars_string(&m.extra_crates[idx].1);
                let ghost k0 = k@;
                let ghost v0 = val@;
                let ghost cv0 = crate::template::crates_view(crates@);
                let ghost pv = pairs_views(m.extra_crates@);
                crates.push((k, val));
                proof {
                    assert(pv[idx as int] == (m.extra_crates@[idx as int].0@, m.extra_crates@[idx as int].1@));
                    assert(pv[idx as int] == (k0, v0));
                    assert(crate::template::crates_view(crates@) =~= cv0.push((k0, v0)));
                    assert(pv.subrange(0, idx + 1) =~= pv.subrange(0, idx as int).push(pv[idx as int]));
                    assert(crate::template::crates_view(crates@) =~= pv.subrange(0, idx + 1));
                }
                idx = idx + 1;
            }
            proof {
                assert(pairs_views(m.extra_crates@).subrange(
                    0,
                    m.extra_crates@.len() as int,
                ) =~= pairs_views(m.extra_crates@));
            }
            let t = crate::template::Template {
                beauty_name: name,
                force_order: m.force_order,
                bevy_version: ver,
                extra_crates: crates,
                main_code: code,
                origin,
            };
            Ok(t)
        },
    }
}

} // verus!
