//! The template document serializer: writes a template's metadata fields as
//! one record line, the `--!code` marker line, and the code body verbatim.
//! String values are escaped so that the metadata stays on one line and
//! parsing it recovers the original characters.

use vstd::prelude::*;
use crate::template::{Template, TemplateData};
use crate::parser::{kw_beauty_name, kw_force_order, kw_bevy_version, kw_extra_crates, kw_none,
    kw_some};
use crate::text::marker;

verus! {

/// The escape of one character inside a double-quoted string.
pub open spec fn esc_char(c: char) -> Seq<char> {
    if c == '\\' {
        seq!['\\', '\\']
    } else if c == '"' {
        seq!['\\', '"']
    } else if c == '\n' {
        seq!['\\', 'n']
    } else if c == '\t' {
        seq!['\\', 't']
    } else if c == '\r' {
        seq!['\\', 'r']
    } else {
        seq![c]
    }
}

/// The escaped form of a string's characters.
pub open spec fn escape(s: Seq<char>) -> Seq<char>
    decreases s.len(),
{
    if s.len() == 0 {
        Seq::empty()
    } else {
        esc_char(s[0]) + escape(s.drop_first())
    }
}

pub proof fn lemma_escape_snoc(s: Seq<char>, c: char)
    ensures
        escape(s.push(c)) == escape(s) + esc_char(c),
    decreases s.len(),
{
    if s.len() == 0 {
        assert(s.push(c)[0] == c);
        assert(s.push(c).drop_first() =~= Seq::<char>::empty());
        assert(esc_char(c) + escape(Seq::<char>::empty()) =~= escape(s) + esc_char(c));
    } else {
        assert(s.push(c).drop_first() =~= s.drop_first().push(c));
        lemma_escape_snoc(s.drop_first(), c);
        assert(esc_char(s[0]) + (escape(s.drop_first()) + esc_char(c)) =~= (esc_char(s[0])
            + escape(s.drop_first())) + esc_char(c));
    }
}

/// The decimal digit character of a value below ten.
pub open spec fn digit_of(d: int) -> char {
    if d == 0 {
        '0'
    } else if d == 1 {
        '1'
    } else if d == 2 {
        '2'
    } else if d == 3 {
        '3'
    } else if d == 4 {
        '4'
    } else if d == 5 {
        '5'
    } else if d == 6 {
        '6'
    } else if d == 7 {
        '7'
    } else if d == 8 {
        '8'
    } else {
        '9'
    }
}

/// The decimal digits of a number, most significant first.
pub open spec fn dec_str(n: int) -> Seq<char>
    decreases n,
{
    if n < 10 {
        seq![digit_of(n)]
    } else {
        dec_str(n / 10).push(digit_of(n % 10))
    }
}

/// One rendered `"key": "value"` list, entries separated by commas.
pub open spec fn render_pairs(ps: Seq<(Seq<char>, Seq<char>)>) -> Seq<char>
    decreases ps.len(),
{
    if ps.len() == 0 {
        Seq::empty()
    } else {
        let head = seq!['"'] + escape(ps[0].0) + seq!['"', ':', '"'] + escape(ps[0].1)
            + seq!['"'];
        if ps.len() == 1 {
            head
        } else {
            head + seq![','] + render_pairs(ps.drop_first())
        }
    }
}

/// The rendered optional placement hint.
pub open spec fn render_force(fo: Option<usize>) -> Seq<char> {
    match fo {
        None => kw_none(),
        Some(k) => kw_some() + seq!['('] + dec_str(k as int) + seq![')'],
    }
}

/// The whole metadata record on one line.
pub open spec fn render_meta(t: TemplateData) -> Seq<char> {
    seq!['('] + kw_beauty_name() + seq![':', '"'] + escape(t.beauty_name) + seq!['"', ',']
        + kw_force_order() + seq![':'] + render_force(t.force_order) + seq![',']
        + kw_bevy_version() + seq![':', '"'] + escape(t.bevy_version) + seq!['"', ',']
        + kw_extra_crates() + seq![':', '{'] + render_pairs(t.extra_crates) + seq!['}', ')']
}

/// The whole rendered document: metadata line, marker line, code body.
pub open spec fn spec_render(t: TemplateData) -> Seq<char> {
    render_meta(t) + seq!['\n'] + marker() + seq!['\n'] + t.main_code
}

fn push_escaped(out: &mut Vec<char>, s: &Vec<char>)
    ensures
        final(out)@ == old(out)@ + escape(s@),
{
    let mut i: usize = 0;
    proof {
        assert(escape(s@.subrange(0, 0)) =~= Seq::<char>::empty());
        assert(old(out)@ + Seq::<char>::empty() =~= old(out)@);
    }
    while i < s.len()
        invariant
            i <= s@.len(),
            out@ == old(out)@ + escape(s@.subrange(0, i as int)),
        decreases s@.len() - i,
    {
        let ghost pre = s@.subrange(0, i as int);
        let c = s[i];
        if c == '\\' {
            out.push('\\');
            out.push('\\');
        } else if c == '"' {
            out.push('\\');
            out.push('"');
        } else if c == '\n' {
            out.push('\\');
            out.push('n');
        } else if c == '\t' {
            out.push('\\');
            out.push('t');
        } else if c == '\r' {
            out.push('\\');
            out.push('r');
        } else {
            out.push(c);
        }
        proof {
            lemma_escape_snoc(pre, c);
            assert(s@.subrange(0, i + 1) =~= pre.push(c));
            assert(out@ =~= old(out)@ + escape(s@.subrange(0, i + 1)));
        }
        i = i + 1;
    }
    proof {
        assert(s@.subrange(0, s@.len() as int) =~= s@);
    }
}

fn digit_char_of(d: usize) -> (r: char)
    requires
        d < 10,
    ensures
        r == digit_of(d as int),
{
    if d == 0 {
        '0'
    } else if d == 1 {
        '1'
    } else if d == 2 {
        '2'
    } else if d == 3 {
        '3'
    } else if d == 4 {
        '4'
    } else if d == 5 {
        '5'
    } else if d == 6 {
        '6'
    } else if d == 7 {
        '7'
    } else if d == 8 {
        '8'
    } else {
        '9'
    }
}

fn push_usize(out: &mut Vec<char>, n: usize)
    ensures
        final(out)@ == old(out)@ + dec_str(n as int),
    decreases n,
{
    if n < 10 {
        out.push(digit_char_of(n));
        proof {
            assert(old(out)@.push(digit_of(n as int)) =~= old(out)@ + dec_str(n as int));
        }
    } else {
        push_usize(out, n / 10);
        out.push(digit_char_of(n % 10));
        proof {
            assert((old(out)@ + dec_str(n as int / 10)).push(digit_of(n as int % 10)) =~= old(
                out,
            )@ + dec_str(n as int));
        }
    }
}

/// Relies on nothing outside: appends the literal's characters.
fn push_lit(out: &mut Vec<char>, lit: &str)
    ensures
        final(out)@ == old(out)@ + lit@,
{
    let n = lit.unicode_len();
    let mut i: usize = 0;
    proof {
        assert(old(out)@ + lit@.subrange(0, 0) =~= old(out)@);
    }
    while i < n
        invariant
            n == lit@.len(),
            i <= n,
            out@ == old(out)@ + lit@.subrange(0, i as int),
        decreases n - i,
    {
        let c = vstd::string::StrSliceExecFns::get_char(lit, i);
        out.push(c);
        proof {
            assert(out@ =~= old(out)@ + lit@.subrange(0, i + 1));
        }
        i = i + 1;
    }
    proof {
        assert(lit@.subrange(0, lit@.len() as int) =~= lit@);
    }
}

/// Serializes a template back into document text: its metadata record on one
/// line, the `--!code` marker line, and the code body verbatim. The origin
/// tag is not written; it is never part of a document.
pub fn render_template(t: &Template) -> (r: String)
    ensures
        r@ == spec_render(t@),
{
    let mut out: Vec<char> = Vec::new();
    proof {
        reveal_strlit("(beauty_name:\"");
        reveal_strlit("\",force_order:");
        reveal_strlit("None");
        reveal_strlit("Some(");
        reveal_strlit(")");
        reveal_strlit(",bevy_version:\"");
        reveal_strlit("\",extra_crates:{");
        reveal_strlit("})");
        reveal_strlit("\n--!code\n");
        reveal_strlit("\"");
        reveal_strlit("\":\"");
        reveal_strlit(",");
    }
    push_lit(&mut out, "(beauty_name:\"");
    let chars = crate::text::str_chars(t.beauty_name.as_str());
    push_escaped(&mut out, &chars);
    push_lit(&mut out, "\",force_order:");
    match t.force_order {
        None => push_lit(&mut out, "None"),
        Some(k) => {
            push_lit(&mut out, "Some(");
            push_usize(&mut out, k);
            push_lit(&mut out, ")");
        },
    }
    push_lit(&mut out, ",bevy_version:\"");
    let chars = crate::text::str_chars(t.bevy_version.as_str());
    push_escaped(&mut out, &chars);
    push_lit(&mut out, "\",extra_crates:{");
    let ghost pairs = crate::template::crates_view(t.extra_crates@);
    let ghost head = out@;
    let mut idx: usize = 0;
    while idx < t.extra_crates.len()
        invariant
            idx <= t.extra_crates@.len(),
            pairs == crate::template::crates_view(t.extra_crates@),
            pairs.len() == t.extra_crates@.len(),
            out@ == head + render_pairs_prefix(pairs, idx as int),
        decreases t.extra_crates@.len() - idx,
    {
        let ghost before = out@;
        if idx > 0 {
            push_lit(&mut out, ",");
        }
        push_lit(&mut out, "\"");
        let k = crate::text::str_chars(t.extra_crates[idx].0.as_str());
        push_escaped(&mut out, &k);
        push_lit(&mut out, "\":\"");
        let v = crate::text::str_chars(t.extra_crates[idx].1.as_str());
        push_escaped(&mut out, &v);
        push_lit(&mut out, "\"");
        proof {
            reveal_strlit("\"");
            reveal_strlit("\":\"");
            reveal_strlit(",");
            assert(pairs[idx as int] == (t.extra_crates@[idx as int].0@, t.extra_crates@[
                idx as int].1@));
            lemma_render_pairs_prefix_snoc(pairs, idx as int);
            assert(out@ =~= head + render_pairs_prefix(pairs, idx + 1));
        }
        idx = idx + 1;
    }
    proof {
        lemma_render_pairs_prefix_all(pairs);
    }
    push_lit(&mut out, "})");
    push_lit(&mut out, "\n--!code\n");
    let chars = crate::text::str_chars(t.main_code.as_str());
    crate::text::append_chars(&mut out, &chars);
    let r = crate::text::chars_string(&out);
    proof {
        assert("(beauty_name:\""@ =~= seq!['('] + kw_beauty_name() + seq![':', '"']);
        assert("\",force_order:"@ =~= seq!['"', ','] + kw_force_order() + seq![':']);
        assert("Some("@ =~= kw_some() + seq!['(']);
        assert(")"@ =~= seq![')']);
        assert(",bevy_version:\""@ =~= seq![','] + kw_bevy_version() + seq![':', '"']);
        assert("\",extra_crates:{"@ =~= seq!['"', ','] + kw_extra_crates() + seq![':', '{']);
        assert("})"@ =~= seq!['}', ')']);
        assert("\n--!code\n"@ =~= seq!['\n'] + crate::text::marker() + seq!['\n']);
        assert(r@ =~= spec_render(t@));
    }
    r
}

/// The rendered form of the first `k` pairs, with a separator after each
/// entry but the last of the whole list only when more follow.
pub open spec fn render_pairs_prefix(ps: Seq<(Seq<char>, Seq<char>)>, k: int) -> Seq<char>
    decreases k,
{
    if k <= 0 {
        Seq::empty()
    } else {
        let j = k - 1;
        let head = if j == 0 {
            Seq::<char>::empty()
        } else {
            seq![',']
        };
        render_pairs_prefix(ps, j) + head + seq!['"'] + escape(ps[j].0) + seq!['"', ':', '"']
            + escape(ps[j].1) + seq!['"']
    }
}

proof fn lemma_render_pairs_prefix_snoc(ps: Seq<(Seq<char>, Seq<char>)>, j: int)
    requires
        0 <= j < ps.len(),
    ensures
        render_pairs_prefix(ps, j + 1) == render_pairs_prefix(ps, j) + (if j == 0 {
            Seq::<char>::empty()
        } else {
            seq![',']
        }) + seq!['"'] + escape(ps[j].0) + seq!['"', ':', '"'] + escape(ps[j].1) + seq!['"'],
{
}

/// A fully rendered prefix is the rendered list.
proof fn lemma_render_pairs_prefix_all(ps: Seq<(Seq<char>, Seq<char>)>)
    ensures
        render_pairs_prefix(ps, ps.len() as int) == render_pairs(ps),
    decreases ps.len(),
{
    if ps.len() > 0 {
        let d = ps.drop_first();
        lemma_render_pairs_prefix_all(d);
        lemma_render_pairs_prefix_shift(ps, ps.len() as int);
        if ps.len() == 1 {
            assert(render_pairs(ps) =~= render_pairs_prefix(ps, 1));
        } else {
            assert(render_pairs(ps) =~= (seq!['"'] + escape(ps[0].0) + seq!['"', ':', '"']
                + escape(ps[0].1) + seq!['"']) + (seq![','] + render_pairs_prefix(d,
                d.len() as int)));
        }
    }
}

/// Rendering a prefix of the tail equals rendering the shifted prefix of the
/// whole, with the head entry and its separator in front.
proof fn lemma_render_pairs_prefix_shift(ps: Seq<(Seq<char>, Seq<char>)>, k: int)
    requires
        1 <= k <= ps.len(),
    ensures
        render_pairs_prefix(ps, k) == (seq!['"'] + escape(ps[0].0) + seq!['"', ':', '"'] + escape(
            ps[0].1,
        ) + seq!['"']) + (if k == 1 {
            Seq::<char>::empty()
        } else {
            seq![','] + render_pairs_prefix(ps.drop_first(), k - 1)
        }),
    decreases k,
{
    let d = ps.drop_first();
    let head0 = seq!['"'] + escape(ps[0].0) + seq!['"', ':', '"'] + escape(ps[0].1) + seq!['"'];
    assert(render_pairs_prefix(ps, 0) =~= Seq::<char>::empty());
    assert(render_pairs_prefix(d, 0) =~= Seq::<char>::empty());
    if k == 1 {
        assert(render_pairs_prefix(ps, 0) =~= Seq::<char>::empty());
        assert(render_pairs_prefix(ps, 1) =~= head0);
    } else if k == 2 {
        assert(render_pairs_prefix(ps, 1) =~= head0);
        assert(d[0] == ps[1]);
        assert(render_pairs_prefix(d, 1) =~= (seq!['"'] + escape(d[0].0) + seq!['"', ':', '"']
            + escape(d[0].1) + seq!['"']));
        assert(render_pairs_prefix(ps, 2) =~= head0 + (seq![','] + render_pairs_prefix(d, 1)));
    } else {
        lemma_render_pairs_prefix_shift(ps, k - 1);
        assert(d[k - 2] == ps[k - 1]);
        assert(render_pairs_prefix(d, k - 1) == render_pairs_prefix(d, k - 2) + seq![','] + seq!['"']
            + escape(d[k - 2].0) + seq!['"', ':', '"'] + escape(d[k - 2].1) + seq!['"']);
        assert(render_pairs_prefix(ps, k) =~= head0 + (seq![','] + render_pairs_prefix(d, k - 1)));
    }
}

} // verus!
