//! Round trip: parsing a rendered document recovers the template's fields.
//! The building blocks are proved bottom-up: unescaping undoes escaping,
//! decimal parsing undoes decimal printing, and the mapping and record
//! grammars consume exactly their rendered text.

use vstd::prelude::*;
use crate::parser::{p_str_body, p_string, p_uint, p_force_order, p_map_items, p_fields,
    p_field_value, p_meta, dec_val, skip_ws, ident_end, lemma_digits_end_at, lemma_ident_end_at,
    lemma_upsert_at, upsert, kw_beauty_name, kw_force_order, kw_bevy_version, kw_extra_crates,
    kw_none, kw_some, empty_acc, MetaAcc, MetaData};
use crate::render::{escape, esc_char, dec_str, digit_of, render_pairs, render_force, render_meta};
use crate::template::TemplateData;

verus! {

/// Unescaping undoes escaping: the string body parser applied to the escaped
/// characters followed by a closing quote yields the original characters and
/// stops right after the quote.
pub proof fn lemma_unescape_escape(s2: Seq<char>, i: int, s: Seq<char>, acc: Seq<char>)
    requires
        0 <= i,
        i + escape(s).len() + 1 <= s2.len(),
        s2.subrange(i, i + escape(s).len()) == escape(s),
        s2[i + escape(s).len()] == '"',
    ensures
        p_str_body(s2, i, acc) == Some((acc + s, i + escape(s).len() + 1)),
    decreases s.len(),
{
    if s.len() == 0 {
        assert(acc + s =~= acc);
    } else {
        let c = s[0];
        let d = s.drop_first();
        let e = esc_char(c);
        let el = escape(s).len() as int;
        let dl = escape(d).len() as int;
        assert(escape(s) == e + escape(d));
        assert forall|j: int| 0 <= j < el implies s2[i + j] == escape(s)[j] by {
            assert(s2.subrange(i, i + el)[j] == s2[i + j]);
        }
        let w = e.len() as int;
        assert(el == w + dl);
        assert(escape(s)[0] == e[0]);
        assert(s2[i + 0] == escape(s)[0]);
        if w == 2 {
            assert(escape(s)[1] == e[1]);
            assert(s2[i + 1] == escape(s)[1]);
            assert(s2[i] == '\\');
            assert forall|j: int| 0 <= j < dl implies s2.subrange(i + 2, i + 2 + dl)[j]
                == escape(d)[j] by {
                assert(s2[i + (2 + j)] == escape(s)[2 + j]);
                assert(escape(s)[2 + j] == escape(d)[j]);
            }
            assert(s2.subrange(i + 2, i + 2 + dl) =~= escape(d));
            assert(s2[i + 2 + dl] == '"');
            lemma_unescape_escape(s2, i + 2, d, acc.push(c));
            assert(acc.push(c) + d =~= acc + s);
        } else {
            assert(e =~= seq![c]);
            assert(s2[i] == c);
            assert(c != '"' && c != '\\');
            assert forall|j: int| 0 <= j < dl implies s2.subrange(i + 1, i + 1 + dl)[j]
                == escape(d)[j] by {
                assert(s2[i + (1 + j)] == escape(s)[1 + j]);
                assert(escape(s)[1 + j] == escape(d)[j]);
            }
            assert(s2.subrange(i + 1, i + 1 + dl) =~= escape(d));
            assert(s2[i + 1 + dl] == '"');
            lemma_unescape_escape(s2, i + 1, d, acc.push(c));
            assert(acc.push(c) + d =~= acc + s);
        }
    }
}

/// Every printed digit is a digit character, and none is any other character
/// the surrounding grammar cares about.
pub proof fn lemma_dec_str_digits(n: int)
    requires
        n >= 0,
    ensures
        forall|j: int| 0 <= j < dec_str(n).len() ==> crate::parser::is_digit(#[trigger] dec_str(
            n,
        )[j]),
        dec_str(n).len() >= 1,
    decreases n,
{
    if n >= 10 {
        lemma_dec_str_digits(n / 10);
    }
}

/// Reading back the printed digits gives the number.
pub proof fn lemma_dec_val_dec_str(n: int)
    requires
        n >= 0,
    ensures
        dec_val(dec_str(n)) == n,
    decreases n,
{
    assert(dec_val(Seq::<char>::empty()) == 0);
    if n < 10 {
        assert(dec_str(n) == seq![digit_of(n)]);
        assert(seq![digit_of(n)].drop_last() =~= Seq::<char>::empty());
        assert(seq![digit_of(n)].last() == digit_of(n));
        assert(digit_of(n) as int == 48 + n);
        assert(dec_val(seq![digit_of(n)]) == dec_val(Seq::<char>::empty()) * 10 + (digit_of(
            n,
        ) as int - 48) as nat);
    } else {
        lemma_dec_val_dec_str(n / 10);
        assert(dec_str(n).drop_last() =~= dec_str(n / 10));
        assert(dec_str(n).last() == digit_of(n % 10));
        assert(digit_of(n % 10) as int == 48 + n % 10);
        assert(dec_val(dec_str(n)) == dec_val(dec_str(n / 10)) * 10 + (digit_of(n % 10) as int
            - 48) as nat);
        assert(n / 10 * 10 + n % 10 == n);
    }
}

/// The integer parser applied to the printed digits of `n`, followed by a
/// non-digit, yields `n` and stops at that non-digit.
pub proof fn lemma_uint_dec_str(s2: Seq<char>, i: int, n: usize)
    requires
        0 <= i,
        i + dec_str(n as int).len() + 1 <= s2.len(),
        s2.subrange(i, i + dec_str(n as int).len()) == dec_str(n as int),
        !crate::parser::is_digit(s2[i + dec_str(n as int).len()]),
    ensures
        p_uint(s2, i) == Some((n, i + dec_str(n as int).len() as int)),
{
    let dl = dec_str(n as int).len() as int;
    lemma_dec_str_digits(n as int);
    assert forall|j: int| i <= j < i + dl implies crate::parser::is_digit(s2[j]) by {
        assert(s2.subrange(i, i + dl)[j - i] == s2[j]);
        assert(crate::parser::is_digit(dec_str(n as int)[j - i]));
    }
    lemma_digits_end_at(s2, i, i + dl);
    assert(s2.subrange(i, i + dl) == dec_str(n as int));
    lemma_dec_val_dec_str(n as int);
    assert(dec_val(s2.subrange(i, i + dl)) == n);
}

} // verus!

verus! {

/// The string parser applied to one rendered quoted string recovers its
/// characters and stops right after the closing quote.
pub proof fn lemma_string_rt(s2: Seq<char>, i: int, s: Seq<char>)
    requires
        0 <= i,
        i + escape(s).len() + 2 <= s2.len(),
        s2[i] == '"',
        s2.subrange(i + 1, i + 1 + escape(s).len()) == escape(s),
        s2[i + 1 + escape(s).len()] == '"',
    ensures
        p_string(s2, i) == Some((s, i + escape(s).len() + 2)),
{
    lemma_unescape_escape(s2, i + 1, s, Seq::empty());
    assert(Seq::<char>::empty() + s =~= s);
}

/// The mapping parser applied to rendered pairs with unique keys, followed by
/// a closing brace, appends exactly those pairs and stops after the brace.
pub proof fn lemma_map_rt(
    s2: Seq<char>,
    i: int,
    ps: Seq<(Seq<char>, Seq<char>)>,
    acc: Seq<(Seq<char>, Seq<char>)>,
)
    requires
        0 <= i,
        i + render_pairs(ps).len() + 1 <= s2.len(),
        s2.subrange(i, i + render_pairs(ps).len()) == render_pairs(ps),
        s2[i + render_pairs(ps).len()] == '}',
        forall|a: int, b: int| 0 <= a < b < ps.len() ==> ps[a].0 != ps[b].0,
        forall|a: int, b: int|
            0 <= a < acc.len() && 0 <= b < ps.len() ==> acc[a].0 != ps[b].0,
    ensures
        p_map_items(s2, i, acc) == Some((acc + ps, i + render_pairs(ps).len() + 1)),
    decreases ps.len(),
{
    let rl = render_pairs(ps).len() as int;
    assert forall|j: int| 0 <= j < rl implies s2[i + j] == render_pairs(ps)[j] by {
        assert(s2.subrange(i, i + rl)[j] == s2[i + j]);
    }
    if ps.len() == 0 {
        assert(s2[i] == '}');
        assert(skip_ws(s2, i) == i);
        assert(acc + ps =~= acc);
    } else {
        let k0 = ps[0].0;
        let v0 = ps[0].1;
        let ek = escape(k0).len() as int;
        let ev = escape(v0).len() as int;
        let head = seq!['"'] + escape(k0) + seq!['"', ':', '"'] + escape(v0) + seq!['"'];
        let hl = ek + ev + 5;
        assert(head.len() == hl);
        assert(render_pairs(ps) == if ps.len() == 1 {
            head
        } else {
            head + seq![','] + render_pairs(ps.drop_first())
        });
        assert forall|j: int| 0 <= j < hl implies s2[i + j] == head[j] by {
            assert(render_pairs(ps)[j] == head[j]);
        }
        assert(s2[i + 0] == head[0]);
        assert(s2[i] == '"');
        assert(skip_ws(s2, i) == i);
        assert forall|j: int| 0 <= j < ek implies s2.subrange(i + 1, i + 1 + ek)[j] == escape(
            k0,
        )[j] by {
            assert(s2[i + (1 + j)] == head[1 + j]);
            assert(head[1 + j] == escape(k0)[j]);
        }
        assert(s2.subrange(i + 1, i + 1 + ek) =~= escape(k0));
        assert(s2[i + (1 + ek)] == head[1 + ek]);
        assert(s2[i + 1 + ek] == '"');
        lemma_string_rt(s2, i, k0);
        let j2 = i + ek + 2;
        assert(s2[i + (ek + 2)] == head[ek + 2]);
        assert(s2[j2] == ':');
        assert(skip_ws(s2, j2) == j2);
        let j4 = j2 + 1;
        assert(s2[i + (ek + 3)] == head[ek + 3]);
        assert(s2[j4] == '"');
        assert(skip_ws(s2, j4) == j4) by {
            assert(!crate::text::is_ws('"'));
        }
        assert forall|j: int| 0 <= j < ev implies s2.subrange(j4 + 1, j4 + 1 + ev)[j] == escape(
            v0,
        )[j] by {
            assert(s2[i + (ek + 4 + j)] == head[ek + 4 + j]);
            assert(head[ek + 4 + j] == escape(v0)[j]);
        }
        assert(s2.subrange(j4 + 1, j4 + 1 + ev) =~= escape(v0));
        assert(s2[i + (ek + 4 + ev)] == head[ek + 4 + ev]);
        assert(s2[j4 + 1 + ev] == '"');
        lemma_string_rt(s2, j4, v0);
        let j5 = i + hl;
        assert(p_string(s2, j4) == Some((v0, j5)));
        lemma_upsert_at(acc, k0, v0, acc.len() as int);
        assert(upsert(acc, k0, v0) =~= acc.push((k0, v0)));
        assert((k0, v0) == ps[0]);
        if ps.len() == 1 {
            assert(s2[j5] == '}');
            assert(skip_ws(s2, j5) == j5);
            assert(acc.push((k0, v0)) =~= acc + ps);
        } else {
            let rest = ps.drop_first();
            assert(render_pairs(ps)[hl] == ',');
            assert(s2[i + hl] == render_pairs(ps)[hl]);
            assert(s2[j5] == ',');
            assert(skip_ws(s2, j5) == j5);
            let i2 = j5 + 1;
            let rrl = render_pairs(rest).len() as int;
            assert(rl == hl + 1 + rrl);
            assert forall|j: int| 0 <= j < rrl implies s2.subrange(i2, i2 + rrl)[j]
                == render_pairs(rest)[j] by {
                assert(s2[i + (hl + 1 + j)] == render_pairs(ps)[hl + 1 + j]);
                assert(render_pairs(ps)[hl + 1 + j] == render_pairs(rest)[j]);
            }
            assert(s2.subrange(i2, i2 + rrl) =~= render_pairs(rest));
            assert(s2[i2 + rrl] == '}');
            let acc2 = acc.push((k0, v0));
            assert forall|a: int, b: int|
                0 <= a < acc2.len() && 0 <= b < rest.len() implies acc2[a].0 != rest[b].0 by {
                assert(rest[b] == ps[b + 1]);
                if a < acc.len() {
                } else {
                    assert(acc2[a].0 == k0);
                }
            }
            assert(forall|a: int, b: int|
                0 <= a < b < rest.len() ==> rest[a] == ps[a + 1] && rest[b] == ps[b + 1]);
            lemma_map_rt(s2, i2, rest, acc2);
            assert(acc2 + rest =~= acc + ps);
        }
    }
}

} // verus!

verus! {

/// The first rendered field sets `beauty_name` and stops at the next field.
#[verifier::rlimit(100)]
proof fn lemma_meta_field1(t: TemplateData)
    ensures
        p_fields(render_meta(t), 1, empty_acc()) == p_fields(
            render_meta(t),
            16 + escape(t.beauty_name).len() as int,
            MetaAcc { beauty_name: Some(t.beauty_name), ..empty_acc() },
        ),
{

    let en = escape(t.beauty_name);
    let rf = render_force(t.force_order);
    let ev2 = escape(t.bevy_version);
    let rp = render_pairs(t.extra_crates);
    let seg1 = seq!['('] + kw_beauty_name() + seq![':', '"'];
    let seg2 = seq!['"', ','] + kw_force_order() + seq![':'];
    let seg3 = seq![','] + kw_bevy_version() + seq![':', '"'];
    let seg4 = seq!['"', ','] + kw_extra_crates() + seq![':', '{'];
    let seg5 = seq!['}', ')'];
    let m = render_meta(t);
    assert(m =~= seg1 + en + seg2 + rf + seg3 + ev2 + seg4 + rp + seg5);
    let o2: int = 14;
    let o3 = o2 + en.len() as int;
    let o4 = o3 + 14;
    let o5 = o4 + rf.len() as int;
    let o6 = o5 + 15;
    let o7 = o6 + ev2.len() as int;
    let o8 = o7 + 16;
    let o9 = o8 + rp.len() as int;
    assert(m.len() == o9 + 2);

    assert forall|j: int| 0 <= j < 14 implies m[j] == seg1[j] by {}
    assert forall|j: int| 0 <= j < en.len() implies m[o2 + j] == en[j] by {}
    assert forall|j: int| 0 <= j < 14 implies m[o3 + j] == seg2[j] by {}
    let acc0 = empty_acc();
    assert(m[1] == 'b');
    assert(skip_ws(m, 1) == 1);
    assert forall|j: int| 1 <= j < 12 implies crate::parser::is_ident_char(m[j]) by {
        assert(m[j] == seg1[j]);
    }
    assert(m[12] == ':');
    lemma_ident_end_at(m, 1, 12);
    assert(m.subrange(1, 12) =~= kw_beauty_name());
    assert(skip_ws(m, 12) == 12);
    assert(m[13] == '"');
    assert(skip_ws(m, 13) == 13);
    assert(m.subrange(o2, o2 + en.len()) =~= en) by {
        assert forall|j: int| 0 <= j < en.len() implies m.subrange(o2, o2 + en.len() as int)[j]
            == en[j] by {
            assert(m[o2 + j] == en[j]);
        }
    }
    assert(m[o3 + 0] == seg2[0]);
    assert(m[o3] == '"');
    lemma_string_rt(m, 13, t.beauty_name);
    assert(p_string(m, 13) == Some((t.beauty_name, o3 + 1)));
    let acc1 = MetaAcc { beauty_name: Some(t.beauty_name), ..acc0 };
    assert(p_field_value(m, 13, acc0, kw_beauty_name()) == Some((acc1, o3 + 1)));
    assert(m[o3 + 1] == seg2[1]);
    assert(m[o3 + 1] == ',');
    assert(skip_ws(m, o3 + 1) == o3 + 1);
    assert(p_fields(m, 1, acc0) == p_fields(m, o3 + 2, acc1));
}

/// The rendered optional hint parses back to the hint itself.
#[verifier::rlimit(100)]
proof fn lemma_force_order_rt(t: TemplateData)
    ensures
        p_force_order(
            render_meta(t),
            28 + escape(t.beauty_name).len() as int,
        ) == Some(
            (
                t.force_order,
                28 + escape(t.beauty_name).len() as int + render_force(t.force_order).len() as int,
            ),
        ),
{
    let en = escape(t.beauty_name);
    let rf = render_force(t.force_order);
    let ev2 = escape(t.bevy_version);
    let rp = render_pairs(t.extra_crates);
    let seg1 = seq!['('] + kw_beauty_name() + seq![':', '"'];
    let seg2 = seq!['"', ','] + kw_force_order() + seq![':'];
    let seg3 = seq![','] + kw_bevy_version() + seq![':', '"'];
    let seg4 = seq!['"', ','] + kw_extra_crates() + seq![':', '{'];
    let seg5 = seq!['}', ')'];
    let m = render_meta(t);
    assert(m =~= seg1 + en + seg2 + rf + seg3 + ev2 + seg4 + rp + seg5);
    let o2: int = 14;
    let o3 = o2 + en.len() as int;
    let o4 = o3 + 14;
    let o5 = o4 + rf.len() as int;
    assert(m.len() == o5 + 15 + ev2.len() + 16 + rp.len() + 2);
    assert forall|j: int| 0 <= j < rf.len() implies m[o4 + j] == rf[j] by {}
    assert forall|j: int| 0 <= j < 15 implies m[o5 + j] == seg3[j] by {}
    match t.force_order {
        None => {
            assert(rf == kw_none());
            assert(rf.len() == 4);
            assert forall|j: int| o4 <= j < o4 + 4 implies crate::parser::is_ident_char(
                m[j],
            ) by {
                assert(m[o4 + (j - o4)] == rf[j - o4]);
            }
            assert(m[o5 + 0] == seg3[0]);
            assert(m[o4 + 4] == ',');
            assert(!crate::parser::is_ident_char(','));
            lemma_ident_end_at(m, o4, o4 + 4);
            assert(m.subrange(o4, o4 + 4) =~= kw_none()) by {
                assert forall|j: int| 0 <= j < 4 implies m.subrange(o4, o4 + 4)[j]
                    == kw_none()[j] by {
                    assert(m[o4 + j] == rf[j]);
                }
            }
        },
        Some(k) => {
            let dl = dec_str(k as int).len() as int;
            assert(rf == kw_some() + seq!['('] + dec_str(k as int) + seq![')']);
            assert(rf.len() == dl + 6);
            assert forall|j: int| o4 <= j < o4 + 4 implies crate::parser::is_ident_char(
                m[j],
            ) by {
                assert(m[o4 + (j - o4)] == rf[j - o4]);
            }
            assert(m[o4 + 4] == rf[4]);
            assert(m[o4 + 4] == '(');
            lemma_ident_end_at(m, o4, o4 + 4);
            assert(m.subrange(o4, o4 + 4) =~= kw_some()) by {
                assert forall|j: int| 0 <= j < 4 implies m.subrange(o4, o4 + 4)[j]
                    == kw_some()[j] by {
                    assert(m[o4 + j] == rf[j]);
                }
            }
            assert(kw_some() != kw_none()) by {
                assert(kw_some()[0] == 'S' && kw_none()[0] == 'N');
            }
            assert(skip_ws(m, o4 + 4) == o4 + 4);
            lemma_dec_str_digits(k as int);
            assert(m[o4 + 5] == rf[5]);
            assert(crate::parser::is_digit(rf[5])) by {
                assert(rf[5] == dec_str(k as int)[0]);
            }
            assert(!crate::text::is_ws(m[o4 + 5]));
            assert(skip_ws(m, o4 + 5) == o4 + 5);
            assert(m.subrange(o4 + 5, o4 + 5 + dl) =~= dec_str(k as int)) by {
                assert forall|j: int| 0 <= j < dl implies m.subrange(o4 + 5, o4 + 5 + dl)[j]
                    == dec_str(k as int)[j] by {
                    assert(m[o4 + (5 + j)] == rf[5 + j]);
                }
            }
            assert(m[o4 + (5 + dl)] == rf[5 + dl]);
            assert(m[o4 + 5 + dl] == ')');
            assert(!crate::parser::is_digit(')'));
            lemma_uint_dec_str(m, o4 + 5, k);
            assert(skip_ws(m, o4 + 5 + dl) == o4 + 5 + dl);
            assert(o4 + 5 + dl + 1 == o5);
        },
    }
}

/// The second rendered field sets `force_order` and stops at the next field.
#[verifier::rlimit(100)]
proof fn lemma_meta_field2(t: TemplateData)
    ensures
        p_fields(
            render_meta(t),
            16 + escape(t.beauty_name).len() as int,
            MetaAcc { beauty_name: Some(t.beauty_name), ..empty_acc() },
        ) == p_fields(
            render_meta(t),
            29 + escape(t.beauty_name).len() as int + render_force(t.force_order).len() as int,
            MetaAcc {
                beauty_name: Some(t.beauty_name),
                force_order: Some(t.force_order),
                ..empty_acc()
            },
        ),
{

    let en = escape(t.beauty_name);
    let rf = render_force(t.force_order);
    let ev2 = escape(t.bevy_version);
    let rp = render_pairs(t.extra_crates);
    let seg1 = seq!['('] + kw_beauty_name() + seq![':', '"'];
    let seg2 = seq!['"', ','] + kw_force_order() + seq![':'];
    let seg3 = seq![','] + kw_bevy_version() + seq![':', '"'];
    let seg4 = seq!['"', ','] + kw_extra_crates() + seq![':', '{'];
    let seg5 = seq!['}', ')'];
    let m = render_meta(t);
    assert(m =~= seg1 + en + seg2 + rf + seg3 + ev2 + seg4 + rp + seg5);
    let o2: int = 14;
    let o3 = o2 + en.len() as int;
    let o4 = o3 + 14;
    let o5 = o4 + rf.len() as int;
    let o6 = o5 + 15;
    let o7 = o6 + ev2.len() as int;
    let o8 = o7 + 16;
    let o9 = o8 + rp.len() as int;
    assert(m.len() == o9 + 2);

    assert forall|j: int| 0 <= j < 14 implies m[o3 + j] == seg2[j] by {}
    assert forall|j: int| 0 <= j < rf.len() implies m[o4 + j] == rf[j] by {}
    assert forall|j: int| 0 <= j < 15 implies m[o5 + j] == seg3[j] by {}
    let acc1 = MetaAcc { beauty_name: Some(t.beauty_name), ..empty_acc() };
    let x2 = o3 + 2;
    assert(m[o3 + 2] == seg2[2]);
    assert(m[x2] == 'f');
    assert(skip_ws(m, x2) == x2);
    assert forall|j: int| x2 <= j < o3 + 13 implies crate::parser::is_ident_char(m[j]) by {
        assert(m[o3 + (j - o3)] == seg2[j - o3]);
    }
    assert(m[o3 + 13] == seg2[13]);
    assert(m[o3 + 13] == ':');
    lemma_ident_end_at(m, x2, o3 + 13);
    assert(m.subrange(x2, o3 + 13) =~= kw_force_order()) by {
        assert forall|j: int| 0 <= j < 11 implies m.subrange(x2, o3 + 13)[j]
            == kw_force_order()[j] by {
            assert(m[o3 + (2 + j)] == seg2[2 + j]);
        }
    }
    assert(kw_force_order() != kw_beauty_name()) by {
        assert(kw_force_order()[0] == 'f' && kw_beauty_name()[0] == 'b');
    }
    assert(kw_force_order() != kw_bevy_version()) by {
        assert(kw_force_order().len() == 11 && kw_bevy_version().len() == 12);
    }
    assert(skip_ws(m, o3 + 13) == o3 + 13);
    assert(skip_ws(m, o4) == o4) by {
        assert(m[o4 + 0] == rf[0]);
        match t.force_order {
            None => {
                assert(rf == kw_none());
                assert(m[o4] == 'N');
            },
            Some(k) => {
                assert(rf == kw_some() + seq!['('] + dec_str(k as int) + seq![')']);
                assert(m[o4] == 'S');
            },
        }
    }
    lemma_force_order_rt(t);
    assert(p_force_order(m, o4) == Some((t.force_order, o5)));
    let acc2 = MetaAcc { force_order: Some(t.force_order), ..acc1 };
    assert(p_field_value(m, o4, acc1, kw_force_order()) == Some((acc2, o5)));
    assert(m[o5 + 0] == seg3[0]);
    assert(m[o5] == ',');
    assert(skip_ws(m, o5) == o5);
    assert(p_fields(m, x2, acc1) == p_fields(m, o5 + 1, acc2));
}

} // verus!

verus! {

/// The third rendered field sets `bevy_version` and stops at the next field.
#[verifier::rlimit(100)]
proof fn lemma_meta_field3(t: TemplateData)
    ensures
        p_fields(
            render_meta(t),
            29 + escape(t.beauty_name).len() as int + render_force(t.force_order).len() as int,
            MetaAcc {
                beauty_name: Some(t.beauty_name),
                force_order: Some(t.force_order),
                ..empty_acc()
            },
        ) == p_fields(
            render_meta(t),
            45 + escape(t.beauty_name).len() as int + render_force(t.force_order).len() as int
                + escape(t.bevy_version).len() as int,
            MetaAcc {
                beauty_name: Some(t.beauty_name),
                force_order: Some(t.force_order),
                bevy_version: Some(t.bevy_version),
                ..empty_acc()
            },
        ),
{
    let en = escape(t.beauty_name);
    let rf = render_force(t.force_order);
    let ev2 = escape(t.bevy_version);
    let rp = render_pairs(t.extra_crates);
    let seg1 = seq!['('] + kw_beauty_name() + seq![':', '"'];
    let seg2 = seq!['"', ','] + kw_force_order() + seq![':'];
    let seg3 = seq![','] + kw_bevy_version() + seq![':', '"'];
    let seg4 = seq!['"', ','] + kw_extra_crates() + seq![':', '{'];
    let seg5 = seq!['}', ')'];
    let m = render_meta(t);
    assert(m =~= seg1 + en + seg2 + rf + seg3 + ev2 + seg4 + rp + seg5);
    let o3 = 14 + en.len() as int;
    let o4 = o3 + 14;
    let o5 = o4 + rf.len() as int;
    let o6 = o5 + 15;
    let o7 = o6 + ev2.len() as int;
    assert(m.len() == o7 + 16 + rp.len() + 2);
    assert forall|j: int| 0 <= j < 15 implies m[o5 + j] == seg3[j] by {}
    assert forall|j: int| 0 <= j < ev2.len() implies m[o6 + j] == ev2[j] by {}
    assert forall|j: int| 0 <= j < 16 implies m[o7 + j] == seg4[j] by {}
    let acc2 = MetaAcc {
        beauty_name: Some(t.beauty_name),
        force_order: Some(t.force_order),
        ..empty_acc()
    };
    let x3 = o5 + 1;
    assert(m[o5 + 1] == seg3[1]);
    assert(m[x3] == 'b');
    assert(skip_ws(m, x3) == x3);
    assert forall|j: int| x3 <= j < o5 + 13 implies crate::parser::is_ident_char(m[j]) by {
        assert(m[o5 + (j - o5)] == seg3[j - o5]);
    }
    assert(m[o5 + 13] == seg3[13]);
    assert(m[o5 + 13] == ':');
    lemma_ident_end_at(m, x3, o5 + 13);
    assert(m.subrange(x3, o5 + 13) =~= kw_bevy_version()) by {
        assert forall|j: int| 0 <= j < 12 implies m.subrange(x3, o5 + 13)[j]
            == kw_bevy_version()[j] by {
            assert(m[o5 + (1 + j)] == seg3[1 + j]);
        }
    }
    assert(kw_bevy_version() != kw_beauty_name()) by {
        assert(kw_bevy_version().len() == 12 && kw_beauty_name().len() == 11);
    }
    assert(skip_ws(m, o5 + 13) == o5 + 13);
    assert(m[o5 + 14] == seg3[14]);
    assert(m[o5 + 14] == '"');
    assert(skip_ws(m, o5 + 14) == o5 + 14);
    assert(m.subrange(o6, o6 + ev2.len()) =~= ev2) by {
        assert forall|j: int| 0 <= j < ev2.len() implies m.subrange(o6, o6 + ev2.len() as int)[j]
            == ev2[j] by {
            assert(m[o6 + j] == ev2[j]);
        }
    }
    assert(m[o7 + 0] == seg4[0]);
    assert(m[o7] == '"');
    lemma_string_rt(m, o5 + 14, t.bevy_version);
    assert(p_string(m, o5 + 14) == Some((t.bevy_version, o7 + 1)));
    let acc3 = MetaAcc { bevy_version: Some(t.bevy_version), ..acc2 };
    assert(p_field_value(m, o5 + 14, acc2, kw_bevy_version()) == Some((acc3, o7 + 1)));
    assert(m[o7 + 1] == seg4[1]);
    assert(m[o7 + 1] == ',');
    assert(skip_ws(m, o7 + 1) == o7 + 1);
    assert(p_fields(m, x3, acc2) == p_fields(m, o7 + 2, acc3));
}

/// The last rendered field sets `extra_crates` and closes the record.
#[verifier::rlimit(100)]
proof fn lemma_meta_field4(t: TemplateData)
    requires
        forall|a: int, b: int|
            0 <= a < b < t.extra_crates.len() ==> t.extra_crates[a].0 != t.extra_crates[b].0,
    ensures
        p_fields(
            render_meta(t),
            45 + escape(t.beauty_name).len() as int + render_force(t.force_order).len() as int
                + escape(t.bevy_version).len() as int,
            MetaAcc {
                beauty_name: Some(t.beauty_name),
                force_order: Some(t.force_order),
                bevy_version: Some(t.bevy_version),
                ..empty_acc()
            },
        ) == Some(
            (
                MetaAcc {
                    beauty_name: Some(t.beauty_name),
                    force_order: Some(t.force_order),
                    bevy_version: Some(t.bevy_version),
                    extra_crates: Some(t.extra_crates),
                },
                render_meta(t).len() as int,
            ),
        ),
{
    let en = escape(t.beauty_name);
    let rf = render_force(t.force_order);
    let ev2 = escape(t.bevy_version);
    let rp = render_pairs(t.extra_crates);
    let seg1 = seq!['('] + kw_beauty_name() + seq![':', '"'];
    let seg2 = seq!['"', ','] + kw_force_order() + seq![':'];
    let seg3 = seq![','] + kw_bevy_version() + seq![':', '"'];
    let seg4 = seq!['"', ','] + kw_extra_crates() + seq![':', '{'];
    let seg5 = seq!['}', ')'];
    let m = render_meta(t);
    assert(m =~= seg1 + en + seg2 + rf + seg3 + ev2 + seg4 + rp + seg5);
    let o5 = 28 + en.len() as int + rf.len() as int;
    let o6 = o5 + 15;
    let o7 = o6 + ev2.len() as int;
    let o8 = o7 + 16;
    let o9 = o8 + rp.len() as int;
    assert(m.len() == o9 + 2);
    assert forall|j: int| 0 <= j < 16 implies m[o7 + j] == seg4[j] by {}
    assert forall|j: int| 0 <= j < rp.len() implies m[o8 + j] == rp[j] by {}
    assert forall|j: int| 0 <= j < 2 implies m[o9 + j] == seg5[j] by {}
    let acc3 = MetaAcc {
        beauty_name: Some(t.beauty_name),
        force_order: Some(t.force_order),
        bevy_version: Some(t.bevy_version),
        ..empty_acc()
    };
    let x4 = o7 + 2;
    assert(m[o7 + 2] == seg4[2]);
    assert(m[x4] == 'e');
    assert(skip_ws(m, x4) == x4);
    assert forall|j: int| x4 <= j < o7 + 14 implies crate::parser::is_ident_char(m[j]) by {
        assert(m[o7 + (j - o7)] == seg4[j - o7]);
    }
    assert(m[o7 + 14] == seg4[14]);
    assert(m[o7 + 14] == ':');
    lemma_ident_end_at(m, x4, o7 + 14);
    assert(m.subrange(x4, o7 + 14) =~= kw_extra_crates()) by {
        assert forall|j: int| 0 <= j < 12 implies m.subrange(x4, o7 + 14)[j]
            == kw_extra_crates()[j] by {
            assert(m[o7 + (2 + j)] == seg4[2 + j]);
        }
    }
    assert(kw_extra_crates() != kw_beauty_name()) by {
        assert(kw_extra_crates().len() == 12 && kw_beauty_name().len() == 11);
    }
    assert(kw_extra_crates() != kw_bevy_version()) by {
        assert(kw_extra_crates()[0] == 'e' && kw_bevy_version()[0] == 'b');
    }
    assert(kw_extra_crates() != kw_force_order()) by {
        assert(kw_extra_crates().len() == 12 && kw_force_order().len() == 11);
    }
    assert(skip_ws(m, o7 + 14) == o7 + 14);
    assert(m[o7 + 15] == seg4[15]);
    assert(m[o7 + 15] == '{');
    assert(skip_ws(m, o7 + 15) == o7 + 15);
    assert(m.subrange(o8, o8 + rp.len()) =~= rp) by {
        assert forall|j: int| 0 <= j < rp.len() implies m.subrange(o8, o8 + rp.len() as int)[j]
            == rp[j] by {
            assert(m[o8 + j] == rp[j]);
        }
    }
    assert(m[o9 + 0] == seg5[0]);
    assert(m[o9] == '}');
    lemma_map_rt(m, o8, t.extra_crates, Seq::empty());
    assert(Seq::<(Seq<char>, Seq<char>)>::empty() + t.extra_crates =~= t.extra_crates);
    assert(p_map_items(m, o8, Seq::empty()) == Some((t.extra_crates, o9 + 1)));
    let acc4 = MetaAcc { extra_crates: Some(t.extra_crates), ..acc3 };
    assert(p_field_value(m, o7 + 15, acc3, kw_extra_crates()) == Some((acc4, o9 + 1)));
    assert(m[o9 + 1] == seg5[1]);
    assert(m[o9 + 1] == ')');
    assert(skip_ws(m, o9 + 1) == o9 + 1);
    assert(p_fields(m, x4, acc3) == Some((acc4, o9 + 2)));
}

/// Decoding a rendered metadata record recovers exactly the template's
/// metadata fields, provided its dependency keys are unique.
#[verifier::rlimit(100)]
pub proof fn lemma_meta_rt(t: TemplateData)
    requires
        forall|a: int, b: int|
            0 <= a < b < t.extra_crates.len() ==> t.extra_crates[a].0 != t.extra_crates[b].0,
    ensures
        p_meta(render_meta(t)) == Some(
            MetaData {
                beauty_name: t.beauty_name,
                force_order: t.force_order,
                bevy_version: t.bevy_version,
                extra_crates: t.extra_crates,
            },
        ),
{
    let m = render_meta(t);
    let seg1 = seq!['('] + kw_beauty_name() + seq![':', '"'];
    assert(m =~= seg1 + escape(t.beauty_name) + (seq!['"', ','] + kw_force_order() + seq![':'])
        + render_force(t.force_order) + (seq![','] + kw_bevy_version() + seq![':', '"'])
        + escape(t.bevy_version) + (seq!['"', ','] + kw_extra_crates() + seq![':', '{'])
        + render_pairs(t.extra_crates) + seq!['}', ')']);
    assert(m[0] == seg1[0]);
    assert(m[0] == '(');
    assert(skip_ws(m, 0) == 0);
    assert(ident_end(m, 0) == 0);
    lemma_meta_field1(t);
    lemma_meta_field2(t);
    lemma_meta_field3(t);
    lemma_meta_field4(t);
    let acc4 = MetaAcc {
        beauty_name: Some(t.beauty_name),
        force_order: Some(t.force_order),
        bevy_version: Some(t.bevy_version),
        extra_crates: Some(t.extra_crates),
    };
    assert(p_fields(m, 1, empty_acc()) == Some((acc4, m.len() as int)));
    assert(skip_ws(m, m.len() as int) == m.len() as int);
}

} // verus!

verus! {

/// No rendered metadata component holds a line feed or carriage return;
/// escaping writes them as two-character escapes.
proof fn lemma_escape_no_nl(s: Seq<char>)
    ensures
        forall|j: int| 0 <= j < escape(s).len() ==> #[trigger] escape(s)[j] != '\n' && escape(
            s,
        )[j] != '\r',
    decreases s.len(),
{
    if s.len() > 0 {
        lemma_escape_no_nl(s.drop_first());
        assert(escape(s) == esc_char(s[0]) + escape(s.drop_first()));
        assert forall|j: int| 0 <= j < escape(s).len() implies #[trigger] escape(s)[j] != '\n'
            && escape(s)[j] != '\r' by {
            if j < esc_char(s[0]).len() {
                assert(escape(s)[j] == esc_char(s[0])[j]);
            } else {
                assert(escape(s)[j] == escape(s.drop_first())[j - esc_char(s[0]).len()]);
            }
        }
    }
}

proof fn lemma_render_pairs_no_nl(ps: Seq<(Seq<char>, Seq<char>)>)
    ensures
        forall|j: int|
            0 <= j < render_pairs(ps).len() ==> #[trigger] render_pairs(ps)[j] != '\n'
                && render_pairs(ps)[j] != '\r',
    decreases ps.len(),
{
    if ps.len() > 0 {
        lemma_render_pairs_no_nl(ps.drop_first());
        lemma_escape_no_nl(ps[0].0);
        lemma_escape_no_nl(ps[0].1);
        let head = seq!['"'] + escape(ps[0].0) + seq!['"', ':', '"'] + escape(ps[0].1)
            + seq!['"'];
        assert forall|j: int| 0 <= j < head.len() implies head[j] != '\n' && head[j] != '\r' by {
            if 1 <= j < 1 + escape(ps[0].0).len() {
                assert(head[j] == escape(ps[0].0)[j - 1]);
            } else if 4 + escape(ps[0].0).len() <= j < 4 + escape(ps[0].0).len() + escape(
                ps[0].1,
            ).len() {
                assert(head[j] == escape(ps[0].1)[j - 4 - escape(ps[0].0).len()]);
            }
        }
        let hl = head.len() as int;
        assert forall|j: int| 0 <= j < render_pairs(ps).len() implies #[trigger] render_pairs(
            ps,
        )[j] != '\n' && render_pairs(ps)[j] != '\r' by {
            if ps.len() == 1 {
                assert(render_pairs(ps)[j] == head[j]);
            } else if j < hl {
                assert(render_pairs(ps)[j] == head[j]);
            } else if j == hl {
                assert(render_pairs(ps)[j] == ',');
            } else {
                assert(render_pairs(ps)[j] == render_pairs(ps.drop_first())[j - hl - 1]);
            }
        }
    }
}

proof fn lemma_render_meta_no_nl(t: TemplateData)
    ensures
        forall|j: int|
            0 <= j < render_meta(t).len() ==> #[trigger] render_meta(t)[j] != '\n' && render_meta(
                t,
            )[j] != '\r',
{
    let m = render_meta(t);
    lemma_escape_no_nl(t.beauty_name);
    lemma_escape_no_nl(t.bevy_version);
    lemma_render_pairs_no_nl(t.extra_crates);
    let rf = render_force(t.force_order);
    assert forall|j: int| 0 <= j < rf.len() implies rf[j] != '\n' && rf[j] != '\r' by {
        match t.force_order {
            None => {},
            Some(k) => {
                lemma_dec_str_digits(k as int);
                if 5 <= j < 5 + dec_str(k as int).len() {
                    assert(rf[j] == dec_str(k as int)[j - 5]);
                    assert(crate::parser::is_digit(rf[j]));
                }
            },
        }
    }
}

/// Peeling one newline-terminated line without inner line feeds or carriage
/// returns off the front of a text.
proof fn lemma_lines_peel(s: Seq<char>, line: Seq<char>, rest: Seq<char>)
    requires
        s == line + seq!['\n'] + rest,
        forall|j: int| 0 <= j < line.len() ==> line[j] != '\n' && line[j] != '\r',
    ensures
        crate::text::spec_lines(s) == seq![line] + crate::text::spec_lines(rest),
{
    assert forall|j: int| 0 <= j < line.len() implies s[j] != '\n' by {
        assert(s[j] == line[j]);
    }
    assert(s[line.len() as int] == '\n');
    crate::text::lemma_find_nl_at(s, line.len() as int);
    assert(s.subrange(0, line.len() as int) =~= line);
    assert(crate::text::chop_cr(line) == line);
    assert(s.subrange(line.len() as int + 1, s.len() as int) =~= rest);
}

/// The lines of a rendered document: the metadata line, the marker line, and
/// the code body's own lines.
#[verifier::rlimit(100)]
proof fn lemma_render_lines(t: TemplateData)
    requires
        forall|j: int|
            0 <= j < t.main_code.len() ==> #[trigger] t.main_code[j] != '\r',
    ensures
        crate::text::spec_lines(crate::render::spec_render(t)) == seq![render_meta(t)] + (seq![
            crate::text::marker(),
        ] + crate::text::spec_lines(t.main_code)),
{
    let m = render_meta(t);
    let body = t.main_code;
    let s = crate::render::spec_render(t);
    let rest1 = crate::text::marker() + seq!['\n'] + body;
    assert(s =~= m + seq!['\n'] + rest1);
    lemma_render_meta_no_nl(t);
    lemma_lines_peel(s, m, rest1);
    assert(forall|j: int|
        0 <= j < crate::text::marker().len() ==> #[trigger] crate::text::marker()[j] != '\n'
            && crate::text::marker()[j] != '\r');
    lemma_lines_peel(rest1, crate::text::marker(), body);
}

/// The marker line of a rendered document is its second line.
#[verifier::rlimit(100)]
proof fn lemma_first_marker_render(t: TemplateData)
    requires
        !crate::text::has_marker(render_meta(t)),
        forall|j: int|
            0 <= j < t.main_code.len() ==> #[trigger] t.main_code[j] != '\r',
    ensures
        crate::text::first_marker(crate::text::spec_lines(crate::render::spec_render(t))) == 1,
        crate::text::spec_lines(crate::render::spec_render(t)).len() == 2
            + crate::text::spec_lines(t.main_code).len(),
{
    lemma_render_lines(t);
    let m = render_meta(t);
    let ls = crate::text::spec_lines(crate::render::spec_render(t));
    assert(ls[0] == m && ls[1] == crate::text::marker());
    assert(crate::text::marker_at(crate::text::marker(), 0)) by {
        assert(crate::text::marker().subrange(0, 7) =~= crate::text::marker());
    }
    assert(crate::text::has_marker(ls[1]));
    crate::text::lemma_first_marker_at(ls, 1);
}

/// Splitting a rendered document at the marker line yields the metadata line
/// (newline-terminated) and the code body's joined lines.
#[verifier::rlimit(100)]
proof fn lemma_split_render_lines(t: TemplateData)
    requires
        !crate::text::has_marker(render_meta(t)),
        forall|j: int|
            0 <= j < t.main_code.len() ==> #[trigger] t.main_code[j] != '\r',
    ensures
        crate::text::split_doc(crate::render::spec_render(t)).0 == render_meta(t).push('\n'),
        crate::text::split_doc(crate::render::spec_render(t)).1 == crate::text::join_nl(
            crate::text::spec_lines(t.main_code),
        ),
{
    let m = render_meta(t);
    let body = t.main_code;
    let s = crate::render::spec_render(t);
    lemma_render_lines(t);
    lemma_first_marker_render(t);
    let ls = crate::text::spec_lines(s);
    let bls = crate::text::spec_lines(body);
    assert(ls.subrange(0, 1) =~= seq![m]);
    assert(crate::text::join_nl(seq![m]) =~= m.push('\n')) by {
        assert(seq![m].drop_first() =~= Seq::<Seq<char>>::empty());
        assert(seq![m][0] == m);
        assert(crate::text::join_nl(Seq::<Seq<char>>::empty()) =~= Seq::<char>::empty());
    }
    assert(ls.subrange(2, ls.len() as int) =~= bls);
}

/// Splitting and trimming a rendered document yields the metadata line and
/// the trimmed code body, provided the metadata line holds no marker and the
/// body no carriage returns.
#[verifier::rlimit(100)]
proof fn lemma_split_render(t: TemplateData)
    requires
        !crate::text::has_marker(render_meta(t)),
        forall|j: int|
            0 <= j < t.main_code.len() ==> #[trigger] t.main_code[j] != '\r',
    ensures
        crate::text::trim(crate::text::split_doc(crate::render::spec_render(t)).0) == render_meta(
            t,
        ),
        crate::text::trim(crate::text::split_doc(crate::render::spec_render(t)).1)
            == crate::text::trim(t.main_code),
{
    let m = render_meta(t);
    let body = t.main_code;
    lemma_split_render_lines(t);
    let above = m.push('\n');
    lemma_meta_first_char(t);
    assert(above[0] == '(');
    assert(!crate::text::is_ws(above[0]));
    crate::text::lemma_trim_start_at(above, 0);
    assert(above.subrange(0, above.len() as int) =~= above);
    assert(above[m.len() as int] == '\n');
    assert(m.len() >= 1);
    assert(above[m.len() - 1] == ')');
    assert(!crate::text::is_ws(above[m.len() - 1]));
    crate::text::lemma_trim_end_at(above, m.len() as int);
    assert(above.subrange(0, m.len() as int) =~= m);
    assert(crate::text::trim(above) == m);
    lemma_join_lines(body);
    let below = crate::text::join_nl(crate::text::spec_lines(body));
    assert(crate::text::trim(below) == crate::text::trim(body)) by {
        if body.len() == 0 {
            assert(crate::text::trim_start(below) == below);
            assert(crate::text::trim_end(below) == below);
            assert(crate::text::trim_start(body) == body);
            assert(crate::text::trim_end(body) == body);
        } else if body.last() == '\n' {
        } else {
            lemma_trim_push_ws(body, '\n');
        }
    }
}

/// Round trip: parsing a rendered document gives back the template's fields,
/// with the code body trimmed of surrounding whitespace. It holds for every
/// template whose metadata line does not itself contain the marker token,
/// whose code body holds no carriage returns, and whose dependency keys are
/// unique.
pub proof fn lemma_round_trip(t: TemplateData)
    requires
        !crate::text::has_marker(render_meta(t)),
        forall|j: int|
            0 <= j < t.main_code.len() ==> #[trigger] t.main_code[j] != '\r',
        forall|a: int, b: int|
            0 <= a < b < t.extra_crates.len() ==> t.extra_crates[a].0 != t.extra_crates[b].0,
    ensures
        crate::parser::spec_parse_template(crate::render::spec_render(t), t.origin) == Some(
            TemplateData { main_code: crate::text::trim(t.main_code), ..t },
        ),
{
    lemma_split_render(t);
    lemma_meta_rt(t);
}

/// The rendered metadata line starts with its opening parenthesis.
proof fn lemma_meta_first_char(t: TemplateData)
    ensures
        render_meta(t).len() >= 1,
        render_meta(t)[0] == '(',
        render_meta(t).last() == ')',
{
    let m = render_meta(t);
    let seg1 = seq!['('] + kw_beauty_name() + seq![':', '"'];
    let lead = seg1 + escape(t.beauty_name) + (seq!['"', ','] + kw_force_order() + seq![':'])
        + render_force(t.force_order) + (seq![','] + kw_bevy_version() + seq![':', '"'])
        + escape(t.bevy_version) + (seq!['"', ','] + kw_extra_crates() + seq![':', '{'])
        + render_pairs(t.extra_crates);
    assert(m =~= lead + seq!['}', ')']);
    assert(m[0] == seg1[0]);
    assert(m.last() == seq!['}', ')'][1]);
}

/// Joining the split lines of a text without carriage returns gives the text
/// back, except that a missing final line terminator is added.
proof fn lemma_join_lines(b: Seq<char>)
    requires
        forall|j: int| 0 <= j < b.len() ==> #[trigger] b[j] != '\r',
    ensures
        crate::text::join_nl(crate::text::spec_lines(b)) == if b.len() == 0 {
            Seq::<char>::empty()
        } else if b.last() == '\n' {
            b
        } else {
            b.push('\n')
        },
    decreases b.len(),
{
    if b.len() > 0 {
        crate::text::lemma_find_nl_chars(b, 0);
        let n = crate::text::find_nl(b, 0);
        let line = b.subrange(0, n);
        assert(crate::text::chop_cr(line) == line);
        if n == b.len() {
            assert(crate::text::spec_lines(b) == seq![line]);
            assert(crate::text::join_nl(seq![line]) =~= line.push('\n')) by {
                assert(seq![line].drop_first() =~= Seq::<Seq<char>>::empty());
                assert(seq![line][0] == line);
                assert(crate::text::join_nl(Seq::<Seq<char>>::empty()) =~= Seq::<char>::empty());
            }
            assert(line =~= b);
            assert(b.last() != '\n');
            assert(crate::text::join_nl(crate::text::spec_lines(b)) =~= b.push('\n'));
        } else {
            let rest = b.subrange(n + 1, b.len() as int);
            assert(crate::text::spec_lines(b) == seq![line] + crate::text::spec_lines(rest));
            assert(forall|j: int| 0 <= j < rest.len() ==> #[trigger] rest[j] != '\r');
            lemma_join_lines(rest);
            assert(crate::text::join_nl(seq![line] + crate::text::spec_lines(rest))
                == line.push('\n') + crate::text::join_nl(crate::text::spec_lines(rest))) by {
                let w = seq![line] + crate::text::spec_lines(rest);
                assert(w.drop_first() =~= crate::text::spec_lines(rest));
                assert(w[0] == line);
                assert(w.len() > 0);
                assert(crate::text::join_nl(w) == w[0].push('\n') + crate::text::join_nl(
                    w.drop_first(),
                ));
            }
            assert(line.push('\n') =~= b.subrange(0, n + 1));
            if rest.len() == 0 {
                assert(b.subrange(0, n + 1) =~= b);
                assert(b.last() == '\n');
                assert(line.push('\n') + crate::text::join_nl(crate::text::spec_lines(rest))
                    =~= b);
            } else if rest.last() == '\n' {
                assert(b.last() == rest.last());
                assert(b.subrange(0, n + 1) + rest =~= b);
            } else {
                assert(b.last() == rest.last());
                assert(b.subrange(0, n + 1) + rest.push('\n') =~= b.push('\n'));
            }
        }
    }
}

/// Appending one whitespace character does not change the trimmed text.
proof fn lemma_trim_push_ws(b: Seq<char>, c: char)
    requires
        crate::text::is_ws(c),
    ensures
        crate::text::trim(b.push(c)) == crate::text::trim(b),
{
    lemma_trim_start_push(b, c);
    if crate::text::trim_start(b).len() > 0 {
        let ts = crate::text::trim_start(b);
        assert(crate::text::trim_start(b.push(c)) == ts.push(c));
        assert(ts.push(c).last() == c);
        assert(ts.push(c).drop_last() =~= ts);
        assert(crate::text::trim_end(ts.push(c)) == crate::text::trim_end(ts));
    } else {
        assert(crate::text::trim_start(b).len() == 0);
        assert(crate::text::trim_end(crate::text::trim_start(b)) =~= Seq::<char>::empty());
        assert(crate::text::trim_start(b.push(c)) =~= Seq::<char>::empty());
    }
}

/// How skipping leading whitespace interacts with appending one character.
proof fn lemma_trim_start_push(b: Seq<char>, c: char)
    ensures
        crate::text::trim_start(b.push(c)) == if crate::text::trim_start(b).len() > 0 {
            crate::text::trim_start(b).push(c)
        } else if crate::text::is_ws(c) {
            Seq::<char>::empty()
        } else {
            seq![c]
        },
    decreases b.len(),
{
    if b.len() == 0 {
        assert(b.push(c)[0] == c);
        assert(crate::text::trim_start(b) == b);
        if crate::text::is_ws(c) {
            assert(b.push(c).drop_first() =~= Seq::<char>::empty());
            assert(crate::text::trim_start(Seq::<char>::empty()) == Seq::<char>::empty());
            assert(crate::text::trim_start(b.push(c)) == crate::text::trim_start(
                b.push(c).drop_first(),
            ));
        } else {
            assert(b.push(c) =~= seq![c]);
        }
    } else {
        if crate::text::is_ws(b[0]) {
            assert(b.push(c)[0] == b[0]);
            assert(b.push(c).drop_first() =~= b.drop_first().push(c));
            lemma_trim_start_push(b.drop_first(), c);
        } else {
            assert(b.push(c)[0] == b[0]);
            assert(crate::text::trim_start(b.push(c)) == b.push(c));
            assert(crate::text::trim_start(b) == b);
        }
    }
}

} // verus!
