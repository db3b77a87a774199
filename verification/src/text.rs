//! Character-level text utilities shared by the document and manifest
//! parsers: whitespace trimming, line splitting, and the code-marker scan.

use vstd::prelude::*;
use vstd::string::StrSliceExecFns;

verus! {

/// Whitespace as this format trims it.
pub open spec fn is_ws(c: char) -> bool {
    c == ' ' || c == '\t' || c == '\n' || c == '\r'
}

pub fn ws_char(c: char) -> (r: bool)
    ensures
        r == is_ws(c),
{
    c == ' ' || c == '\t' || c == '\n' || c == '\r'
}

pub open spec fn trim_start(s: Seq<char>) -> Seq<char>
    decreases s.len(),
{
    if s.len() > 0 && is_ws(s[0]) {
        trim_start(s.drop_first())
    } else {
        s
    }
}

pub open spec fn trim_end(s: Seq<char>) -> Seq<char>
    decreases s.len(),
{
    if s.len() > 0 && is_ws(s.last()) {
        trim_end(s.drop_last())
    } else {
        s
    }
}

/// Leading and trailing whitespace removed.
pub open spec fn trim(s: Seq<char>) -> Seq<char> {
    trim_end(trim_start(s))
}

pub proof fn lemma_trim_start_at(s: Seq<char>, k: int)
    requires
        0 <= k <= s.len(),
        forall|j: int| 0 <= j < k ==> is_ws(s[j]),
        k < s.len() ==> !is_ws(s[k]),
    ensures
        trim_start(s) == s.subrange(k, s.len() as int),
    decreases k,
{
    if k == 0 {
        assert(trim_start(s) == s.subrange(0, s.len() as int)) by {
            if s.len() > 0 && is_ws(s[0]) {
                assert(false);
            }
            assert(s.subrange(0, s.len() as int) =~= s);
        }
    } else {
        let d = s.drop_first();
        assert(forall|j: int| 0 <= j < k - 1 ==> is_ws(d[j]));
        lemma_trim_start_at(d, k - 1);
        assert(d.subrange(k - 1, d.len() as int) =~= s.subrange(k, s.len() as int));
    }
}

pub proof fn lemma_trim_end_at(s: Seq<char>, h: int)
    requires
        0 <= h <= s.len(),
        forall|j: int| h <= j < s.len() ==> is_ws(s[j]),
        h > 0 ==> !is_ws(s[h - 1]),
    ensures
        trim_end(s) == s.subrange(0, h),
    decreases s.len(),
{
    if h == s.len() {
        if s.len() > 0 && is_ws(s.last()) {
            assert(false);
        }
        assert(s.subrange(0, h) =~= s);
    } else {
        let d = s.drop_last();
        assert(is_ws(s.last()));
        lemma_trim_end_at(d, h);
        assert(d.subrange(0, h) =~= s.subrange(0, h));
    }
}

/// Copies `v[from..to]` out as a fresh vector.
pub fn copy_range(v: &Vec<char>, from: usize, to: usize) -> (r: Vec<char>)
    requires
        from <= to <= v@.len(),
    ensures
        r@ == v@.subrange(from as int, to as int),
{
    let mut r: Vec<char> = Vec::new();
    let mut i: usize = from;
    while i < to
        invariant
            from <= i <= to <= v@.len(),
            r@.len() == i - from,
            forall|j: int| 0 <= j < r@.len() ==> r@[j] == v@[from + j],
        decreases to - i,
    {
        r.push(v[i]);
        i = i + 1;
    }
    assert(r@ =~= v@.subrange(from as int, to as int));
    r
}

/// Appends all of `src` to `dst`.
pub fn append_chars(dst: &mut Vec<char>, src: &Vec<char>)
    ensures
        final(dst)@ == old(dst)@ + src@,
{
    let mut i: usize = 0;
    while i < src.len()
        invariant
            i <= src@.len(),
            dst@ == old(dst)@ + src@.subrange(0, i as int),
        decreases src@.len() - i,
    {
        dst.push(src[i]);
        assert(old(dst)@ + src@.subrange(0, i as int) + seq![src@[i as int]] =~= old(dst)@
            + src@.subrange(0, i + 1));
        i = i + 1;
    }
    assert(dst@ =~= old(dst)@ + src@);
}

/// Trims leading and trailing whitespace from a character vector.
pub fn trim_chars(v: &Vec<char>) -> (r: Vec<char>)
    ensures
        r@ == trim(v@),
{
    let n = v.len();
    let mut lo: usize = 0;
    while lo < n && ws_char(v[lo])
        invariant
            lo <= n == v@.len(),
            forall|j: int| 0 <= j < lo ==> is_ws(v@[j]),
        decreases n - lo,
    {
        lo = lo + 1;
    }
    let mut hi: usize = n;
    while hi > lo && ws_char(v[hi - 1])
        invariant
            lo <= hi <= n == v@.len(),
            forall|j: int| hi <= j < n ==> is_ws(v@[j]),
        decreases hi,
    {
        hi = hi - 1;
    }
    proof {
        lemma_trim_start_at(v@, lo as int);
        let t = v@.subrange(lo as int, n as int);
        lemma_trim_end_at(t, hi - lo);
        assert(t.subrange(0, hi - lo) =~= v@.subrange(lo as int, hi as int));
    }
    copy_range(v, lo, hi)
}

/// The characters of a string, in order.
pub fn str_chars(s: &str) -> (r: Vec<char>)
    ensures
        r@ == s@,
{
    let n = s.unicode_len();
    let mut r: Vec<char> = Vec::new();
    let mut i: usize = 0;
    while i < n
        invariant
            n == s@.len(),
            i <= n,
            r@.len() == i,
            forall|j: int| 0 <= j < i ==> r@[j] == s@[j],
        decreases n - i,
    {
        r.push(s.get_char(i));
        i = i + 1;
    }
    assert(r@ =~= s@);
    r
}

/// Relies on std's `String::push`: appends one character to the string.
#[verifier::external_body]
pub fn push_char(s: &mut String, c: char)
    ensures
        final(s)@ == old(s)@.push(c),
{
    s.push(c);
}

/// A string holding exactly the given characters.
pub fn chars_string(v: &Vec<char>) -> (r: String)
    ensures
        r@ == v@,
{
    let mut s = String::new();
    let mut i: usize = 0;
    while i < v.len()
        invariant
            i <= v@.len(),
            s@ == v@.subrange(0, i as int),
        decreases v@.len() - i,
    {
        push_char(&mut s, v[i]);
        assert(v@.subrange(0, i as int).push(v@[i as int]) =~= v@.subrange(0, i + 1));
        i = i + 1;
    }
    assert(s@ =~= v@);
    s
}

/// The marker token that separates the metadata section from the code body.
pub open spec fn marker() -> Seq<char> {
    seq!['-', '-', '!', 'c', 'o', 'd', 'e']
}

/// The marker occurs in `l` starting at index `i`.
pub open spec fn marker_at(l: Seq<char>, i: int) -> bool {
    0 <= i && i + 7 <= l.len() && l.subrange(i, i + 7) == marker()
}

/// The line contains the marker token somewhere.
pub open spec fn has_marker(l: Seq<char>) -> bool {
    exists|i: int| marker_at(l, i)
}

fn marker_match(l: &Vec<char>, i: usize) -> (r: bool)
    requires
        i + 7 <= l@.len(),
    ensures
        r == marker_at(l@, i as int),
{
    let n = l.len();
    let r = l[i] == '-' && l[i + 1] == '-' && l[i + 2] == '!' && l[i + 3] == 'c' && l[i + 4] == 'o'
        && l[i + 5] == 'd' && l[i + 6] == 'e';
    proof {
        if r {
            assert(l@.subrange(i as int, i + 7) =~= marker());
        } else {
            if l@.subrange(i as int, i + 7) == marker() {
                assert(l@[i as int] == marker()[0]);
                assert(l@[i + 1] == marker()[1]);
                assert(l@[i + 2] == marker()[2]);
                assert(l@[i + 3] == marker()[3]);
                assert(l@[i + 4] == marker()[4]);
                assert(l@[i + 5] == marker()[5]);
                assert(l@[i + 6] == marker()[6]);
            }
        }
    }
    r
}

/// Whether the line contains the `--!code` marker token.
pub fn contains_marker(l: &Vec<char>) -> (r: bool)
    ensures
        r == has_marker(l@),
{
    if l.len() < 7 {
        proof {
            if has_marker(l@) {
                let i = choose|i: int| marker_at(l@, i);
                assert(false);
            }
        }
        return false;
    }
    let stop = l.len() - 7;
    let mut i: usize = 0;
    loop
        invariant
            7 <= l@.len() <= usize::MAX,
            stop == l@.len() - 7,
            i <= stop + 1,
            forall|j: int| 0 <= j < i ==> !marker_at(l@, j),
        decreases stop + 1 - i,
    {
        if i > stop {
            proof {
                if has_marker(l@) {
                    let w = choose|w: int| marker_at(l@, w);
                    assert(!marker_at(l@, w));
                }
            }
            return false;
        }
        if marker_match(l, i) {
            return true;
        }
        assert(i <= stop < usize::MAX);
        i = i + 1;
    }
}

/// Index of the first `'\n'` at or after `i`, or the length when none.
pub open spec fn find_nl(s: Seq<char>, i: int) -> int
    decreases s.len() - i,
    when 0 <= i <= s.len()
{
    if i < s.len() {
        if s[i] == '\n' {
            i
        } else {
            find_nl(s, i + 1)
        }
    } else {
        i
    }
}

pub proof fn lemma_find_nl_at(s: Seq<char>, k: int)
    requires
        0 <= k <= s.len(),
        forall|j: int| 0 <= j < k ==> s[j] != '\n',
        k < s.len() ==> s[k] == '\n',
    ensures
        find_nl(s, 0) == k,
    decreases k,
{
    lemma_find_nl_from(s, 0, k);
}

proof fn lemma_find_nl_from(s: Seq<char>, i: int, k: int)
    requires
        0 <= i <= k <= s.len(),
        forall|j: int| i <= j < k ==> s[j] != '\n',
        k < s.len() ==> s[k] == '\n',
    ensures
        find_nl(s, i) == k,
    decreases k - i,
{
    if i < k {
        lemma_find_nl_from(s, i + 1, k);
    }
}

/// A line with a trailing carriage return removed, as line splitting strips
/// it before a line feed.
pub open spec fn chop_cr(l: Seq<char>) -> Seq<char> {
    if l.len() > 0 && l.last() == '\r' {
        l.drop_last()
    } else {
        l
    }
}

/// The lines of a text: split at `'\n'`, a `'\r'` directly before the split
/// dropped, a final line without a terminator kept.
pub open spec fn spec_lines(s: Seq<char>) -> Seq<Seq<char>>
    decreases s.len(),
    via spec_lines_dec
{
    if s.len() == 0 {
        Seq::empty()
    } else {
        let n = find_nl(s, 0);
        let line = chop_cr(s.subrange(0, n));
        if n == s.len() {
            seq![line]
        } else {
            seq![line] + spec_lines(s.subrange(n + 1, s.len() as int))
        }
    }
}

#[via_fn]
proof fn spec_lines_dec(s: Seq<char>) {
    if s.len() > 0 {
        lemma_find_nl_bounds(s, 0);
    }
}

pub proof fn lemma_find_nl_chars(s: Seq<char>, i: int)
    requires
        0 <= i <= s.len(),
    ensures
        i <= find_nl(s, i) <= s.len(),
        find_nl(s, i) < s.len() ==> s[find_nl(s, i)] == '\n',
        forall|j: int| i <= j < find_nl(s, i) ==> s[j] != '\n',
    decreases s.len() - i,
{
    if i < s.len() && s[i] != '\n' {
        lemma_find_nl_chars(s, i + 1);
    }
}

proof fn lemma_find_nl_bounds(s: Seq<char>, i: int)
    requires
        0 <= i <= s.len(),
    ensures
        i <= find_nl(s, i) <= s.len(),
        find_nl(s, i) < s.len() ==> s[find_nl(s, i)] == '\n',
    decreases s.len() - i,
{
    if i < s.len() && s[i] != '\n' {
        lemma_find_nl_bounds(s, i + 1);
    }
}

/// Index of the first line containing the marker, or the number of lines
/// when none does.
pub open spec fn first_marker(ls: Seq<Seq<char>>) -> int
    decreases ls.len(),
{
    if ls.len() == 0 {
        0
    } else if has_marker(ls[0]) {
        0
    } else {
        1 + first_marker(ls.drop_first())
    }
}

pub proof fn lemma_first_marker_at(ls: Seq<Seq<char>>, k: int)
    requires
        0 <= k <= ls.len(),
        forall|j: int| 0 <= j < k ==> !has_marker(ls[j]),
        k < ls.len() ==> has_marker(ls[k]),
    ensures
        first_marker(ls) == k,
    decreases k,
{
    if ls.len() == 0 {
    } else if k == 0 {
    } else {
        let d = ls.drop_first();
        assert(forall|j: int| 0 <= j < k - 1 ==> ls[j + 1] == d[j] && !has_marker(ls[j + 1]));
        lemma_first_marker_at(d, k - 1);
    }
}

/// The lines joined back, each followed by one `'\n'`.
pub open spec fn join_nl(ls: Seq<Seq<char>>) -> Seq<char>
    decreases ls.len(),
{
    if ls.len() == 0 {
        Seq::empty()
    } else {
        ls[0].push('\n') + join_nl(ls.drop_first())
    }
}

proof fn lemma_join_nl_snoc(ls: Seq<Seq<char>>, l: Seq<char>)
    ensures
        join_nl(ls.push(l)) == join_nl(ls) + l.push('\n'),
    decreases ls.len(),
{
    if ls.len() == 0 {
        assert(ls.push(l)[0] == l);
        assert(ls.push(l).drop_first() =~= Seq::<Seq<char>>::empty());
        assert(join_nl(ls.push(l)) == l.push('\n') + join_nl(Seq::<Seq<char>>::empty()));
        assert(l.push('\n') + join_nl(Seq::<Seq<char>>::empty()) =~= join_nl(ls) + l.push('\n'));
    } else {
        assert(ls.push(l).drop_first() =~= ls.drop_first().push(l));
        lemma_join_nl_snoc(ls.drop_first(), l);
        assert(join_nl(ls.push(l)) == ls[0].push('\n') + (join_nl(ls.drop_first()) + l.push(
            '\n',
        )));
        assert(ls[0].push('\n') + (join_nl(ls.drop_first()) + l.push('\n')) =~= (ls[0].push('\n')
            + join_nl(ls.drop_first())) + l.push('\n'));
    }
}

/// The views of a list of lines.
pub open spec fn views(ls: Seq<Vec<char>>) -> Seq<Seq<char>> {
    ls.map(|i: int, l: Vec<char>| l@)
}

/// Splitting one document at the first marker line: the metadata text above
/// it (newline-terminated lines) and the code text below it. The marker line
/// itself is discarded; without a marker the code text is empty.
pub open spec fn split_doc(s: Seq<char>) -> (Seq<char>, Seq<char>) {
    let ls = spec_lines(s);
    let k = first_marker(ls);
    if k == ls.len() {
        (join_nl(ls), Seq::empty())
    } else {
        (join_nl(ls.subrange(0, k)), join_nl(ls.subrange(k + 1, ls.len() as int)))
    }
}

/// The lines of the character vector.
pub(crate) fn doc_lines(v: &Vec<char>) -> (r: Vec<Vec<char>>)
    ensures
        views(r@) == spec_lines(v@),
{
    let len = v.len();
    let mut r: Vec<Vec<char>> = Vec::new();
    let mut pos: usize = 0;
    proof {
        assert(views(r@) =~= Seq::<Seq<char>>::empty());
        assert(v@.subrange(0, len as int) =~= v@);
    }
    while pos < len
        invariant
            pos <= len,
            len == v@.len() <= usize::MAX,
            spec_lines(v@) =~= views(r@) + spec_lines(
                v@.subrange(pos as int, len as int),
            ),
        decreases len - pos,
    {
        let ghost sub = v@.subrange(pos as int, len as int);
        let ghost r_old = views(r@);
        let mut n: usize = pos;
        while n < len && v[n] != '\n'
            invariant
                pos <= n <= len == v@.len(),
                forall|j: int| pos <= j < n ==> v@[j] != '\n',
            decreases len - n,
        {
            n = n + 1;
        }
        let mut line = copy_range(v, pos, n);
        if line.len() > 0 && line[line.len() - 1] == '\r' {
            line.pop();
        }
        proof {
            assert(forall|j: int|
                0 <= j < n - pos ==> sub[j] == v@[pos + j] && sub[j] != '\n');
            if n < len {
                assert(sub[n - pos] == '\n');
            }
            lemma_find_nl_at(sub, n - pos);
            assert(sub.subrange(0, n - pos) =~= v@.subrange(pos as int, n as int));
            assert(line@ == chop_cr(sub.subrange(0, n - pos)));
        }
        r.push(line);
        proof {
            assert(views(r@) =~= r_old.push(line@));
            if n == len {
                assert(spec_lines(sub) == seq![line@]);
                assert(r_old + spec_lines(sub) =~= views(r@));
                assert(v@.subrange(len as int, len as int) =~= Seq::<char>::empty());
            } else {
                assert(sub.subrange(n - pos + 1, sub.len() as int) =~= v@.subrange(
                    n + 1,
                    len as int,
                ));
                assert(spec_lines(sub) == seq![line@] + spec_lines(
                    v@.subrange(n + 1, len as int),
                ));
                assert(r_old + spec_lines(sub) =~= views(r@) + spec_lines(
                    v@.subrange(n + 1, len as int),
                ));
            }
        }
        if n == len {
            pos = len;
        } else {
            pos = n + 1;
        }
    }
    proof {
        assert(v@.subrange(pos as int, len as int) =~= Seq::<char>::empty());
        assert(views(r@) + spec_lines(Seq::<char>::empty()) =~= views(r@));
    }
    r
}

/// Index of the first marker line, or the line count when none has one.
fn find_marker_line(ls: &Vec<Vec<char>>) -> (k: usize)
    ensures
        k == first_marker(views(ls@)),
        k <= views(ls@).len(),
{
    let mut i: usize = 0;
    while i < ls.len()
        invariant
            i <= ls@.len(),
            views(ls@).len() == ls@.len(),
            forall|j: int| 0 <= j < i ==> !has_marker(views(ls@)[j]),
        decreases ls@.len() - i,
    {
        assert(views(ls@)[i as int] == ls@[i as int]@);
        if contains_marker(&ls[i]) {
            proof {
                lemma_first_marker_at(views(ls@), i as int);
            }
            return i;
        }
        i = i + 1;
    }
    proof {
        lemma_first_marker_at(views(ls@), views(ls@).len() as int);
    }
    i
}

/// Joins the lines `ls[from..to]`, each followed by one `'\n'`.
fn join_range(ls: &Vec<Vec<char>>, from: usize, to: usize) -> (r: Vec<char>)
    requires
        from <= to <= ls@.len(),
    ensures
        r@ == join_nl(views(ls@).subrange(from as int, to as int)),
{
    let mut r: Vec<char> = Vec::new();
    let mut i: usize = from;
    proof {
        assert(views(ls@).subrange(from as int, from as int) =~= Seq::<Seq<char>>::empty());
    }
    while i < to
        invariant
            from <= i <= to <= ls@.len(),
            views(ls@).len() == ls@.len(),
            r@ == join_nl(views(ls@).subrange(from as int, i as int)),
        decreases to - i,
    {
        let ghost pre = views(ls@).subrange(from as int, i as int);
        append_chars(&mut r, &ls[i]);
        r.push('\n');
        proof {
            assert(views(ls@)[i as int] == ls@[i as int]@);
            lemma_join_nl_snoc(pre, ls@[i as int]@);
            assert(views(ls@).subrange(from as int, i + 1) =~= pre.push(ls@[i as int]@));
            assert(r@ =~= join_nl(pre) + ls@[i as int]@.push('\n'));
        }
        i = i + 1;
    }
    r
}

/// Splits one raw document at the first marker line, per `split_doc`.
pub fn split_document(v: &Vec<char>) -> (r: (Vec<char>, Vec<char>))
    ensures
        (r.0@, r.1@) == split_doc(v@),
{
    let ls = doc_lines(v);
    let k = find_marker_line(&ls);
    proof {
        assert(views(ls@).len() == ls@.len());
    }
    if k == ls.len() {
        let above = join_range(&ls, 0, k);
        proof {
            assert(views(ls@).subrange(0, k as int) =~= views(ls@));
        }
        (above, Vec::new())
    } else {
        let above = join_range(&ls, 0, k);
        let below = join_range(&ls, k + 1, ls.len());
        (above, below)
    }
}

} // verus!
