//! The remote manifest document: a line-oriented notation with `[section]`
//! headers and `key = value` entries, where a value is a double-quoted
//! string or a bracketed list of such strings, and a `#` line is a comment.
//! The manifest names the remote templates and where to fetch them; all of
//! its required keys must be present.

use vstd::prelude::*;
use vstd::string::StringExecFns;
use crate::text::{trim, spec_lines, views};
use crate::parser::{skip_ws, ident_end, p_string};
use crate::registry::RemoteError;
use crate::template::{Origin, Template, TemplateData};

verus! {

/// A decoded manifest.
#[derive(Debug)]
pub struct Manifest {
    pub version: String,
    pub bin_version: String,
    pub template_path: String,
    pub templates: Vec<String>,
    pub crates: Vec<String>,
    pub repos: Vec<String>,
}

/// Mathematical model of a manifest.
pub struct ManifestData {
    pub version: Seq<char>,
    pub bin_version: Seq<char>,
    pub template_path: Seq<char>,
    pub templates: Seq<Seq<char>>,
    pub crates: Seq<Seq<char>>,
    pub repos: Seq<Seq<char>>,
}

pub open spec fn string_views(ss: Seq<String>) -> Seq<Seq<char>> {
    ss.map(|i: int, s: String| s@)
}

impl View for Manifest {
    type V = ManifestData;

    open spec fn view(&self) -> ManifestData {
        ManifestData {
            version: self.version@,
            bin_version: self.bin_version@,
            template_path: self.template_path@,
            templates: string_views(self.templates@),
            crates: string_views(self.crates@),
            repos: string_views(self.repos@),
        }
    }
}

/// The items of a bracketed string list after the opening bracket.
pub open spec fn p_list_items(s: Seq<char>, i: int, acc: Seq<Seq<char>>) -> Option<
    (Seq<Seq<char>>, int),
>
    decreases s.len() - i,
    when 0 <= i <= s.len()
    via p_list_items_dec
{
    let j = skip_ws(s, i);
    if j >= s.len() {
        None
    } else if s[j] == ']' {
        Some((acc, j + 1))
    } else {
        match p_string(s, j) {
            None => None,
            Some((v, j2)) => {
                let j3 = skip_ws(s, j2);
                if j3 < s.len() && s[j3] == ',' {
                    p_list_items(s, j3 + 1, acc.push(v))
                } else if j3 < s.len() && s[j3] == ']' {
                    Some((acc.push(v), j3 + 1))
                } else {
                    None
                }
            },
        }
    }
}

#[via_fn]
proof fn p_list_items_dec(s: Seq<char>, i: int, acc: Seq<Seq<char>>) {
    crate::parser::lemma_skip_ws(s, i);
    let j = skip_ws(s, i);
    crate::parser::lemma_p_string(s, j);
    match p_string(s, j) {
        Some((v, j2)) => crate::parser::lemma_skip_ws(s, j2),
        None => (),
    }
}

/// A value on a manifest line: one string or a list of strings.
pub enum ManVal {
    One(Seq<char>),
    Many(Seq<Seq<char>>),
}

/// The value beginning at `i`.
pub open spec fn p_man_value(s: Seq<char>, i: int) -> Option<(ManVal, int)> {
    if 0 <= i < s.len() && s[i] == '"' {
        match p_string(s, i) {
            None => None,
            Some((v, j)) => Some((ManVal::One(v), j)),
        }
    } else if 0 <= i < s.len() && s[i] == '[' {
        match p_list_items(s, i + 1, Seq::empty()) {
            None => None,
            Some((vs, j)) => Some((ManVal::Many(vs), j)),
        }
    } else {
        None
    }
}

/// What one manifest line says.
pub enum ManLine {
    Blank,
    Section(Seq<char>),
    KeyVal(Seq<char>, ManVal),
    Bad,
}

/// Classifies one line: blank or comment, a `[section]` header, or a
/// `key = value` entry filling the whole line.
pub open spec fn man_line(l: Seq<char>) -> ManLine {
    let t = trim(l);
    if t.len() == 0 {
        ManLine::Blank
    } else if t[0] == '#' {
        ManLine::Blank
    } else if t[0] == '[' {
        let e = ident_end(t, 1);
        if e > 1 && e < t.len() && t[e] == ']' && e + 1 == t.len() {
            ManLine::Section(t.subrange(1, e))
        } else {
            ManLine::Bad
        }
    } else {
        let e = ident_end(t, 0);
        if e == 0 {
            ManLine::Bad
        } else {
            let name = t.subrange(0, e);
            let j = skip_ws(t, e);
            if j < t.len() && t[j] == '=' {
                let j2 = skip_ws(t, j + 1);
                match p_man_value(t, j2) {
                    None => ManLine::Bad,
                    Some((v, j3)) => if skip_ws(t, j3) == t.len() {
                        ManLine::KeyVal(name, v)
                    } else {
                        ManLine::Bad
                    },
                }
            } else {
                ManLine::Bad
            }
        }
    }
}

/// Which section the fold is inside.
pub enum Sect {
    Top,
    Config,
    Data,
    Other,
}

pub open spec fn kw_bevyinit() -> Seq<char> {
    seq!['b', 'e', 'v', 'y', 'i', 'n', 'i', 't']
}

pub open spec fn kw_data() -> Seq<char> {
    seq!['d', 'a', 't', 'a']
}

pub open spec fn kw_version() -> Seq<char> {
    seq!['v', 'e', 'r', 's', 'i', 'o', 'n']
}

pub open spec fn kw_bin_version() -> Seq<char> {
    seq!['b', 'i', 'n', '_', 'v', 'e', 'r', 's', 'i', 'o', 'n']
}

pub open spec fn kw_template_path() -> Seq<char> {
    seq!['t', 'e', 'm', 'p', 'l', 'a', 't', 'e', '_', 'p', 'a', 't', 'h']
}

pub open spec fn kw_templates() -> Seq<char> {
    seq!['t', 'e', 'm', 'p', 'l', 'a', 't', 'e', 's']
}

pub open spec fn kw_crates() -> Seq<char> {
    seq!['c', 'r', 'a', 't', 'e', 's']
}

pub open spec fn kw_repos() -> Seq<char> {
    seq!['r', 'e', 'p', 'o', 's']
}

/// Keys gathered so far; `None` marks a key not seen yet.
pub struct ManAcc {
    pub version: Option<Seq<char>>,
    pub bin_version: Option<Seq<char>>,
    pub template_path: Option<Seq<char>>,
    pub templates: Option<Seq<Seq<char>>>,
    pub crates: Option<Seq<Seq<char>>>,
    pub repos: Option<Seq<Seq<char>>>,
}

pub open spec fn man_empty() -> ManAcc {
    ManAcc {
        version: None,
        bin_version: None,
        template_path: None,
        templates: None,
        crates: None,
        repos: None,
    }
}

/// Applies one `key = value` entry under the current section. A recognized
/// key seen twice, or one whose value has the wrong shape, is a decode
/// failure; keys of other sections and unknown keys are ignored.
pub open spec fn man_apply(sect: Sect, name: Seq<char>, v: ManVal, acc: ManAcc) -> Option<ManAcc> {
    match sect {
        Sect::Config => if name == kw_version() {
            match (v, acc.version) {
                (ManVal::One(s), None) => Some(ManAcc { version: Some(s), ..acc }),
                _ => None,
            }
        } else if name == kw_bin_version() {
            match (v, acc.bin_version) {
                (ManVal::One(s), None) => Some(ManAcc { bin_version: Some(s), ..acc }),
                _ => None,
            }
        } else if name == kw_template_path() {
            match (v, acc.template_path) {
                (ManVal::One(s), None) => Some(ManAcc { template_path: Some(s), ..acc }),
                _ => None,
            }
        } else {
            Some(acc)
        },
        Sect::Data => if name == kw_templates() {
            match (v, acc.templates) {
                (ManVal::Many(ss), None) => Some(ManAcc { templates: Some(ss), ..acc }),
                _ => None,
            }
        } else if name == kw_crates() {
            match (v, acc.crates) {
                (ManVal::Many(ss), None) => Some(ManAcc { crates: Some(ss), ..acc }),
                _ => None,
            }
        } else if name == kw_repos() {
            match (v, acc.repos) {
                (ManVal::Many(ss), None) => Some(ManAcc { repos: Some(ss), ..acc }),
                _ => None,
            }
        } else {
            Some(acc)
        },
        _ => Some(acc),
    }
}

/// Folds the manifest lines from `i` on.
pub open spec fn man_fold(ls: Seq<Seq<char>>, i: int, sect: Sect, acc: ManAcc) -> Option<ManAcc>
    decreases ls.len() - i,
    when 0 <= i <= ls.len()
{
    if i >= ls.len() {
        Some(acc)
    } else {
        match man_line(ls[i]) {
            ManLine::Bad => None,
            ManLine::Blank => man_fold(ls, i + 1, sect, acc),
            ManLine::Section(name) => man_fold(
                ls,
                i + 1,
                if name == kw_bevyinit() {
                    Sect::Config
                } else if name == kw_data() {
                    Sect::Data
                } else {
                    Sect::Other
                },
                acc,
            ),
            ManLine::KeyVal(name, v) => match man_apply(sect, name, v, acc) {
                None => None,
                Some(acc2) => man_fold(ls, i + 1, sect, acc2),
            },
        }
    }
}

/// Decodes a whole manifest text; every required key must be present.
pub open spec fn spec_parse_manifest(s: Seq<char>) -> Option<ManifestData> {
    match man_fold(spec_lines(s), 0, Sect::Top, man_empty()) {
        None => None,
        Some(acc) => match (acc.version, acc.bin_version, acc.template_path) {
            (Some(ver), Some(bv), Some(tp)) => match (acc.templates, acc.crates, acc.repos) {
                (Some(ts), Some(cs), Some(rs)) => Some(
                    ManifestData {
                        version: ver,
                        bin_version: bv,
                        template_path: tp,
                        templates: ts,
                        crates: cs,
                        repos: rs,
                    },
                ),
                _ => None,
            },
            _ => None,
        },
    }
}

fn ex_list_items(v: &Vec<char>, i: usize, acc: Vec<String>) -> (r: Option<(Vec<String>, usize)>)
    requires
        i <= v@.len(),
    ensures
        ({
            let sp = p_list_items(v@, i as int, string_views(acc@));
            match r {
                None => sp is None,
                Some(p) => sp == Some((string_views(p.0@), p.1 as int)),
            }
        }),
    decreases v@.len() - i,
{
    let j = crate::parser::ex_skip_ws(v, i);
    if j >= v.len() {
        return None;
    }
    if v[j] == ']' {
        return Some((acc, j + 1));
    }
    match crate::parser::ex_string(v, j) {
        None => None,
        Some((item, j2)) => {
            let s = crate::text::chars_string(&item);
            let ghost s0 = s@;
            let ghost sv0 = string_views(acc@);
            let mut acc = acc;
            acc.push(s);
            proof {
                assert(string_views(acc@) =~= sv0.push(s0));
            }
            let j3 = crate::parser::ex_skip_ws(v, j2);
            if j3 < v.len() && v[j3] == ',' {
                ex_list_items(v, j3 + 1, acc)
            } else if j3 < v.len() && v[j3] == ']' {
                Some((acc, j3 + 1))
            } else {
                None
            }
        },
    }
}

/// An executable manifest-line value.
enum ManValEx {
    One(Vec<char>),
    Many(Vec<String>),
}

impl ManValEx {
    spec fn model(&self) -> ManVal {
        match self {
            ManValEx::One(s) => ManVal::One(s@),
            ManValEx::Many(ss) => ManVal::Many(string_views(ss@)),
        }
    }
}

fn ex_man_value(v: &Vec<char>, i: usize) -> (r: Option<(ManValEx, usize)>)
    requires
        i <= v@.len(),
    ensures
        ({
            let sp = p_man_value(v@, i as int);
            match r {
                None => sp is None,
                Some(p) => sp == Some((p.0.model(), p.1 as int)) && p.1 <= v@.len(),
            }
        }),
{
    if i < v.len() && v[i] == '"' {
        proof {
            crate::parser::lemma_p_string(v@, i as int);
        }
        match crate::parser::ex_string(v, i) {
            None => None,
            Some((s, j)) => Some((ManValEx::One(s), j)),
        }
    } else if i < v.len() && v[i] == '[' {
        proof {
            assert(string_views(Seq::<String>::empty()) =~= Seq::<Seq<char>>::empty());
        }
        match ex_list_items(v, i + 1, Vec::new()) {
            None => None,
            Some((ss, j)) => {
                proof {
                    lemma_p_list_items(v@, i + 1, Seq::empty());
                }
                Some((ManValEx::Many(ss), j))
            },
        }
    } else {
        None
    }
}

proof fn lemma_p_list_items(s: Seq<char>, i: int, acc: Seq<Seq<char>>)
    requires
        0 <= i <= s.len(),
    ensures
        p_list_items(s, i, acc) matches Some(p) ==> i < p.1 <= s.len(),
    decreases s.len() - i,
{
    crate::parser::lemma_skip_ws(s, i);
    let j = skip_ws(s, i);
    crate::parser::lemma_p_string(s, j);
    if j < s.len() && s[j] != ']' {
        match p_string(s, j) {
            Some((item, j2)) => {
                crate::parser::lemma_skip_ws(s, j2);
                let j3 = skip_ws(s, j2);
                if j3 < s.len() && s[j3] == ',' {
                    lemma_p_list_items(s, j3 + 1, acc.push(item));
                }
            },
            None => (),
        }
    }
}

/// An executable manifest-line classification.
enum ManLineEx {
    Blank,
    Section(Vec<char>),
    KeyVal(Vec<char>, ManValEx),
    Bad,
}

impl ManLineEx {
    spec fn model(&self) -> ManLine {
        match self {
            ManLineEx::Blank => ManLine::Blank,
            ManLineEx::Section(s) => ManLine::Section(s@),
            ManLineEx::KeyVal(n, v) => ManLine::KeyVal(n@, v.model()),
            ManLineEx::Bad => ManLine::Bad,
        }
    }
}

fn ex_man_line(l: &Vec<char>) -> (r: ManLineEx)
    ensures
        r.model() == man_line(l@),
{
    let t = crate::text::trim_chars(l);
    if t.len() == 0 {
        return ManLineEx::Blank;
    }
    if t[0] == '#' {
        return ManLineEx::Blank;
    }
    if t[0] == '[' {
        let e = crate::parser::ex_ident_end(&t, 1);
        if e > 1 && e < t.len() && t[e] == ']' && e + 1 == t.len() {
            let name = crate::text::copy_range(&t, 1, e);
            return ManLineEx::Section(name);
        } else {
            return ManLineEx::Bad;
        }
    }
    let e = crate::parser::ex_ident_end(&t, 0);
    if e == 0 {
        return ManLineEx::Bad;
    }
    let name = crate::text::copy_range(&t, 0, e);
    let j = crate::parser::ex_skip_ws(&t, e);
    if j < t.len() && t[j] == '=' {
        let j2 = crate::parser::ex_skip_ws(&t, j + 1);
        match ex_man_value(&t, j2) {
            None => ManLineEx::Bad,
            Some((v, j3)) => {
                let j4 = crate::parser::ex_skip_ws(&t, j3);
                if j4 == t.len() {
                    ManLineEx::KeyVal(name, v)
                } else {
                    ManLineEx::Bad
                }
            },
        }
    } else {
        ManLineEx::Bad
    }
}

spec fn sect_of(in_top: bool, in_config: bool, in_data: bool) -> Sect {
    if in_config {
        Sect::Config
    } else if in_data {
        Sect::Data
    } else if in_top {
        Sect::Top
    } else {
        Sect::Other
    }
}

spec fn opt_chars(o: Option<Vec<char>>) -> Option<Seq<char>> {
    match o {
        Some(x) => Some(x@),
        None => None,
    }
}

spec fn opt_strings(o: Option<Vec<String>>) -> Option<Seq<Seq<char>>> {
    match o {
        Some(x) => Some(string_views(x@)),
        None => None,
    }
}

spec fn acc_of(
    version: Option<Vec<char>>,
    bin_version: Option<Vec<char>>,
    template_path: Option<Vec<char>>,
    templates: Option<Vec<String>>,
    crates: Option<Vec<String>>,
    repos: Option<Vec<String>>,
) -> ManAcc {
    ManAcc {
        version: opt_chars(version),
        bin_version: opt_chars(bin_version),
        template_path: opt_chars(template_path),
        templates: opt_strings(templates),
        crates: opt_strings(crates),
        repos: opt_strings(repos),
    }
}

/// Decodes a manifest document. Any malformed line, duplicated required key,
/// wrongly shaped value, or missing required key is a `ManifestDecodeError`.
pub fn parse_manifest(raw: String) -> (r: Result<Manifest, RemoteError>)
    ensures
        ({
            let sp = spec_parse_manifest(raw@);
            match r {
                Ok(m) => sp == Some(m@),
                Err(e) => sp is None && e == RemoteError::ManifestDecodeError,
            }
        }),
{
    let chars = crate::text::str_chars(raw.as_str());
    let lines = crate::text::doc_lines(&chars);
    let ghost ls = spec_lines(raw@);
    proof {
        assert(views(lines@) == ls);
    }
    let mut version: Option<Vec<char>> = None;
    let mut bin_version: Option<Vec<char>> = None;
    let mut template_path: Option<Vec<char>> = None;
    let mut templates: Option<Vec<String>> = None;
    let mut crates: Option<Vec<String>> = None;
    let mut repos: Option<Vec<String>> = None;
    let mut in_config = false;
    let mut in_data = false;
    let mut in_top = true;
    let mut idx: usize = 0;
    while idx < lines.len()
        invariant
            idx <= lines@.len(),
            views(lines@) == ls,
            ls == spec_lines(raw@),
            man_fold(ls, 0, Sect::Top, man_empty()) == man_fold(
                ls,
                idx as int,
                sect_of(in_top, in_config, in_data),
                acc_of(version, bin_version, template_path, templates, crates, repos),
            ),
        decreases lines@.len() - idx,
    {
        let ghost sect0 = sect_of(in_top, in_config, in_data);
        let ghost acc0 = acc_of(version, bin_version, template_path, templates, crates, repos);
        proof {
            assert(ls[idx as int] == lines@[idx as int]@);
        }
        let line = ex_man_line(&lines[idx]);
        proof {
            assert(man_fold(ls, idx as int, sect0, acc0) == (match man_line(ls[idx as int]) {
                ManLine::Bad => None::<ManAcc>,
                ManLine::Blank => man_fold(ls, idx + 1, sect0, acc0),
                ManLine::Section(name) => man_fold(
                    ls,
                    idx + 1,
                    if name == kw_bevyinit() {
                        Sect::Config
                    } else if name == kw_data() {
                        Sect::Data
                    } else {
                        Sect::Other
                    },
                    acc0,
                ),
                ManLine::KeyVal(name, v) => match man_apply(sect0, name, v, acc0) {
                    None => None::<ManAcc>,
                    Some(acc2) => man_fold(ls, idx + 1, sect0, acc2),
                },
            }));
        }
        match line {
            ManLineEx::Bad => {
                return Err(RemoteError::ManifestDecodeError);
            },
            ManLineEx::Blank => {},
            ManLineEx::Section(name) => {
                proof {
                    reveal_strlit("bevyinit");
                    reveal_strlit("data");
                    assert("bevyinit"@ =~= kw_bevyinit());
                    assert("data"@ =~= kw_data());
                }
                let n = name.len();
                if crate::parser::range_is_lit(&name, 0, n, "bevyinit") {
                    proof {
                        assert(name@.subrange(0, name@.len() as int) =~= name@);
                    }
                    in_config = true;
                    in_data = false;
                    in_top = false;
                } else if crate::parser::range_is_lit(&name, 0, n, "data") {
                    proof {
                        assert(name@.subrange(0, name@.len() as int) =~= name@);
                    }
                    in_config = false;
                    in_data = true;
                    in_top = false;
                } else {
                    proof {
                        assert(name@.subrange(0, name@.len() as int) =~= name@);
                    }
                    in_config = false;
                    in_data = false;
                    in_top = false;
                }
            },
            ManLineEx::KeyVal(name, val) => {
                proof {
                    reveal_strlit("version");
                    reveal_strlit("bin_version");
                    reveal_strlit("template_path");
                    reveal_strlit("templates");
                    reveal_strlit("crates");
                    reveal_strlit("repos");
                    assert("version"@ =~= kw_version());
                    assert("bin_version"@ =~= kw_bin_version());
                    assert("template_path"@ =~= kw_template_path());
                    assert("templates"@ =~= kw_templates());
                    assert("crates"@ =~= kw_crates());
                    assert("repos"@ =~= kw_repos());
                    assert(name@.subrange(0, name@.len() as int) =~= name@);
                }
                let n = name.len();
                if in_config {
                    if crate::parser::range_is_lit(&name, 0, n, "version") {
                        match (val, &version) {
                            (ManValEx::One(s), None) => {
                                version = Some(s);
                            },
                            _ => {
                                return Err(RemoteError::ManifestDecodeError);
                            },
                        }
                    } else if crate::parser::range_is_lit(&name, 0, n, "bin_version") {
                        match (val, &bin_version) {
                            (ManValEx::One(s), None) => {
                                bin_version = Some(s);
                            },
                            _ => {
                                return Err(RemoteError::ManifestDecodeError);
                            },
                        }
                    } else if crate::parser::range_is_lit(&name, 0, n, "template_path") {
                        match (val, &template_path) {
                            (ManValEx::One(s), None) => {
                                template_path = Some(s);
                            },
                            _ => {
                                return Err(RemoteError::ManifestDecodeError);
                            },
                        }
                    }
                } else if in_data {
                    if crate::parser::range_is_lit(&name, 0, n, "templates") {
                        match (val, &templates) {
                            (ManValEx::Many(ss), None) => {
                                templates = Some(ss);
                            },
                            _ => {
                                return Err(RemoteError::ManifestDecodeError);
                            },
                        }
                    } else if crate::parser::range_is_lit(&name, 0, n, "crates") {
                        match (val, &crates) {
                            (ManValEx::Many(ss), None) => {
                                crates = Some(ss);
                            },
                            _ => {
                                return Err(RemoteError::ManifestDecodeError);
                            },
                        }
                    } else if crate::parser::range_is_lit(&name, 0, n, "repos") {
                        match (val, &repos) {
                            (ManValEx::Many(ss), None) => {
                                repos = Some(ss);
                            },
                            _ => {
                                return Err(RemoteError::ManifestDecodeError);
                            },
                        }
                    }
                }
            },
        }
        idx = idx + 1;
    }
    match (version, bin_version, template_path, templates, crates, repos) {
        (Some(ver), Some(bv), Some(tp), Some(ts), Some(cs), Some(rs)) => {
            let m = Manifest {
                version: crate::text::chars_string(&ver),
                bin_version: crate::text::chars_string(&bv),
                template_path: crate::text::chars_string(&tp),
                templates: ts,
                crates: cs,
                repos: rs,
            };
            Ok(m)
        },
        _ => Err(RemoteError::ManifestDecodeError),
    }
}

/// Parses the fetched remote template documents, in manifest order, each with
/// remote origin. The first malformed document aborts the whole remote batch;
/// no placement rule is applied at this layer.
pub open spec fn spec_parse_remote_docs(docs: Seq<Seq<char>>) -> Result<
    Seq<TemplateData>,
    RemoteError,
>
    decreases docs.len(),
{
    if docs.len() == 0 {
        Ok(Seq::empty())
    } else {
        match crate::parser::spec_parse_template(docs[0], Origin::Remote) {
            None => Err(RemoteError::MalformedTemplate),
            Some(td) => match spec_parse_remote_docs(docs.drop_first()) {
                Err(e) => Err(e),
                Ok(ts) => Ok(seq![td] + ts),
            },
        }
    }
}

/// Parses every fetched remote document, aborting on the first malformed one.
pub fn parse_remote_documents(docs: Vec<String>) -> (r: Result<Vec<Template>, RemoteError>)
    ensures
        ({
            let sp = spec_parse_remote_docs(string_views(docs@));
            match r {
                Ok(ts) => sp == Ok::<Seq<TemplateData>, RemoteError>(crate::registry::models(ts@)),
                Err(e) => sp == Err::<Seq<TemplateData>, RemoteError>(e),
            }
        }),
    decreases docs@.len(),
{
    let mut docs = docs;
    if docs.len() == 0 {
        proof {
            assert(string_views(docs@) =~= Seq::<Seq<char>>::empty());
            assert(crate::registry::models(Seq::<Template>::empty()) =~= Seq::<
                TemplateData,
            >::empty());
        }
        return Ok(Vec::new());
    }
    let ghost all = string_views(docs@);
    let first = docs.remove(0);
    proof {
        assert(all[0] == first@);
        assert(string_views(docs@) =~= all.drop_first());
    }
    let t = match crate::parser::parse_template(first, Origin::Remote) {
        Err(_e) => {
            return Err(RemoteError::MalformedTemplate);
        },
        Ok(t) => t,
    };
    match parse_remote_documents(docs) {
        Err(e) => Err(e),
        Ok(ts) => {
            let ghost rest_m = crate::registry::models(ts@);
            let ghost t0 = t@;
            let mut out: Vec<Template> = Vec::new();
            out.push(t);
            let mut ts = ts;
            let mut out = out;
            while ts.len() > 0
                invariant
                    crate::registry::models(out@) + crate::registry::models(ts@) == seq![t0]
                        + rest_m,
                decreases ts@.len(),
            {
                let ghost out0 = crate::registry::models(out@);
                let ghost ts0 = crate::registry::models(ts@);
                let x = ts.remove(0);
                proof {
                    assert(ts0[0] == x@);
                    assert(crate::registry::models(ts@) =~= ts0.drop_first());
                }
                out.push(x);
                proof {
                    assert(crate::registry::models(out@) =~= out0.push(ts0[0]));
                    assert(crate::registry::models(out@) + crate::registry::models(ts@) =~= out0
                        + ts0);
                }
            }
            proof {
                assert(crate::registry::models(ts@) =~= Seq::<TemplateData>::empty());
                assert(crate::registry::models(out@) =~= seq![t0] + rest_m);
            }
            Ok(out)
        },
    }
}

/// The fixed remote base location, versionless and pinned to the data
/// repository's main branch.
pub fn raw_url_base() -> (r: &'static str)
    ensures
        r@ == "https://raw.githubusercontent.com/nigrodev/bevyinit_data/main"@,
{
    "https://raw.githubusercontent.com/nigrodev/bevyinit_data/main"
}

/// The manifest document's location under the base.
pub fn manifest_url() -> (r: String)
    ensures
        r@ == "https://raw.githubusercontent.com/nigrodev/bevyinit_data/main"@ + "/data.toml"@,
{
    let mut s = String::from_str(raw_url_base());
    s.append("/data.toml");
    s
}

/// One template document's location: the base, the manifest's template
/// subdirectory, the template's name, and the document extension.
pub fn template_url(template_path: &str, name: &str) -> (r: String)
    ensures
        r@ == "https://raw.githubusercontent.com/nigrodev/bevyinit_data/main"@ + "/"@
            + template_path@ + "/"@ + name@ + ".ron"@,
{
    let mut s = String::from_str(raw_url_base());
    s.append("/");
    s.append(template_path);
    s.append("/");
    s.append(name);
    s.append(".ron");
    s
}

} // verus!
