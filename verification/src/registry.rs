//! The registry merge: folding parsed templates into one ordered list that
//! honors explicit placement hints, and the graceful-degradation policy for
//! the remote phase.

use vstd::prelude::*;
use vstd::utf8::{valid_utf8, decode_utf8};
use crate::template::{Origin, Template, TemplateData};
use crate::parser::spec_parse_template;

verus! {

/// Errors of the local (bundled) load phase. Both are fatal: no partial local
/// result is ever returned.
#[derive(Clone, Copy, PartialEq, Eq, Structural, Debug)]
pub enum LoadError {
    /// A document's metadata section failed structured decoding.
    MalformedTemplate,
    /// A bundled document is not valid UTF-8 text.
    AssetReadError,
}

/// Errors of the remote phase. All are recoverable: the registry falls back
/// to the local-only list and surfaces a warning.
#[derive(Clone, Copy, PartialEq, Eq, Structural, Debug)]
pub enum RemoteError {
    /// Transport failure reaching the remote base or a template document.
    NetworkError,
    /// The remote manifest document is unparsable.
    ManifestDecodeError,
    /// A fetched template document's metadata section failed decoding.
    MalformedTemplate,
}

/// Where one template lands in the accumulated list: inserted at its
/// placement hint, displacing later entries forward, or appended when it has
/// none. A hint beyond the current end appends.
pub open spec fn seq_place<T>(acc: Seq<T>, hint: Option<usize>, t: T) -> Seq<T> {
    match hint {
        Some(k) => if k <= acc.len() {
            acc.insert(k as int, t)
        } else {
            acc.push(t)
        },
        None => acc.push(t),
    }
}

/// Left fold of `seq_place` over a load-ordered batch of templates.
pub open spec fn spec_fold(acc: Seq<TemplateData>, ts: Seq<TemplateData>) -> Seq<TemplateData>
    decreases ts.len(),
{
    if ts.len() == 0 {
        acc
    } else {
        spec_fold(seq_place(acc, ts[0].force_order, ts[0]), ts.drop_first())
    }
}

/// The models of a list of templates.
pub open spec fn models(ts: Seq<Template>) -> Seq<TemplateData> {
    ts.map(|i: int, t: Template| t@)
}

/// Places one template into the accumulator list, honoring its placement
/// hint.
pub fn merge_one(acc: Vec<Template>, t: Template) -> (r: Vec<Template>)
    ensures
        r@ == seq_place(acc@, t.force_order, t),
{
    let mut acc = acc;
    match t.force_order {
        Some(k) => {
            if k <= acc.len() {
                acc.insert(k, t);
            } else {
                acc.push(t);
            }
        },
        None => {
            acc.push(t);
        },
    }
    acc
}

/// Placing one template commutes with taking models.
pub proof fn lemma_seq_place_models(acc: Seq<Template>, hint: Option<usize>, t: Template)
    ensures
        models(seq_place(acc, hint, t)) =~= seq_place(models(acc), hint, t@),
{
}

/// Placement-hint ordering: templates without a hint keep load order, a
/// hinted template occupies exactly its requested index. Loading `a` (no
/// hint), `b` (hint 0), `c` (no hint) in that order yields `[b, a, c]`.
pub proof fn lemma_placement_ordering(a: TemplateData, b: TemplateData, c: TemplateData)
    requires
        a.force_order is None,
        b.force_order == Some(0usize),
        c.force_order is None,
    ensures
        spec_fold(Seq::<TemplateData>::empty(), seq![a, b, c]) =~= seq![b, a, c],
{
    let e = Seq::<TemplateData>::empty();
    let s = seq![a, b, c];
    assert(seq_place(e, a.force_order, a) =~= seq![a]);
    assert(seq_place(seq![a], b.force_order, b) =~= seq![b, a]);
    assert(seq_place(seq![b, a], c.force_order, c) =~= seq![b, a, c]);
    assert(s.drop_first() =~= seq![b, c]);
    assert(seq![b, c].drop_first() =~= seq![c]);
    assert(seq![c].drop_first() =~= e);
    assert(spec_fold(e, s) == spec_fold(seq![a], seq![b, c]));
    assert(spec_fold(seq![a], seq![b, c]) == spec_fold(seq![b, a], seq![c]));
    assert(spec_fold(seq![b, a], seq![c]) == spec_fold(seq![b, a, c], e));
    assert(spec_fold(seq![b, a, c], e) == seq![b, a, c]);
}

/// Relies on std's `str::from_utf8`: it returns `Ok` exactly on valid UTF-8
/// and decodes those bytes; the result is copied into an owned string.
#[verifier::external_body]
fn bytes_to_string(b: &Vec<u8>) -> (r: Option<String>)
    ensures
        r is Some <==> valid_utf8(b@),
        r matches Some(s) ==> s@ == decode_utf8(b@),
{
    match std::str::from_utf8(b.as_slice()) {
        Ok(s) => Some(s.to_owned()),
        Err(_) => None,
    }
}

/// The byte views of a list of documents.
pub open spec fn doc_views(ds: Seq<Vec<u8>>) -> Seq<Seq<u8>> {
    ds.map(|i: int, d: Vec<u8>| d@)
}

/// Folding raw bundled documents into an accumulated template list: each
/// document must be UTF-8 text whose metadata decodes, and each parsed
/// template is placed by its hint. The first failure aborts the whole load.
pub open spec fn spec_load_acc(acc: Seq<TemplateData>, docs: Seq<Seq<u8>>) -> Result<
    Seq<TemplateData>,
    LoadError,
>
    decreases docs.len(),
{
    if docs.len() == 0 {
        Ok(acc)
    } else if !valid_utf8(docs[0]) {
        Err(LoadError::AssetReadError)
    } else {
        match spec_parse_template(decode_utf8(docs[0]), Origin::Local) {
            None => Err(LoadError::MalformedTemplate),
            Some(td) => spec_load_acc(seq_place(acc, td.force_order, td), docs.drop_first()),
        }
    }
}

/// The local load over all bundled documents, starting from an empty list.
pub open spec fn spec_load_local(docs: Seq<Seq<u8>>) -> Result<Seq<TemplateData>, LoadError> {
    spec_load_acc(Seq::empty(), docs)
}

/// Loads the bundled documents: decodes each as UTF-8, parses it with local
/// origin, and folds it into the list by its placement hint. Fails on the
/// first unreadable or malformed document; no partial result is returned.
pub fn load_local(docs: &Vec<Vec<u8>>) -> (r: Result<Vec<Template>, LoadError>)
    ensures
        ({
            let sp = spec_load_local(doc_views(docs@));
            match r {
                Ok(ts) => sp == Ok::<Seq<TemplateData>, LoadError>(models(ts@)),
                Err(e) => sp == Err::<Seq<TemplateData>, LoadError>(e),
            }
        }),
{
    let ghost all = doc_views(docs@);
    let mut acc: Vec<Template> = Vec::new();
    let mut idx: usize = 0;
    proof {
        assert(all.subrange(0, all.len() as int) =~= all);
        assert(models(acc@) =~= Seq::<TemplateData>::empty());
    }
    while idx < docs.len()
        invariant
            idx <= docs@.len(),
            all == doc_views(docs@),
            spec_load_local(all) == spec_load_acc(
                models(acc@),
                all.subrange(idx as int, all.len() as int),
            ),
        decreases docs@.len() - idx,
    {
        let ghost rest = all.subrange(idx as int, all.len() as int);
        proof {
            assert(rest[0] == docs@[idx as int]@);
            assert(rest.drop_first() =~= all.subrange(idx + 1, all.len() as int));
        }
        let text = match bytes_to_string(&docs[idx]) {
            None => {
                return Err(LoadError::AssetReadError);
            },
            Some(s) => s,
        };
        let t = match crate::parser::parse_template(text, Origin::Local) {
            Err(e) => {
                return Err(LoadError::MalformedTemplate);
            },
            Ok(t) => t,
        };
        proof {
            lemma_seq_place_models(acc@, t.force_order, t);
        }
        acc = merge_one(acc, t);
        idx = idx + 1;
    }
    proof {
        assert(all.subrange(idx as int, all.len() as int) =~= Seq::<Seq<u8>>::empty());
    }
    Ok(acc)
}

/// The model of a remote-phase outcome handed to the registry: absent when
/// the remote phase was disabled.
pub open spec fn remote_views(r: Option<Result<Vec<Template>, RemoteError>>) -> Option<
    Result<Seq<TemplateData>, RemoteError>,
> {
    match r {
        None => None,
        Some(Ok(ts)) => Some(Ok(models(ts@))),
        Some(Err(e)) => Some(Err(e)),
    }
}

/// The whole registry: the local load is required; a remote batch, when one
/// arrived, is folded on top with the same placement rule; a failed remote
/// phase leaves the local list untouched and raises the warning flag (the
/// second component of the result).
pub open spec fn spec_registry(
    docs: Seq<Seq<u8>>,
    remote: Option<Result<Seq<TemplateData>, RemoteError>>,
) -> Result<(Seq<TemplateData>, bool), LoadError> {
    match spec_load_local(docs) {
        Err(e) => Err(e),
        Ok(local) => match remote {
            None => Ok((local, false)),
            Some(Ok(rts)) => Ok((spec_fold(local, rts), false)),
            Some(Err(_)) => Ok((local, true)),
        },
    }
}

/// Builds the final template registry from the bundled documents and the
/// outcome of the remote phase (`None` when remote access is disabled). The
/// returned flag says whether a remote failure was swallowed, so the caller
/// can surface a warning.
pub fn get_templates(
    docs: &Vec<Vec<u8>>,
    remote: Option<Result<Vec<Template>, RemoteError>>,
) -> (r: Result<(Vec<Template>, bool), LoadError>)
    ensures
        ({
            let sp = spec_registry(doc_views(docs@), remote_views(remote));
            match r {
                Ok(p) => sp == Ok::<(Seq<TemplateData>, bool), LoadError>((models(p.0@), p.1)),
                Err(e) => sp == Err::<(Seq<TemplateData>, bool), LoadError>(e),
            }
        }),
{
    let local = match load_local(docs) {
        Err(e) => {
            return Err(e);
        },
        Ok(ts) => ts,
    };
    match remote {
        None => Ok((local, false)),
        Some(Err(_e)) => Ok((local, true)),
        Some(Ok(rts)) => {
            let ghost base = models(local@);
            let ghost rall = models(rts@);
            let mut acc = local;
            let mut rts = rts;
            while rts.len() > 0
                invariant
                    spec_fold(base, rall) == spec_fold(models(acc@), models(rts@)),
                decreases rts@.len(),
            {
                let ghost rts0 = models(rts@);
                let t = rts.remove(0);
                proof {
                    assert(rts0[0] == t@);
                    assert(models(rts@) =~= rts0.drop_first());
                    lemma_seq_place_models(acc@, t.force_order, t);
                }
                acc = merge_one(acc, t);
            }
            proof {
                assert(models(rts@) =~= Seq::<TemplateData>::empty());
            }
            Ok((acc, false))
        },
    }
}

/// Collision policy: two templates both hinting at index 0, loaded `x` then
/// `y`, end with `y` displacing `x`: the final list is `[y, x]`. The later
/// insertion shifts the earlier one forward; this documented behavior is kept
/// rather than corrected.
pub proof fn lemma_hint_collision(x: TemplateData, y: TemplateData)
    requires
        x.force_order == Some(0usize),
        y.force_order == Some(0usize),
    ensures
        spec_fold(Seq::<TemplateData>::empty(), seq![x, y]) =~= seq![y, x],
{
    let e = Seq::<TemplateData>::empty();
    let s = seq![x, y];
    assert(seq_place(e, x.force_order, x) =~= seq![x]);
    assert(seq_place(seq![x], y.force_order, y) =~= seq![y, x]);
    assert(s.drop_first() =~= seq![y]);
    assert(seq![y].drop_first() =~= e);
    assert(spec_fold(e, s) == spec_fold(seq![x], seq![y]));
    assert(spec_fold(seq![x], seq![y]) == spec_fold(seq![y, x], e));
    assert(spec_fold(seq![y, x], e) == seq![y, x]);
}

/// Graceful degradation: when the remote phase fails, the registry is
/// exactly the local-only registry, except that the warning flag is raised;
/// a failed local load fails either way, identically.
pub proof fn lemma_graceful_degradation(docs: Seq<Seq<u8>>, e: RemoteError)
    ensures
        (spec_registry(docs, Some(Err(e))) is Ok) == (spec_registry(docs, None) is Ok),
        spec_registry(docs, Some(Err(e))) matches Ok(p) ==> (spec_registry(docs, None) matches Ok(
            q,
        ) && p.0 == q.0 && p.1 == true && q.1 == false),
        spec_registry(docs, Some(Err(e))) is Err ==> spec_registry(docs, Some(Err(e)))
            == spec_registry(docs, None),
{
}

proof fn lemma_fatal_acc(acc: Seq<TemplateData>, docs: Seq<Seq<u8>>, i: int)
    requires
        forall|j: int| 0 <= j < docs.len() ==> valid_utf8(docs[j]),
        0 <= i < docs.len(),
        spec_parse_template(decode_utf8(docs[i]), Origin::Local) is None,
    ensures
        spec_load_acc(acc, docs) == Err::<Seq<TemplateData>, LoadError>(
            LoadError::MalformedTemplate,
        ),
    decreases i,
{
    if i > 0 {
        match spec_parse_template(decode_utf8(docs[0]), Origin::Local) {
            None => {},
            Some(td) => {
                let d = docs.drop_first();
                assert(forall|j: int| 0 <= j < d.len() ==> d[j] == docs[j + 1]);
                assert(d[i - 1] == docs[i]);
                lemma_fatal_acc(seq_place(acc, td.force_order, td), d, i - 1);
            },
        }
    }
}

/// Fatal propagation: when every bundled document is readable text and any
/// one of them has a metadata section that fails decoding, the whole local
/// load fails with `MalformedTemplate`, however well-formed the other
/// documents are.
pub proof fn lemma_fatal_propagation(docs: Seq<Seq<u8>>, i: int)
    requires
        forall|j: int| 0 <= j < docs.len() ==> valid_utf8(docs[j]),
        0 <= i < docs.len(),
        spec_parse_template(decode_utf8(docs[i]), Origin::Local) is None,
    ensures
        spec_load_local(docs) == Err::<Seq<TemplateData>, LoadError>(LoadError::MalformedTemplate),
{
    lemma_fatal_acc(Seq::empty(), docs, i);
}

} // verus!
