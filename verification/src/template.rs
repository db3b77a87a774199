//! The central data type: a named, versioned pairing of project metadata and
//! seed source code, tagged with the origin that produced it.

use vstd::prelude::*;
use vstd::string::StringExecFns;

verus! {

/// Provenance of a template: bundled with the binary, or fetched from the
/// remote template repository.
#[derive(Clone, Copy, PartialEq, Eq, Structural, Debug)]
pub enum Origin {
    Local,
    Remote,
}

/// One template definition. `extra_crates` is an association list with unique
/// keys standing for a dependency-name-to-version mapping; insertion order is
/// kept but carries no meaning.
#[derive(Debug)]
pub struct Template {
    pub beauty_name: String,
    pub force_order: Option<usize>,
    pub bevy_version: String,
    pub extra_crates: Vec<(String, String)>,
    pub main_code: String,
    pub origin: Origin,
}

/// Mathematical model of a `Template`: every text field as a sequence of
/// characters.
pub struct TemplateData {
    pub beauty_name: Seq<char>,
    pub force_order: Option<usize>,
    pub bevy_version: Seq<char>,
    pub extra_crates: Seq<(Seq<char>, Seq<char>)>,
    pub main_code: Seq<char>,
    pub origin: Origin,
}

pub open spec fn crates_view(cs: Seq<(String, String)>) -> Seq<(Seq<char>, Seq<char>)> {
    cs.map(|i: int, p: (String, String)| (p.0@, p.1@))
}

impl View for Template {
    type V = TemplateData;

    open spec fn view(&self) -> TemplateData {
        TemplateData {
            beauty_name: self.beauty_name@,
            force_order: self.force_order,
            bevy_version: self.bevy_version@,
            extra_crates: crates_view(self.extra_crates@),
            main_code: self.main_code@,
            origin: self.origin,
        }
    }
}

/// The display label of one template: `name (version) [origin]`, where the
/// origin reads `included` for bundled templates and `online` for fetched
/// ones.
pub open spec fn spec_label(t: TemplateData) -> Seq<char> {
    t.beauty_name + " ("@ + t.bevy_version + ") ["@ + (if t.origin is Remote {
        "online"@
    } else {
        "included"@
    }) + "]"@
}

fn template_label(t: &Template) -> (r: String)
    ensures
        r@ == spec_label(t@),
{
    let mut s = t.beauty_name.clone();
    s.append(" (");
    s.append(t.bevy_version.as_str());
    s.append(") [");
    match t.origin {
        Origin::Remote => s.append("online"),
        Origin::Local => s.append("included"),
    }
    s.append("]");
    s
}

/// One display label per template, in list order.
pub fn get_selections(templates: &Vec<Template>) -> (r: Vec<String>)
    ensures
        r@.len() == templates@.len(),
        forall|i: int| 0 <= i < r@.len() ==> r@[i]@ == spec_label(templates@[i]@),
{
    let mut selections: Vec<String> = Vec::new();
    let mut idx: usize = 0;
    while idx < templates.len()
        invariant
            idx <= templates@.len(),
            selections@.len() == idx,
            forall|i: int| 0 <= i < idx ==> selections@[i]@ == spec_label(templates@[i]@),
        decreases templates@.len() - idx,
    {
        let label = template_label(&templates[idx]);
        selections.push(label);
        idx = idx + 1;
    }
    selections
}

} // verus!
