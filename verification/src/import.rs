//! The import entity: an optional bound name plus the import path.

use vstd::prelude::*;
use vstd::string::StringExecFns;
use crate::text::is_name_char;

verus! {

/// A single dependency declaration: an optional short identifier bound to
/// the import, and the import path itself.
#[derive(Debug, Clone, PartialEq, Eq)]
pub struct Import {
    pub name: Option<String>,
    pub url: String,
}

/// The mathematical value of an [`Import`].
pub ghost struct ImportModel {
    pub name: Option<Seq<char>>,
    pub url: Seq<char>,
}

impl View for Import {
    type V = ImportModel;

    open spec fn view(&self) -> ImportModel {
        ImportModel {
            name: match self.name {
                Some(n) => Some(n@),
                None => None,
            },
            url: self.url@,
        }
    }
}

/// The imports the matcher can produce: the name, when present, is a
/// non-empty run of name characters, and the path is non-empty.
pub open spec fn import_wf(i: ImportModel) -> bool {
    &&& match i.name {
        Some(n) => n.len() > 0 && forall|k: int| 0 <= k < n.len() ==> is_name_char(n[k]),
        None => true,
    }
    &&& i.url.len() >= 1
}

/// The models of a sequence of imports.
pub open spec fn views_of(s: Seq<Import>) -> Seq<ImportModel> {
    s.map_values(|i: Import| i@)
}

/// The text of an import as it stands in a declaration:
/// `name "url"` with a bound name, `"url"` without.
pub open spec fn render_import(i: ImportModel) -> Seq<char> {
    match i.name {
        Some(n) => n + seq![' ', '"'] + i.url + seq!['"'],
        None => seq!['"'] + i.url + seq!['"'],
    }
}

impl Import {
    /// The declaration text of this import.
    pub fn render(&self) -> (r: String)
        ensures
            r@ == render_import(self@),
    {
        proof {
            reveal_strlit(" \"");
            reveal_strlit("\"");
        }
        let mut out = String::new();
        match &self.name {
            Some(n) => {
                out.append(n.as_str());
                out.append(" \"");
            },
            None => {
                out.append("\"");
            },
        }
        out.append(self.url.as_str());
        out.append("\"");
        proof {
            assert(out@ =~= render_import(self@));
        }
        out
    }
}

} // verus!
