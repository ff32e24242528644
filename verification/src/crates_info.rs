//! The package-registry lookup's reply, and its two-line rendering for chat.
//! The HTTP query that fills it lives with the runtime.

use vstd::prelude::*;

verus! {

/// The reply to a package search.
pub struct Resp {
    pub crates: Vec<Crate>,
}

/// One package the registry knows.
pub struct Crate {
    pub name: String,
    pub max_version: String,
    pub description: Option<String>,
    pub documentation: Option<String>,
    pub repository: Option<String>,
    pub exact_match: bool,
}

/// The first rendered line: name, newest version, and the description when
/// there is one.
pub open spec fn first_line(e: &Crate) -> Seq<char> {
    match e.description {
        Option::Some(ref d) => e.name@ + seq![' ', '=', ' ', '"'] + e.max_version@ + seq![
            '"',
            ' ',
            '|',
            ' ',
        ] + d@,
        Option::None => e.name@ + seq![' ', '=', ' '] + e.max_version@,
    }
}

/// The second rendered line: where the docs and the repository live.
pub open spec fn second_line(e: &Crate) -> Seq<char> {
    let docs = match e.documentation {
        Option::Some(ref d) => seq!['d', 'o', 'c', 's', ':', ' '] + d@,
        Option::None => Seq::<char>::empty(),
    };
    match e.repository {
        Option::Some(ref r) => if docs.len() > 0 {
            docs + seq![' ', '|', ' '] + seq!['r', 'e', 'p', 'o', ':', ' '] + r@
        } else {
            seq!['r', 'e', 'p', 'o', ':', ' '] + r@
        },
        Option::None => docs,
    }
}

impl Crate {
    /// Renders the two chat lines for this package.
    pub fn format(&self) -> (r: (String, String))
        ensures
            r.0@ == first_line(self),
            r.1@ == second_line(self),
    {
        proof {
            reveal_strlit(" = \"");
            reveal_strlit("\" | ");
            reveal_strlit(" = ");
            reveal_strlit("docs: ");
            reveal_strlit(" | ");
            reveal_strlit("repo: ");
            assert(" = \""@ =~= seq![' ', '=', ' ', '"']);
            assert("\" | "@ =~= seq!['"', ' ', '|', ' ']);
            assert(" = "@ =~= seq![' ', '=', ' ']);
            assert("docs: "@ =~= seq!['d', 'o', 'c', 's', ':', ' ']);
            assert(" | "@ =~= seq![' ', '|', ' ']);
            assert("repo: "@ =~= seq!['r', 'e', 'p', 'o', ':', ' ']);
        }
        let mut first = self.name.clone();
        match &self.description {
            Some(desc) => {
                first.append(" = \"");
                first.append(self.max_version.as_str());
                first.append("\" | ");
                first.append(desc.as_str());
                proof {
                    assert(first@ =~= first_line(self));
                }
            },
            None => {
                first.append(" = ");
                first.append(self.max_version.as_str());
                proof {
                    assert(first@ =~= first_line(self));
                }
            },
        }
        let mut second = String::new();
        if let Some(docs) = &self.documentation {
            second.append("docs: ");
            second.append(docs.as_str());
        }
        match &self.repository {
            Some(repo) => {
                if second.as_str().unicode_len() > 0 {
                    second.append(" | ");
                }
                second.append("repo: ");
                second.append(repo.as_str());
                proof {
                    assert(second@ =~= second_line(self));
                }
            },
            None => {
                proof {
                    assert(second@ =~= second_line(self));
                }
            },
        }
        (first, second)
    }
}

} // verus!
