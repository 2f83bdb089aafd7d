//! The format classifier: maps a file extension to one of the supported
//! document formats.

use vstd::prelude::*;
use crate::chars::chars_of;

verus! {

/// The closed set of document formats the pipeline understands.
#[derive(Debug, Clone, Copy, PartialEq, Eq, Structural)]
pub enum DocumentFormat {
    Pdf,
    Text,
    Html,
    Docx,
    Pptx,
    Xlsx,
}

/// The code point of `c` with ASCII uppercase letters folded to lowercase.
pub open spec fn fold_lower(c: char) -> int {
    if 65 <= c as int <= 90 {
        c as int + 32
    } else {
        c as int
    }
}

/// Case-insensitive (ASCII) equality of two character sequences.
pub open spec fn str_ieq(a: Seq<char>, b: Seq<char>) -> bool {
    a.len() == b.len() && forall|i: int| 0 <= i < a.len() ==> fold_lower(#[trigger] a[i])
        == fold_lower(b[i])
}

/// Compare two strings ignoring ASCII case.
pub(crate) fn ascii_ieq(a: &str, b: &str) -> (r: bool)
    ensures
        r == str_ieq(a@, b@),
{
    let an: usize = a.unicode_len();
    let bn: usize = b.unicode_len();
    if an != bn {
        return false;
    }
    let mut i: usize = 0;
    while i < an
        invariant
            an == a@.len(),
            an == b@.len(),
            i <= an,
            forall|j: int| 0 <= j < i ==> fold_lower(#[trigger] a@[j]) == fold_lower(b@[j]),
        decreases an - i,
    {
        let ca = a.get_char(i) as u32;
        let cb = b.get_char(i) as u32;
        let fa: u32 = if 65 <= ca && ca <= 90 {
            ca + 32
        } else {
            ca
        };
        let fb: u32 = if 65 <= cb && cb <= 90 {
            cb + 32
        } else {
            cb
        };
        if fa != fb {
            return false;
        }
        i = i + 1;
    }
    true
}

/// Which format a (possibly mixed-case) extension names, if any.
pub open spec fn spec_from_extension(e: Seq<char>) -> Option<DocumentFormat> {
    if str_ieq(e, "pdf"@) {
        Some(DocumentFormat::Pdf)
    } else if str_ieq(e, "txt"@) || str_ieq(e, "text"@) {
        Some(DocumentFormat::Text)
    } else if str_ieq(e, "html"@) || str_ieq(e, "htm"@) {
        Some(DocumentFormat::Html)
    } else if str_ieq(e, "docx"@) {
        Some(DocumentFormat::Docx)
    } else if str_ieq(e, "pptx"@) {
        Some(DocumentFormat::Pptx)
    } else if str_ieq(e, "xlsx"@) {
        Some(DocumentFormat::Xlsx)
    } else {
        None
    }
}

impl DocumentFormat {
    /// Classify a file extension, ignoring ASCII case; unknown extensions
    /// are unsupported.
    pub fn from_extension(extension: &str) -> (r: Option<DocumentFormat>)
        ensures
            r == spec_from_extension(extension@),
    {
        if ascii_ieq(extension, "pdf") {
            Some(DocumentFormat::Pdf)
        } else if ascii_ieq(extension, "txt") || ascii_ieq(extension, "text") {
            Some(DocumentFormat::Text)
        } else if ascii_ieq(extension, "html") || ascii_ieq(extension, "htm") {
            Some(DocumentFormat::Html)
        } else if ascii_ieq(extension, "docx") {
            Some(DocumentFormat::Docx)
        } else if ascii_ieq(extension, "pptx") {
            Some(DocumentFormat::Pptx)
        } else if ascii_ieq(extension, "xlsx") {
            Some(DocumentFormat::Xlsx)
        } else {
            None
        }
    }

    /// The canonical extensions this format recognizes.
    pub fn extensions(&self) -> (r: &'static [&'static str])
        ensures
            match *self {
                DocumentFormat::Pdf => r@.len() == 1 && r@[0]@ == "pdf"@,
                DocumentFormat::Text => r@.len() == 2 && r@[0]@ == "txt"@ && r@[1]@ == "text"@,
                DocumentFormat::Html => r@.len() == 2 && r@[0]@ == "html"@ && r@[1]@ == "htm"@,
                DocumentFormat::Docx => r@.len() == 1 && r@[0]@ == "docx"@,
                DocumentFormat::Pptx => r@.len() == 1 && r@[0]@ == "pptx"@,
                DocumentFormat::Xlsx => r@.len() == 1 && r@[0]@ == "xlsx"@,
            },
    {
        match self {
            DocumentFormat::Pdf => &["pdf"],
            DocumentFormat::Text => &["txt", "text"],
            DocumentFormat::Html => &["html", "htm"],
            DocumentFormat::Docx => &["docx"],
            DocumentFormat::Pptx => &["pptx"],
            DocumentFormat::Xlsx => &["xlsx"],
        }
    }
}

/// The extension of a file name or path: what follows the last dot of the
/// last component, if that dot does not begin the component.
pub open spec fn spec_extension_of(p: Seq<char>) -> Option<Seq<char>> {
    let name = spec_file_name_of(p);
    if exists|i: int| 0 < i < name.len() && name[i] == '.' {
        let i = last_index_of(name, '.');
        if 0 < i < name.len() {
            Some(name.skip(i + 1))
        } else {
            None
        }
    } else {
        None
    }
}

/// The last path component: what follows the last slash, or the whole path.
pub open spec fn spec_file_name_of(p: Seq<char>) -> Seq<char> {
    if exists|i: int| 0 <= i < p.len() && p[i] == '/' {
        p.skip(last_index_of(p, '/') + 1)
    } else {
        p
    }
}

/// The largest index holding `c`, or -1 when there is none.
pub open spec fn last_index_of(s: Seq<char>, c: char) -> int
    decreases s.len(),
{
    if s.len() == 0 {
        -1
    } else if s.last() == c {
        s.len() - 1
    } else {
        last_index_of(s.drop_last(), c)
    }
}

proof fn lemma_last_index_of(s: Seq<char>, c: char)
    ensures
        s.contains(c) ==> 0 <= last_index_of(s, c) < s.len() && s[last_index_of(s, c)] == c
            && forall|j: int| last_index_of(s, c) < j < s.len() ==> s[j] != c,
        !s.contains(c) ==> last_index_of(s, c) == -1,
    decreases s.len(),
{
    if s.len() > 0 {
        lemma_last_index_of(s.drop_last(), c);
        if s.last() == c {
            assert(s.contains(c)) by {
                assert(s[s.len() - 1] == c);
            }
        } else {
            if s.drop_last().contains(c) {
                let m = choose|m: int| 0 <= m < s.drop_last().len() && s.drop_last()[m] == c;
                assert(s[m] == c);
                assert(s.contains(c));
                assert(forall|j: int|
                    last_index_of(s.drop_last(), c) < j < s.drop_last().len()
                        ==> #[trigger] s.drop_last()[j] != c);
                assert forall|j: int| last_index_of(s, c) < j < s.len() implies s[j] != c by {
                    if j < s.len() - 1 {
                        assert(s.drop_last()[j] == s[j]);
                    }
                }
            } else {
                if s.contains(c) {
                    let m = choose|m: int| 0 <= m < s.len() && s[m] == c;
                    assert(m < s.len() - 1);
                    assert(s.drop_last()[m] == c);
                    assert(s.drop_last().contains(c));
                }
            }
        }
    }
}

/// Find the last occurrence of `c` in `v`.
fn find_last(v: &Vec<char>, c: char) -> (r: Option<usize>)
    ensures
        match r {
            Some(i) => i < v@.len() && last_index_of(v@, c) == i as int,
            None => last_index_of(v@, c) == -1,
        },
{
    proof {
        lemma_last_index_of(v@, c);
    }
    let mut i: usize = v.len();
    while i > 0
        invariant
            i <= v@.len(),
            forall|j: int| i <= j < v@.len() ==> v@[j] != c,
        decreases i,
    {
        i = i - 1;
        if v[i] == c {
            proof {
                lemma_last_index_of(v@, c);
                assert(v@.contains(c)) by {
                    assert(v@[i as int] == c);
                }
            }
            return Some(i);
        }
    }
    proof {
        if v@.contains(c) {
            let m = choose|m: int| 0 <= m < v@.len() && v@[m] == c;
            assert(false);
        }
    }
    None
}

/// The file name part of a path (after the last `/`).
pub fn file_name_of(path: &str) -> (r: String)
    ensures
        r@ == spec_file_name_of(path@),
{
    let v = chars_of(path);
    proof {
        lemma_last_index_of(v@, '/');
    }
    let n: usize = v.len();
    match find_last(&v, '/') {
        Some(i) => {
            proof {
                assert(v@.contains('/')) by {
                    assert(v@[i as int] == '/');
                }
                assert(i < n);
            }
            let mut out: Vec<char> = Vec::new();
            let mut j: usize = i + 1;
            while j < v.len()
                invariant
                    i + 1 <= j <= v@.len(),
                    out@ == v@.subrange(i + 1, j as int),
                decreases v@.len() - j,
            {
                out.push(v[j]);
                j = j + 1;
                proof {
                    assert(out@ =~= v@.subrange(i + 1, j as int));
                }
            }
            proof {
                assert(v@.subrange(i + 1, v@.len() as int) =~= v@.skip(i + 1));
            }
            crate::chars::string_of(&out)
        },
        None => {
            proof {
                if v@.contains('/') {
                    assert(last_index_of(v@, '/') >= 0);
                }
            }
            crate::chars::string_of(&v)
        },
    }
}

/// The extension of a path, if it has one.
pub fn extension_of(path: &str) -> (r: Option<String>)
    ensures
        match r {
            Some(e) => spec_extension_of(path@) == Some(e@),
            None => spec_extension_of(path@) is None,
        },
{
    let name_s = file_name_of(path);
    let name = chars_of(name_s.as_str());
    let nn: usize = name.len();
    proof {
        lemma_last_index_of(name@, '.');
    }
    match find_last(&name, '.') {
        Some(i) => {
            proof {
                assert(i < nn);
            }
            proof {
                assert(name@.contains('.')) by {
                    assert(name@[i as int] == '.');
                }
            }
            if i == 0 {
                proof {
                    if exists|k: int| 0 < k < name@.len() && name@[k] == '.' {
                        let k = choose|k: int| 0 < k < name@.len() && name@[k] == '.';
                        assert(k <= last_index_of(name@, '.'));
                    }
                }
                None
            } else {
                let mut out: Vec<char> = Vec::new();
                let mut j: usize = i + 1;
                while j < name.len()
                    invariant
                        i + 1 <= j <= name@.len(),
                        out@ == name@.subrange(i + 1, j as int),
                    decreases name@.len() - j,
                {
                    out.push(name[j]);
                    j = j + 1;
                    proof {
                        assert(out@ =~= name@.subrange(i + 1, j as int));
                    }
                }
                proof {
                    assert(name@.subrange(i + 1, name@.len() as int) =~= name@.skip(i + 1));
                    assert(exists|k: int| 0 < k < name@.len() && name@[k] == '.') by {
                        assert(name@[i as int] == '.');
                    }
                }
                Some(crate::chars::string_of(&out))
            }
        },
        None => {
            proof {
                if exists|k: int| 0 < k < name@.len() && name@[k] == '.' {
                    let k = choose|k: int| 0 < k < name@.len() && name@[k] == '.';
                    assert(name@.contains('.')) by {
                        assert(name@[k] == '.');
                    }
                }
            }
            None
        },
    }
}

} // verus!
