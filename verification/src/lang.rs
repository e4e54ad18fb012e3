//! The supported languages, recognised by file extension, and the grammar family that
//! decides how symbols are named and nested in each.

use vstd::prelude::*;
use crate::text::{split_on, split_ranges, range_texts, chars_of, ranges_equal};

verus! {

#[derive(Debug, Clone, Copy, PartialEq, Eq, Structural)]
pub enum Lang {
    TypeScript,
    Tsx,
    JavaScript,
    Rust,
    Python,
    Go,
}

/// Languages that share one symbol model.
#[derive(Debug, Clone, Copy, PartialEq, Eq, Structural)]
pub enum Family {
    TypeScript,
    Rust,
    Python,
    Go,
}

/// The bundled grammars. JavaScript is read with the TSX grammar, which also accepts JSX.
#[derive(Debug, Clone, Copy, PartialEq, Eq, Structural)]
pub enum Grammar {
    TypeScript,
    Tsx,
    Rust,
    Python,
    Go,
}

/// The last non-empty, non-`.` component of a `/`-separated path.
pub open spec fn last_component(parts: Seq<Seq<char>>) -> Option<Seq<char>>
    decreases parts.len(),
{
    if parts.len() == 0 {
        None
    } else if parts.last().len() == 0 || parts.last() == seq!['.'] {
        last_component(parts.drop_last())
    } else {
        Some(parts.last())
    }
}

/// Index of the last `c` in `s`.
pub open spec fn rfind_char(s: Seq<char>, c: char) -> Option<int>
    decreases s.len(),
{
    if s.len() == 0 {
        None
    } else if s.last() == c {
        Some(s.len() - 1)
    } else {
        rfind_char(s.drop_last(), c)
    }
}

/// `Path::file_name`: the last normal component; none for `..` or a path without one.
pub open spec fn file_name(path: Seq<char>) -> Option<Seq<char>> {
    match last_component(split_on(path, '/')) {
        Some(name) => if name == seq!['.', '.'] {
            None
        } else {
            Some(name)
        },
        None => None,
    }
}

/// `Path::extension`: the text after the last `.` of the file name, when that dot is not
/// its first character.
pub open spec fn extension(path: Seq<char>) -> Option<Seq<char>> {
    match file_name(path) {
        Some(name) => match rfind_char(name, '.') {
            Some(i) => if i == 0 {
                None
            } else {
                Some(name.skip(i + 1))
            },
            None => None,
        },
        None => None,
    }
}

pub open spec fn lang_of_extension(ext: Seq<char>) -> Option<Lang> {
    if ext == "ts"@ || ext == "mts"@ || ext == "cts"@ {
        Some(Lang::TypeScript)
    } else if ext == "tsx"@ {
        Some(Lang::Tsx)
    } else if ext == "js"@ {
        Some(Lang::JavaScript)
    } else if ext == "rs"@ {
        Some(Lang::Rust)
    } else if ext == "py"@ || ext == "pyi"@ {
        Some(Lang::Python)
    } else if ext == "go"@ {
        Some(Lang::Go)
    } else {
        None
    }
}

pub open spec fn spec_lang_of_path(path: Seq<char>) -> Option<Lang> {
    match extension(path) {
        Some(ext) => lang_of_extension(ext),
        None => None,
    }
}

fn range_is(v: &Vec<char>, lo: usize, hi: usize, lit: &str) -> (b: bool)
    requires
        lo <= hi <= v.len(),
    ensures
        b == (v@.subrange(lo as int, hi as int) == lit@),
{
    let w = chars_of(lit);
    proof {
        assert(w@.subrange(0, w@.len() as int) =~= lit@);
    }
    ranges_equal(v, lo, hi, &w, 0, w.len())
}

impl Lang {
    pub open spec fn spec_family(self) -> Family {
        match self {
            Lang::TypeScript | Lang::Tsx | Lang::JavaScript => Family::TypeScript,
            Lang::Rust => Family::Rust,
            Lang::Python => Family::Python,
            Lang::Go => Family::Go,
        }
    }

    pub open spec fn spec_grammar(self) -> Grammar {
        match self {
            Lang::TypeScript => Grammar::TypeScript,
            Lang::Tsx | Lang::JavaScript => Grammar::Tsx,
            Lang::Rust => Grammar::Rust,
            Lang::Python => Grammar::Python,
            Lang::Go => Grammar::Go,
        }
    }

    #[verifier::when_used_as_spec(spec_family)]
    pub fn family(self) -> (f: Family)
        ensures
            f == self.spec_family(),
    {
        match self {
            Lang::TypeScript | Lang::Tsx | Lang::JavaScript => Family::TypeScript,
            Lang::Rust => Family::Rust,
            Lang::Python => Family::Python,
            Lang::Go => Family::Go,
        }
    }

    #[verifier::when_used_as_spec(spec_grammar)]
    pub fn grammar(self) -> (g: Grammar)
        ensures
            g == self.spec_grammar(),
    {
        match self {
            Lang::TypeScript => Grammar::TypeScript,
            Lang::Tsx | Lang::JavaScript => Grammar::Tsx,
            Lang::Rust => Grammar::Rust,
            Lang::Python => Grammar::Python,
            Lang::Go => Grammar::Go,
        }
    }

    /// The language of a file, by the extension of its name.
    pub fn from_path(path: &str) -> (r: Option<Lang>)
        ensures
            r == spec_lang_of_path(path@),
    {
        let v = chars_of(path);
        proof {
            assert(v@.subrange(0, v@.len() as int) =~= path@);
        }
        let parts = split_ranges(&v, 0, v.len(), '/');
        let ghost pv = range_texts(v@, parts@);
        proof {
            assert(pv == split_on(path@, '/'));
            assert(pv.take(pv.len() as int) =~= pv);
        }
        let mut k = parts.len();
        // Walk back to the last component that is neither empty nor `.`.
        while k > 0 && (parts[k - 1].0 == parts[k - 1].1 || range_is(&v, parts[k - 1].0, parts[k - 1].1, "."))
            invariant
                0 <= k <= parts@.len(),
                pv == range_texts(v@, parts@),
                forall|j: int| 0 <= j < parts@.len() ==> (#[trigger] parts@[j]).0 <= parts@[j].1 <= v@.len(),
                last_component(pv) == last_component(pv.take(k as int)),
            decreases k,
        {
            proof {
                reveal_strlit(".");
                let last = v@.subrange(parts@[k - 1].0 as int, parts@[k - 1].1 as int);
                assert(pv.take(k as int).last() == last);
                assert(last.len() == 0 || last =~= seq!['.']);
                assert(pv.take(k as int).drop_last() =~= pv.take(k - 1));
            }
            k -= 1;
        }
        if k == 0 {
            proof {
                assert(pv.take(0) =~= Seq::<Seq<char>>::empty());
            }
            return None;
        }
        let (lo, hi) = parts[k - 1];
        proof {
            reveal_strlit(".");
            assert(pv.take(k as int).last() == v@.subrange(lo as int, hi as int));
            assert(v@.subrange(lo as int, hi as int).len() != 0);
            assert(v@.subrange(lo as int, hi as int) != seq!['.']) by {
                if v@.subrange(lo as int, hi as int) == seq!['.'] {
                    assert(v@.subrange(lo as int, hi as int) =~= "."@);
                }
            }
            assert(last_component(pv) == Some(v@.subrange(lo as int, hi as int)));
        }
        if range_is(&v, lo, hi, "..") {
            proof {
                reveal_strlit("..");
                assert(v@.subrange(lo as int, hi as int) =~= seq!['.', '.']);
            }
            return None;
        }
        proof {
            reveal_strlit("..");
            assert(v@.subrange(lo as int, hi as int) != seq!['.', '.']) by {
                if v@.subrange(lo as int, hi as int) == seq!['.', '.'] {
                    assert(v@.subrange(lo as int, hi as int) =~= ".."@);
                }
            }
            assert(file_name(path@) == Some(v@.subrange(lo as int, hi as int)));
        }
        // The last `.` of the name.
        let ghost name = v@.subrange(lo as int, hi as int);
        let mut d = hi;
        while d > lo && v[d - 1] != '.'
            invariant
                lo <= d <= hi <= v@.len(),
                name == v@.subrange(lo as int, hi as int),
                rfind_char(name, '.') == rfind_char(v@.subrange(lo as int, d as int), '.'),
            decreases d - lo,
        {
            proof {
                assert(v@.subrange(lo as int, d as int).drop_last() =~= v@.subrange(lo as int, d - 1));
            }
            d -= 1;
        }
        if d == lo || d - 1 == lo {
            return None;
        }
        let e = d;
        proof {
            assert(rfind_char(name, '.') == Some(d - 1 - lo));
            assert(extension(path@) == Some(v@.subrange(e as int, hi as int)));
            assert(name.skip(d - 1 - lo + 1) =~= v@.subrange(e as int, hi as int));
        }
        if range_is(&v, e, hi, "ts") || range_is(&v, e, hi, "mts") || range_is(&v, e, hi, "cts") {
            Some(Lang::TypeScript)
        } else if range_is(&v, e, hi, "tsx") {
            Some(Lang::Tsx)
        } else if range_is(&v, e, hi, "js") {
            Some(Lang::JavaScript)
        } else if range_is(&v, e, hi, "rs") {
            Some(Lang::Rust)
        } else if range_is(&v, e, hi, "py") || range_is(&v, e, hi, "pyi") {
            Some(Lang::Python)
        } else if range_is(&v, e, hi, "go") {
            Some(Lang::Go)
        } else {
            None
        }
    }
}

} // verus!
