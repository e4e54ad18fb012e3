//! Reading what version control prints. Running it is the caller's; every reader here takes
//! the printed text and answers `None` (or nothing) where the text does not have the shape
//! asked for, so that an unanswerable question degrades to a history-free result.

use vstd::prelude::*;
use crate::hub::{text_lines, text_lines_exec, texts};
use crate::text::{trim, views, words, words_from, chars_of, string_of, split_on, split_ranges, range_texts, str_eq, find_char};

verus! {

broadcast use vstd::std_specs::vec::group_vec_axioms, vstd::seq::group_seq_axioms;

/// One commit of the history stream: its id, its parents (first parent first, none for a
/// root commit), and the paths it changed against its first parent with their status letter.
pub struct CommitRec {
    pub sha: String,
    pub parents: Vec<String>,
    pub changes: Vec<(char, String)>,
}

pub struct CommitModel {
    pub sha: Seq<char>,
    pub parents: Seq<Seq<char>>,
    pub changes: Seq<(char, Seq<char>)>,
}

impl View for CommitRec {
    type V = CommitModel;

    open spec fn view(&self) -> CommitModel {
        CommitModel {
            sha: self.sha@,
            parents: views(self.parents@),
            changes: self.changes@.map_values(|c: (char, String)| (c.0, c.1@)),
        }
    }
}

pub open spec fn commits_view(v: Seq<CommitRec>) -> Seq<CommitModel> {
    v.map_values(|c: CommitRec| c@)
}

/// The byte that starts a commit header line in the stream.
pub open spec fn header_mark() -> char {
    '\u{1}'
}

/// Reads the first `k` lines of the history stream: each header line (`\u{1}` then the commit
/// id and its parents, separated by whitespace) opens a commit; each line holding a tab adds
/// a change (the first character before the tab, the text after it) to the last commit
/// opened. `None` when a header names no id, a change has no status, or a change comes
/// before any header; other lines are ignored.
pub open spec fn parse_log_spec(ls: Seq<Seq<char>>, k: int) -> Option<Seq<CommitModel>>
    decreases k,
{
    if k <= 0 {
        Some(Seq::empty())
    } else {
        match parse_log_spec(ls, k - 1) {
            None => None,
            Some(cs) => {
                let line = ls[k - 1];
                if line.len() > 0 && line[0] == header_mark() {
                    let fields = words(line.drop_first());
                    if fields.len() == 0 {
                        None
                    } else {
                        Some(cs.push(CommitModel { sha: fields[0], parents: fields.drop_first(), changes: Seq::empty() }))
                    }
                } else {
                    match find_char(line, '\t') {
                        None => Some(cs),
                        Some(t) => if t == 0 || cs.len() == 0 {
                            None
                        } else {
                            Some(cs.update(
                                cs.len() - 1,
                                CommitModel { changes: cs.last().changes.push((line[0], line.skip(t + 1))), ..cs.last() },
                            ))
                        },
                    }
                }
            },
        }
    }
}

/// Reads the history stream that `git log --format=%x01%H %P --name-status` prints.
pub fn parse_log(text: &str) -> (r: Option<Vec<CommitRec>>)
    ensures
        match r {
            Some(v) => parse_log_spec(text_lines(text@), text_lines(text@).len() as int) == Some(commits_view(v@)),
            None => parse_log_spec(text_lines(text@), text_lines(text@).len() as int) is None,
        },
{
    let chars = chars_of(text);
    let ls = text_lines_exec(&chars);
    let ghost t = texts(ls@);
    let mut out: Vec<CommitRec> = Vec::new();
    let mut k: usize = 0;
    while k < ls.len()
        invariant
            k <= ls@.len(),
            t == texts(ls@),
            t == text_lines(text@),
            parse_log_spec(t, k as int) == Some(commits_view(out@)),
        decreases ls.len() - k,
    {
        let line = &ls[k];
        proof {
            assert(t[k as int] == line@);
        }
        if line.len() > 0 && line[0] == '\u{1}' {
            let fields = words_from(line, 1);
            proof {
                assert(line@.skip(1) =~= line@.drop_first());
            }
            if fields.len() == 0 {
                proof {
                    lemma_parse_log_none(t, k + 1, t.len() as int);
                }
                return None;
            }
            let sha = fields[0].clone();
            let mut parents: Vec<String> = Vec::new();
            let mut f: usize = 1;
            while f < fields.len()
                invariant
                    1 <= f <= fields@.len(),
                    views(parents@) == views(fields@).subrange(1, f as int),
                decreases fields.len() - f,
            {
                let p = fields[f].clone();
                proof {
                    assert(views(parents@.push(p)) =~= views(parents@).push(p@));
                    assert(views(fields@).subrange(1, f + 1) =~= views(fields@).subrange(1, f as int).push(fields@[f as int]@));
                }
                parents.push(p);
                f += 1;
            }
            let c = CommitRec { sha, parents, changes: Vec::new() };
            proof {
                assert(views(fields@).subrange(1, f as int) =~= views(fields@).drop_first());
                assert(c@.changes =~= Seq::<(char, Seq<char>)>::empty());
                assert(commits_view(out@.push(c)) =~= commits_view(out@).push(c@));
            }
            out.push(c);
        } else {
            match crate::text::find_in(line, 0, line.len(), '\t') {
                None => {
                    proof {
                        assert(line@.subrange(0, line@.len() as int) =~= line@);
                    }
                },
                Some(tab) => {
                    proof {
                        assert(line@.subrange(0, line@.len() as int) =~= line@);
                    }
                    if tab == 0 || out.len() == 0 {
                        proof {
                            lemma_parse_log_none(t, k + 1, t.len() as int);
                        }
                        return None;
                    }
                    let status = line[0];
                    let path = string_of(line, tab + 1, line.len());
                    let last = out.len() - 1;
                    let mut c = out.remove(last);
                    let ghost cm = c@;
                    c.changes.push((status, path));
                    proof {
                        assert(c@.changes =~= cm.changes.push((line@[0], line@.skip(tab + 1))));
                        assert(line@.skip(tab + 1) =~= line@.subrange(tab + 1, line@.len() as int));
                    }
                    let ghost before = commits_view(out@);
                    out.push(c);
                    proof {
                        assert(commits_view(out@) =~= before.push(c@));
                    }
                },
            }
        }
        k += 1;
    }
    Some(out)
}

proof fn lemma_parse_log_none(ls: Seq<Seq<char>>, k: int, n: int)
    requires
        1 <= k <= n,
        parse_log_spec(ls, k) is None,
    ensures
        parse_log_spec(ls, n) is None,
    decreases n - k,
{
    if n > k {
        lemma_parse_log_none(ls, k, n - 1);
    }
}

/// Reads the first `k` lines of `git diff --name-status --find-renames` output for the path
/// `old_path` was renamed to: a row whose first tab-separated field starts with `R` and whose
/// second field is `old_path` names it in its third field.
pub open spec fn renamed_to_spec(ls: Seq<Seq<char>>, old_path: Seq<char>, k: int) -> Option<Seq<char>>
    decreases k,
{
    if k <= 0 {
        None
    } else {
        match renamed_to_spec(ls, old_path, k - 1) {
            Some(n) => Some(n),
            None => {
                let parts = split_on(ls[k - 1], '\t');
                if parts[0].len() > 0 && parts[0][0] == 'R' && parts.len() >= 3 && parts[1] == old_path {
                    Some(parts[2])
                } else {
                    None
                }
            },
        }
    }
}

/// The path `old_path` was renamed to, per the rename rows of the printed diff.
pub fn renamed_to(text: &str, old_path: &str) -> (r: Option<String>)
    ensures
        match r {
            Some(n) => renamed_to_spec(text_lines(text@), old_path@, text_lines(text@).len() as int) == Some(n@),
            None => renamed_to_spec(text_lines(text@), old_path@, text_lines(text@).len() as int) is None,
        },
{
    let chars = chars_of(text);
    let ls = text_lines_exec(&chars);
    let ghost t = texts(ls@);
    let mut k: usize = 0;
    while k < ls.len()
        invariant
            k <= ls@.len(),
            t == texts(ls@),
            t == text_lines(text@),
            renamed_to_spec(t, old_path@, k as int) is None,
        decreases ls.len() - k,
    {
        let line = &ls[k];
        proof {
            assert(t[k as int] == line@);
            assert(line@.subrange(0, line@.len() as int) =~= line@);
        }
        let parts = split_ranges(line, 0, line.len(), '\t');
        let ghost pv = range_texts(line@, parts@);
        let (a0, b0) = parts[0];
        proof {
            assert(pv[0] == line@.subrange(a0 as int, b0 as int));
        }
        if b0 > a0 && line[a0] == 'R' && parts.len() >= 3 {
            let (a1, b1) = parts[1];
            let old_here = string_of(line, a1, b1);
            proof {
                assert(pv[1] == line@.subrange(a1 as int, b1 as int));
            }
            if str_eq(old_here.as_str(), old_path) {
                let (a2, b2) = parts[2];
                proof {
                    assert(pv[2] == line@.subrange(a2 as int, b2 as int));
                    lemma_renamed_some(t, old_path@, k + 1, t.len() as int);
                }
                return Some(string_of(line, a2, b2));
            }
        }
        k += 1;
    }
    None
}

proof fn lemma_renamed_some(ls: Seq<Seq<char>>, old_path: Seq<char>, k: int, n: int)
    requires
        1 <= k <= n,
        renamed_to_spec(ls, old_path, k) is Some,
    ensures
        renamed_to_spec(ls, old_path, n) == renamed_to_spec(ls, old_path, k),
    decreases n - k,
{
    if n > k {
        lemma_renamed_some(ls, old_path, k, n - 1);
    }
}

/// The lines of printed output, each as a string (`str::lines`).
pub fn output_lines(text: &str) -> (r: Vec<String>)
    ensures
        views(r@) == text_lines(text@),
{
    let chars = chars_of(text);
    let ls = text_lines_exec(&chars);
    let mut out: Vec<String> = Vec::new();
    let mut k: usize = 0;
    while k < ls.len()
        invariant
            k <= ls@.len(),
            texts(ls@) == text_lines(text@),
            views(out@) == texts(ls@).take(k as int),
        decreases ls.len() - k,
    {
        let s = string_of(&ls[k], 0, ls[k].len());
        proof {
            assert(ls@[k as int]@.subrange(0, ls@[k as int]@.len() as int) =~= ls@[k as int]@);
            assert(views(out@.push(s)) =~= views(out@).push(s@));
            assert(texts(ls@).take(k + 1) =~= texts(ls@).take(k as int).push(ls@[k as int]@));
        }
        out.push(s);
        k += 1;
    }
    proof {
        assert(texts(ls@).take(k as int) =~= texts(ls@));
    }
    out
}

} // verus!
