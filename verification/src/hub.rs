//! The hub document: a `---`-fenced YAML frontmatter followed by a markdown body.
//!
//! Reading the frontmatter's YAML into a `Frontmatter` is the caller's; this module splits a
//! hub into its frontmatter text and body, and edits a hub's text surgically: it locates the
//! Nth item of the `anchors:` list and touches exactly one line of it, so that a human who
//! reviews the result sees a one-line diff and no reordered keys or reflowed scalars.

use vstd::prelude::*;
use crate::text::{first_where, lemma_first_where, lemma_first_where_found_some, is_space, trim, trim_start, trim_end, trim_range, split_on, split_ranges, range_texts, find_char, lemma_find_char_found, chars_of};

verus! {

broadcast use vstd::std_specs::vec::group_vec_axioms, vstd::seq::group_seq_axioms;

/// A parsed hub: its frontmatter and its prose body.
#[derive(Debug, Clone, PartialEq, Eq)]
pub struct Hub {
    pub frontmatter: Frontmatter,
    pub body: String,
}

/// The frontmatter of a hub.
#[derive(Debug, Clone, PartialEq, Eq)]
pub struct Frontmatter {
    pub summary: String,
    pub anchors: Vec<Claim>,
    /// Other hubs this one builds on; read but not resolved.
    pub refs: Vec<String>,
}

/// One claim of a hub: prose tied to one or more anchored spans.
#[derive(Debug, Clone, PartialEq, Eq)]
pub struct Claim {
    pub claim: String,
    pub at: At,
    /// The stored fingerprint; `None` until the claim is first verified.
    pub hash: Option<String>,
    /// Leave string-literal content out of this claim's fingerprint. The stored fingerprint
    /// was computed in this mode, so the flag travels with the claim.
    pub ignore_literals: bool,
}

/// A claim as text.
pub struct ClaimModel {
    pub claim: Seq<char>,
    pub sites: Seq<Seq<char>>,
    pub hash: Option<Seq<char>>,
    pub ignore_literals: bool,
}

impl View for Claim {
    type V = ClaimModel;

    open spec fn view(&self) -> ClaimModel {
        ClaimModel {
            claim: self.claim@,
            sites: self.at.site_list().map_values(|s: String| s@),
            hash: crate::syntax::opt_view(self.hash),
            ignore_literals: self.ignore_literals,
        }
    }
}

/// Where a claim is anchored: one span, or several (the claim is stale if any changes).
#[derive(Debug, Clone, PartialEq, Eq)]
pub enum At {
    One(String),
    Many(Vec<String>),
}

/// `slice::from_ref` views one value as a slice of length one, as std documents.
pub assume_specification<T>[ core::slice::from_ref::<T> ](s: &T) -> (r: &[T])
    ensures
        r@ == seq![*s],
;

impl At {
    /// The anchored sites, in order.
    pub open spec fn site_list(&self) -> Seq<String> {
        match self {
            At::One(s) => seq![*s],
            At::Many(v) => v@,
        }
    }

    /// The anchored sites, in order: the one site, or the listed ones.
    pub fn sites(&self) -> (r: &[String])
        ensures
            r@ == self.site_list(),
    {
        match self {
            At::One(s) => core::slice::from_ref(s),
            At::Many(v) => v.as_slice(),
        }
    }
}

/// Why a hub could not be read.
#[derive(Debug, Clone, PartialEq, Eq)]
pub enum HubError {
    MissingFrontmatter,
    UnterminatedFrontmatter,
    Yaml(String),
}

/// The message for a hub that cannot be read.
pub open spec fn hub_error_text(e: HubError) -> Seq<char> {
    match e {
        HubError::MissingFrontmatter => "hub must begin with a `---`-fenced YAML frontmatter block"@,
        HubError::UnterminatedFrontmatter => "frontmatter block is not closed with `---`"@,
        HubError::Yaml(e) => "invalid frontmatter: "@ + e@,
    }
}

impl HubError {
    /// The message shown to a user.
    pub fn message(&self) -> (m: String)
        ensures
            m@ == hub_error_text(*self),
    {
        match self {
            HubError::MissingFrontmatter => "hub must begin with a `---`-fenced YAML frontmatter block".to_owned(),
            HubError::UnterminatedFrontmatter => "frontmatter block is not closed with `---`".to_owned(),
            HubError::Yaml(e) => {
                let mut m = "invalid frontmatter: ".to_owned();
                m.push_str(e.as_str());
                m
            },
        }
    }
}

// ---------------------------------------------------------------------------------------
// Lines of a text.

/// The lines of a text split at every `\n`, the last one included even when empty.
pub open spec fn split_lines(s: Seq<char>) -> Seq<Seq<char>> {
    split_on(s, '\n')
}

/// Lines joined with `\n`.
pub open spec fn join_lines(ls: Seq<Seq<char>>) -> Seq<char>
    decreases ls.len(),
{
    if ls.len() == 0 {
        Seq::empty()
    } else if ls.len() == 1 {
        ls[0]
    } else {
        ls[0] + seq!['\n'] + join_lines(ls.drop_first())
    }
}

/// The text holds no line break.
pub open spec fn one_line(s: Seq<char>) -> bool {
    forall|k: int| 0 <= k < s.len() ==> s[k] != '\n'
}

/// Splitting always yields at least one line, and none of them holds a line break.
pub proof fn lemma_split_lines_shape(s: Seq<char>)
    ensures
        split_lines(s).len() >= 1,
        forall|k: int| 0 <= k < split_lines(s).len() ==> one_line(#[trigger] split_lines(s)[k]),
    decreases s.len(),
{
    lemma_find_char_found(s, '\n');
    match find_char(s, '\n') {
        None => {},
        Some(i) => {
            lemma_split_lines_shape(s.skip(i + 1));
            let rest = split_lines(s.skip(i + 1));
            assert forall|k: int| 0 <= k < split_lines(s).len() implies one_line(#[trigger] split_lines(s)[k]) by {
                if k > 0 {
                    assert(split_lines(s)[k] == rest[k - 1]);
                }
            }
        },
    }
}

/// Joining the lines of a text gives the text back.
pub proof fn lemma_join_split(s: Seq<char>)
    ensures
        join_lines(split_lines(s)) == s,
    decreases s.len(),
{
    lemma_find_char_found(s, '\n');
    match find_char(s, '\n') {
        None => {},
        Some(i) => {
            lemma_join_split(s.skip(i + 1));
            lemma_split_lines_shape(s.skip(i + 1));
            let ls = split_lines(s);
            assert(ls.drop_first() =~= split_lines(s.skip(i + 1)));
            assert(s =~= s.take(i) + seq!['\n'] + s.skip(i + 1));
        },
    }
}

/// Splitting the join of one-line texts gives them back.
pub proof fn lemma_split_join(ls: Seq<Seq<char>>)
    requires
        ls.len() >= 1,
        forall|k: int| 0 <= k < ls.len() ==> one_line(#[trigger] ls[k]),
    ensures
        split_lines(join_lines(ls)) == ls,
    decreases ls.len(),
{
    let s = join_lines(ls);
    if ls.len() == 1 {
        crate::text::lemma_find_char(ls[0], '\n', ls[0].len() as int);
    } else {
        let tail = ls.drop_first();
        assert forall|k: int| 0 <= k < tail.len() implies one_line(#[trigger] tail[k]) by {
            assert(tail[k] == ls[k + 1]);
        }
        lemma_split_join(tail);
        let n = ls[0].len() as int;
        assert(s[n] == '\n');
        assert forall|k: int| 0 <= k < n implies s[k] != '\n' by {
            assert(s[k] == ls[0][k]);
        }
        crate::text::lemma_find_char(s, '\n', n);
        assert(s.take(n) =~= ls[0]);
        assert(s.skip(n + 1) =~= join_lines(tail));
        assert(seq![ls[0]] + tail =~= ls);
    }
}

/// The views of a list of character vectors.
pub open spec fn texts(v: Seq<Vec<char>>) -> Seq<Seq<char>> {
    v.map_values(|l: Vec<char>| l@)
}

/// The lines of `v`, each as its own vector.
fn lines_of(v: &Vec<char>) -> (r: Vec<Vec<char>>)
    ensures
        texts(r@) == split_lines(v@),
{
    let ranges = split_ranges(v, 0, v.len(), '\n');
    let mut out: Vec<Vec<char>> = Vec::new();
    let mut k: usize = 0;
    while k < ranges.len()
        invariant
            k <= ranges@.len(),
            range_texts(v@, ranges@) == split_on(v@.subrange(0, v@.len() as int), '\n'),
            forall|j: int| 0 <= j < ranges@.len() ==> 0 <= (#[trigger] ranges@[j]).0 <= ranges@[j].1 <= v@.len(),
            texts(out@) == range_texts(v@, ranges@).take(k as int),
        decreases ranges.len() - k,
    {
        let (lo, hi) = ranges[k];
        let mut line: Vec<char> = Vec::new();
        let mut j = lo;
        while j < hi
            invariant
                lo <= j <= hi <= v.len(),
                line@ == v@.subrange(lo as int, j as int),
            decreases hi - j,
        {
            line.push(v[j]);
            proof {
                assert(v@.subrange(lo as int, j + 1) =~= v@.subrange(lo as int, j as int).push(v@[j as int]));
            }
            j += 1;
        }
        proof {
            assert(range_texts(v@, ranges@)[k as int] == line@);
        }
        let ghost old_out = out@;
        out.push(line);
        proof {
            assert(texts(out@) =~= texts(old_out).push(line@));
            assert(range_texts(v@, ranges@).take(k + 1) =~= range_texts(v@, ranges@).take(k as int).push(range_texts(v@, ranges@)[k as int]));
            assert(texts(out@) =~= range_texts(v@, ranges@).take(k + 1));
        }
        k += 1;
    }
    proof {
        assert(v@.subrange(0, v@.len() as int) =~= v@);
        assert(range_texts(v@, ranges@).take(k as int) =~= range_texts(v@, ranges@));
    }
    out
}

/// Joining one more line appends a break and the line.
proof fn lemma_join_push(ls: Seq<Seq<char>>, x: Seq<char>)
    requires
        ls.len() >= 1,
    ensures
        join_lines(ls.push(x)) == join_lines(ls) + seq!['\n'] + x,
    decreases ls.len(),
{
    let p = ls.push(x);
    assert(p[0] == ls[0]);
    if ls.len() == 1 {
        assert(p.drop_first() =~= seq![x]);
        assert(join_lines(p.drop_first()) == x);
        assert(join_lines(p) =~= ls[0] + seq!['\n'] + x);
    } else {
        lemma_join_push(ls.drop_first(), x);
        assert(p.drop_first() =~= ls.drop_first().push(x));
        assert(join_lines(p) =~= join_lines(ls) + seq!['\n'] + x);
    }
}

/// The lines joined with `\n`, as a string.
fn join_lines_exec(ls: &Vec<Vec<char>>) -> (s: String)
    ensures
        s@ == join_lines(texts(ls@)),
{
    let mut s = String::new();
    let mut k: usize = 0;
    while k < ls.len()
        invariant
            k <= ls@.len(),
            s@ == join_lines(texts(ls@).take(k as int)),
        decreases ls.len() - k,
    {
        let ghost before = s@;
        if k > 0 {
            s.push('\n');
        }
        let ghost mid = s@;
        let line = &ls[k];
        let mut j: usize = 0;
        while j < line.len()
            invariant
                j <= line.len(),
                s@ == mid + line@.take(j as int),
            decreases line.len() - j,
        {
            s.push(line[j]);
            proof {
                assert(line@.take(j + 1) =~= line@.take(j as int).push(line@[j as int]));
            }
            j += 1;
        }
        proof {
            assert(line@.take(j as int) =~= line@);
            let t = texts(ls@);
            assert(t.take(k + 1) =~= t.take(k as int).push(t[k as int]));
            if k > 0 {
                lemma_join_push(t.take(k as int), t[k as int]);
            } else {
                assert(t.take(1) =~= seq![t[0]]);
            }
        }
        k += 1;
    }
    proof {
        assert(texts(ls@).take(k as int) =~= texts(ls@));
    }
    s
}

// ---------------------------------------------------------------------------------------
// Splitting a hub into frontmatter and body.

/// A line without the `\r` of a `\r\n` ending.
pub open spec fn strip_cr(l: Seq<char>) -> Seq<char> {
    if l.len() > 0 && l.last() == '\r' {
        l.drop_last()
    } else {
        l
    }
}

/// `str::lines`: lines ended by `\n` or `\r\n`, the final ending optional; a bare `\r` at
/// the very end stays part of the last line.
pub open spec fn text_lines(s: Seq<char>) -> Seq<Seq<char>> {
    let ps = split_lines(s);
    let n: int = if ps.last().len() == 0 { ps.len() - 1 } else { ps.len() as int };
    Seq::new(n as nat, |k: int| if k < ps.len() - 1 { strip_cr(ps[k]) } else { ps[k] })
}

/// A frontmatter fence: `---`, trailing whitespace allowed.
pub open spec fn is_fence(l: Seq<char>) -> bool {
    trim_end(l) == "---"@
}

pub open spec fn fence() -> spec_fn(Seq<char>) -> bool {
    |l: Seq<char>| is_fence(l)
}

/// Each line followed by a line break.
pub open spec fn lines_with_breaks(ls: Seq<Seq<char>>) -> Seq<char>
    decreases ls.len(),
{
    if ls.len() == 0 {
        Seq::empty()
    } else {
        lines_with_breaks(ls.drop_last()) + ls.last() + seq!['\n']
    }
}

/// How a hub's text splits.
pub enum FrontmatterSplit {
    /// The frontmatter text (each line followed by a break) and the body.
    Parts(Seq<char>, Seq<char>),
    /// The first line is not a fence.
    Missing,
    /// No later line closes the frontmatter.
    Unterminated,
}

/// A hub opens with a fence line; the frontmatter runs to the next fence line; the body is
/// every line after it, joined with `\n`.
pub open spec fn frontmatter_split(c: Seq<char>) -> FrontmatterSplit {
    let ls = text_lines(c);
    if ls.len() == 0 || !is_fence(ls[0]) {
        FrontmatterSplit::Missing
    } else {
        match first_where(ls.skip(1), fence()) {
            None => FrontmatterSplit::Unterminated,
            Some(k) => FrontmatterSplit::Parts(
                lines_with_breaks(ls.subrange(1, k + 1)),
                join_lines(ls.skip(k + 2)),
            ),
        }
    }
}

/// `trim_end(l) == "---"`.
fn is_fence_exec(l: &Vec<char>) -> (b: bool)
    ensures
        b == is_fence(l@),
{
    let mut e = l.len();
    proof {
        assert(l@.subrange(0, e as int) =~= l@);
    }
    while e > 0 && crate::text::char_is_space(l[e - 1])
        invariant
            e <= l.len(),
            trim_end(l@) == trim_end(l@.subrange(0, e as int)),
        decreases e,
    {
        proof {
            assert(l@.subrange(0, e as int).drop_last() =~= l@.subrange(0, e - 1));
        }
        e -= 1;
    }
    let r = e == 3 && l[0] == '-' && l[1] == '-' && l[2] == '-';
    proof {
        reveal_strlit("---");
        let t = l@.subrange(0, e as int);
        assert(e == 0 || !is_space(t.last()));
        assert(trim_end(t) == t);
        if r {
            assert(t =~= "---"@);
        } else if t == "---"@ {
            assert(t.len() == 3 && t[0] == '-' && t[1] == '-' && t[2] == '-');
        }
    }
    r
}

/// A copy of `l` without the `\r` of a `\r\n` ending.
fn strip_cr_exec(l: &Vec<char>) -> (r: Vec<char>)
    ensures
        r@ == strip_cr(l@),
{
    let mut r = l.clone();
    proof {
        assert(r@ =~= l@);
    }
    if r.len() > 0 && r[r.len() - 1] == '\r' {
        r.pop();
    }
    r
}

/// `str::lines` of the characters `v`.
pub(crate) fn text_lines_exec(v: &Vec<char>) -> (r: Vec<Vec<char>>)
    ensures
        texts(r@) == text_lines(v@),
{
    let ps = lines_of(v);
    proof {
        lemma_split_lines_shape(v@);
    }
    let len = ps.len();
    let n = if ps[len - 1].len() == 0 { len - 1 } else { len };
    let ghost want = text_lines(v@);
    let mut out: Vec<Vec<char>> = Vec::new();
    let mut k: usize = 0;
    while k < n
        invariant
            k <= n <= len == ps@.len(),
            texts(ps@) == split_lines(v@),
            want == text_lines(v@),
            want.len() == n,
            texts(out@) == want.take(k as int),
        decreases n - k,
    {
        let line = if k < len - 1 { strip_cr_exec(&ps[k]) } else { ps[k].clone() };
        proof {
            assert(texts(ps@)[k as int] == ps@[k as int]@);
            assert(line@ == want[k as int]);
            assert(texts(out@.push(line)) =~= texts(out@).push(line@));
            assert(want.take(k + 1) =~= want.take(k as int).push(want[k as int]));
        }
        out.push(line);
        k += 1;
    }
    proof {
        assert(want.take(k as int) =~= want);
    }
    out
}

/// Splits a hub's text into its frontmatter text (each line followed by a break) and its
/// body (the lines after the closing fence, joined with `\n`).
pub fn split_frontmatter(content: &str) -> (r: Result<(String, String), HubError>)
    ensures
        match r {
            Ok((y, b)) => frontmatter_split(content@) == FrontmatterSplit::Parts(y@, b@),
            Err(HubError::MissingFrontmatter) => frontmatter_split(content@) is Missing,
            Err(HubError::UnterminatedFrontmatter) => frontmatter_split(content@) is Unterminated,
            Err(HubError::Yaml(_)) => false,
        },
{
    let chars = chars_of(content);
    let ls = text_lines_exec(&chars);
    let ghost t = texts(ls@);
    if ls.len() == 0 || !is_fence_exec(&ls[0]) {
        return Err(HubError::MissingFrontmatter);
    }
    let mut yaml = String::new();
    let mut k: usize = 1;
    while k < ls.len() && !is_fence_exec(&ls[k])
        invariant
            1 <= k <= ls@.len(),
            t == texts(ls@),
            forall|i: int| 1 <= i < k ==> !is_fence(#[trigger] t[i]),
            yaml@ == lines_with_breaks(t.subrange(1, k as int)),
        decreases ls.len() - k,
    {
        let line = &ls[k];
        let mut j: usize = 0;
        let ghost before = yaml@;
        while j < line.len()
            invariant
                j <= line.len(),
                yaml@ == before + line@.take(j as int),
            decreases line.len() - j,
        {
            yaml.push(line[j]);
            proof {
                assert(line@.take(j + 1) =~= line@.take(j as int).push(line@[j as int]));
            }
            j += 1;
        }
        yaml.push('\n');
        proof {
            assert(line@.take(j as int) =~= line@);
            let sub = t.subrange(1, k + 1);
            assert(sub.drop_last() =~= t.subrange(1, k as int));
            assert(sub.last() == line@);
        }
        k += 1;
    }
    let ghost rest = t.skip(1);
    proof {
        assert forall|i: int| 0 <= i < k - 1 implies !fence()(#[trigger] rest[i]) by {
            assert(rest[i] == t[i + 1]);
        }
    }
    if k == ls.len() {
        proof {
            lemma_first_where(rest, fence(), k - 1);
        }
        return Err(HubError::UnterminatedFrontmatter);
    }
    proof {
        assert(rest[k - 1] == t[k as int]);
        lemma_first_where(rest, fence(), k - 1);
    }
    let mut tail: Vec<Vec<char>> = Vec::new();
    let mut i = k + 1;
    while i < ls.len()
        invariant
            k < i <= ls@.len(),
            t == texts(ls@),
            texts(tail@) == t.subrange(k + 1, i as int),
        decreases ls.len() - i,
    {
        let line = ls[i].clone();
        proof {
            assert(texts(tail@.push(line)) =~= texts(tail@).push(line@));
            assert(t.subrange(k + 1, i + 1) =~= t.subrange(k + 1, i as int).push(t[i as int]));
        }
        tail.push(line);
        i += 1;
    }
    let body = join_lines_exec(&tail);
    proof {
        assert(t.subrange(k + 1, i as int) =~= t.skip(k + 1));
    }
    Ok((yaml, body))
}

// ---------------------------------------------------------------------------------------
// Surgical edits of the `anchors:` list.
//
// The text is taken as its `\n`-separated lines. The frontmatter runs from line 1 to the
// closing fence. Its `anchors:` line opens the list; the list's items start at the `-`
// lines of the first dash indentation met, and the list ends at the first non-blank line
// indented no deeper than `anchors:`. The keys of an item sit two columns right of its dash.

/// The number of leading ` ` characters.
pub open spec fn leading_spaces(s: Seq<char>) -> nat
    decreases s.len(),
{
    if s.len() > 0 && s[0] == ' ' {
        1 + leading_spaces(s.drop_first())
    } else {
        0
    }
}

/// `s.starts_with(p)`.
pub open spec fn starts_with(s: Seq<char>, p: Seq<char>) -> bool {
    p.len() <= s.len() && s.take(p.len() as int) == p
}

/// Whitespace only.
pub open spec fn blank(l: Seq<char>) -> bool {
    trim(l).len() == 0
}

/// An item's first line: `-` alone or `- ` and more, after the indentation.
pub open spec fn is_dash(t: Seq<char>) -> bool {
    t == "-"@ || starts_with(t, "- "@)
}

/// The index of the closing fence, when line 0 opens the frontmatter.
pub open spec fn yaml_end(ls: Seq<Seq<char>>) -> Option<int> {
    if ls.len() > 0 && is_fence(ls[0]) {
        match first_where(ls.skip(1), fence()) {
            Some(k) => Some(k + 1),
            None => None,
        }
    } else {
        None
    }
}

pub open spec fn anchors_key() -> spec_fn(Seq<char>) -> bool {
    |l: Seq<char>| starts_with(trim_start(l), "anchors:"@)
}

/// The first frontmatter line that opens the `anchors:` list.
pub open spec fn anchors_line(ls: Seq<Seq<char>>, end: int) -> Option<int> {
    match first_where(ls.subrange(1, end), anchors_key()) {
        Some(k) => Some(k + 1),
        None => None,
    }
}

/// Scans the lines `i..end` of the list under an `anchors:` line indented `ai`: the item
/// starts met so far (line and dash indentation), given the items' dash indentation `ind`
/// once known; and the line where the list ends.
pub open spec fn scan(ls: Seq<Seq<char>>, i: int, end: int, ai: nat, ind: Option<nat>, starts: Seq<(int, nat)>) -> (Seq<(int, nat)>, int)
    decreases end - i,
{
    if i >= end || i < 0 || i >= ls.len() {
        (starts, end)
    } else if blank(ls[i]) {
        scan(ls, i + 1, end, ai, ind, starts)
    } else if leading_spaces(ls[i]) <= ai {
        (starts, i)
    } else if is_dash(trim_start(ls[i])) && (ind is None || ind == Some(leading_spaces(ls[i]))) {
        scan(ls, i + 1, end, ai, Some(leading_spaces(ls[i])), starts.push((i, leading_spaces(ls[i]))))
    } else {
        scan(ls, i + 1, end, ai, ind, starts)
    }
}

/// One item of the `anchors:` list: its lines `start..end` and the indentation of its keys.
pub struct ItemModel {
    pub start: int,
    pub end: int,
    pub key_indent: nat,
}

/// Items from their starting lines: each runs to the next start, the last to the list's end.
pub open spec fn items_from(starts: Seq<(int, nat)>, seq_end: int) -> Seq<ItemModel> {
    Seq::new(
        starts.len(),
        |n: int|
            ItemModel {
                start: starts[n].0,
                end: if n + 1 < starts.len() { starts[n + 1].0 } else { seq_end },
                key_indent: starts[n].1 + 2,
            },
    )
}

/// The items of the `anchors:` list, in order.
pub open spec fn anchor_items(ls: Seq<Seq<char>>) -> Seq<ItemModel> {
    match yaml_end(ls) {
        None => Seq::empty(),
        Some(e) => match anchors_line(ls, e) {
            None => Seq::empty(),
            Some(a) => {
                let (st, se) = scan(ls, a + 1, e, leading_spaces(ls[a]), None, Seq::empty());
                items_from(st, se)
            },
        },
    }
}

/// The item at `idx`, if there is one.
pub open spec fn anchor_item(ls: Seq<Seq<char>>, idx: int) -> Option<ItemModel> {
    if 0 <= idx < anchor_items(ls).len() {
        Some(anchor_items(ls)[idx])
    } else {
        None
    }
}

/// `n` spaces.
pub open spec fn spaces(n: nat) -> Seq<char> {
    Seq::new(n, |i: int| ' ')
}

/// The line `key: value` at indentation `indent`.
pub open spec fn key_line(indent: nat, key: Seq<char>, value: Seq<char>) -> Seq<char> {
    spaces(indent) + key + ": "@ + value
}

pub open spec fn is_key_line(indent: nat, key: Seq<char>) -> spec_fn(Seq<char>) -> bool {
    |l: Seq<char>| leading_spaces(l) == indent && starts_with(trim_start(l), key + ":"@)
}

/// The first line of the item that holds `key:` at the item's key indentation.
pub open spec fn key_line_at(ls: Seq<Seq<char>>, item: ItemModel, key: Seq<char>) -> Option<int> {
    match first_where(ls.subrange(item.start, item.end), is_key_line(item.key_indent, key)) {
        Some(k) => Some(item.start + k),
        None => None,
    }
}

/// The last non-blank line in `lo..hi`.
pub open spec fn last_nonblank(ls: Seq<Seq<char>>, lo: int, hi: int) -> Option<int>
    decreases hi - lo,
{
    if hi <= lo {
        None
    } else if !blank(ls[hi - 1]) {
        Some(hi - 1)
    } else {
        last_nonblank(ls, lo, hi - 1)
    }
}

/// Where a new key goes: after the item's last non-blank line, or at its end.
pub open spec fn insertion_line(ls: Seq<Seq<char>>, item: ItemModel) -> int {
    match last_nonblank(ls, item.start, item.end) {
        Some(i) => i + 1,
        None => item.end,
    }
}

/// The lines with `key: value` set in the item: its existing `key:` line rewritten, or a new
/// line inserted after the item's last non-blank line.
pub open spec fn with_key(ls: Seq<Seq<char>>, item: ItemModel, key: Seq<char>, value: Seq<char>) -> Seq<Seq<char>> {
    match key_line_at(ls, item, key) {
        Some(i) => ls.update(i, key_line(item.key_indent, key, value)),
        None => ls.insert(insertion_line(ls, item), key_line(item.key_indent, key, value)),
    }
}

/// The text with the `hash:` of the anchor at `idx` set to `h`, or `None` when the
/// frontmatter or the item cannot be located.
pub open spec fn hash_set(text: Seq<char>, idx: int, h: Seq<char>) -> Option<Seq<char>> {
    let ls = split_lines(text);
    match anchor_item(ls, idx) {
        None => None,
        Some(item) => Some(join_lines(with_key(ls, item, "hash"@, h))),
    }
}

/// The value of an `at:` line: what follows `at:`, trimmed.
pub open spec fn at_value(l: Seq<char>) -> Seq<char> {
    trim(trim_start(l).skip(3))
}

/// The text with the scalar `at:` of the anchor at `idx` set to `new_at`; `None` when the
/// item or its `at:` line cannot be located, or when the `at:` is a list (nothing follows
/// `at:` on its line), which is not followed automatically.
pub open spec fn at_set(text: Seq<char>, idx: int, new_at: Seq<char>) -> Option<Seq<char>> {
    let ls = split_lines(text);
    match anchor_item(ls, idx) {
        None => None,
        Some(item) => match key_line_at(ls, item, "at"@) {
            None => None,
            Some(i) => if at_value(ls[i]).len() == 0 {
                None
            } else {
                Some(join_lines(ls.update(i, key_line(item.key_indent, "at"@, new_at))))
            },
        },
    }
}

/// `leading_spaces(l)`.
fn leading_spaces_exec(l: &Vec<char>) -> (n: usize)
    ensures
        n == leading_spaces(l@),
        n <= l.len(),
{
    let mut k: usize = 0;
    proof {
        assert(l@.skip(0) =~= l@);
    }
    while k < l.len() && l[k] == ' '
        invariant
            k <= l.len(),
            leading_spaces(l@) == k + leading_spaces(l@.skip(k as int)),
        decreases l.len() - k,
    {
        proof {
            assert(l@.skip(k as int).drop_first() =~= l@.skip(k + 1));
        }
        k += 1;
    }
    k
}

/// Where `trim_start(l)` begins.
fn trim_start_at(l: &Vec<char>) -> (a: usize)
    ensures
        a <= l.len(),
        l@.skip(a as int) == trim_start(l@),
{
    let mut a: usize = 0;
    proof {
        assert(l@.skip(0) =~= l@);
    }
    while a < l.len() && crate::text::char_is_space(l[a])
        invariant
            a <= l.len(),
            trim_start(l@) == trim_start(l@.skip(a as int)),
        decreases l.len() - a,
    {
        proof {
            assert(l@.skip(a as int).drop_first() =~= l@.skip(a + 1));
        }
        a += 1;
    }
    a
}

/// `starts_with(l[a..], p)`.
fn starts_with_at(l: &Vec<char>, a: usize, p: &str) -> (b: bool)
    requires
        a <= l.len(),
    ensures
        b == starts_with(l@.skip(a as int), p@),
{
    let w = chars_of(p);
    if w.len() > l.len() - a {
        return false;
    }
    let r = crate::text::ranges_equal(l, a, a + w.len(), &w, 0, w.len());
    proof {
        assert(w@.subrange(0, w@.len() as int) =~= w@);
        assert(l@.skip(a as int).take(w@.len() as int) =~= l@.subrange(a as int, a + w@.len()));
    }
    r
}

/// `blank(l)`.
fn blank_exec(l: &Vec<char>) -> (b: bool)
    ensures
        b == blank(l@),
{
    let (x, y) = trim_range(l, 0, l.len());
    proof {
        assert(l@.subrange(0, l@.len() as int) =~= l@);
    }
    x == y
}

/// `is_dash(l[a..])`.
fn is_dash_at(l: &Vec<char>, a: usize) -> (b: bool)
    requires
        a <= l.len(),
    ensures
        b == is_dash(l@.skip(a as int)),
{
    let lone = l.len() - a == 1 && l[a] == '-';
    proof {
        reveal_strlit("-");
        if lone {
            assert(l@.skip(a as int) =~= "-"@);
        } else if l@.skip(a as int) == "-"@ {
            assert(l@.skip(a as int).len() == 1);
            assert(l@.skip(a as int)[0] == '-');
        }
    }
    lone || starts_with_at(l, a, "- ")
}

/// One item of the `anchors:` list: lines `start..end`, dash at column `dash`.
struct Item {
    start: usize,
    end: usize,
    dash: usize,
}

impl View for Item {
    type V = ItemModel;

    closed spec fn view(&self) -> ItemModel {
        ItemModel { start: self.start as int, end: self.end as int, key_indent: self.dash as nat + 2 }
    }
}

pub open spec fn starts_view(v: Seq<(usize, usize)>) -> Seq<(int, nat)> {
    v.map_values(|p: (usize, usize)| (p.0 as int, p.1 as nat))
}

pub open spec fn opt_nat(o: Option<usize>) -> Option<nat> {
    match o {
        Some(n) => Some(n as nat),
        None => None,
    }
}

/// `yaml_end(ls)`.
fn yaml_end_exec(ls: &Vec<Vec<char>>) -> (r: Option<usize>)
    ensures
        match r {
            Some(e) => yaml_end(texts(ls@)) == Some(e as int) && 1 <= e < ls@.len(),
            None => yaml_end(texts(ls@)) is None,
        },
{
    let ghost t = texts(ls@);
    if ls.len() == 0 || !is_fence_exec(&ls[0]) {
        return None;
    }
    let ghost rest = t.skip(1);
    proof {
        assert(t[0] == ls@[0]@);
        assert(is_fence(t[0]));
    }
    let mut k: usize = 1;
    while k < ls.len()
        invariant
            1 <= k <= ls@.len(),
            t.len() == ls@.len(),
            is_fence(t[0]),
            t == texts(ls@),
            rest == t.skip(1),
            forall|i: int| 0 <= i < k - 1 ==> !fence()(#[trigger] rest[i]),
        decreases ls.len() - k,
    {
        if is_fence_exec(&ls[k]) {
            proof {
                assert(rest[k - 1] == t[k as int]);
                lemma_first_where(rest, fence(), k - 1);
            }
            return Some(k);
        }
        proof {
            assert(rest[k - 1] == t[k as int]);
        }
        k += 1;
    }
    proof {
        lemma_first_where(rest, fence(), k - 1);
    }
    None
}

/// `anchors_line(ls, end)`.
fn anchors_line_exec(ls: &Vec<Vec<char>>, end: usize) -> (r: Option<usize>)
    requires
        1 <= end <= ls@.len(),
    ensures
        match r {
            Some(a) => anchors_line(texts(ls@), end as int) == Some(a as int) && 1 <= a < end,
            None => anchors_line(texts(ls@), end as int) is None,
        },
{
    let ghost t = texts(ls@);
    let ghost sub = t.subrange(1, end as int);
    let mut k: usize = 1;
    while k < end
        invariant
            1 <= k <= end <= ls@.len(),
            t == texts(ls@),
            sub == t.subrange(1, end as int),
            forall|i: int| 0 <= i < k - 1 ==> !anchors_key()(#[trigger] sub[i]),
        decreases end - k,
    {
        let a = trim_start_at(&ls[k]);
        if starts_with_at(&ls[k], a, "anchors:") {
            proof {
                assert(sub[k - 1] == t[k as int]);
                lemma_first_where(sub, anchors_key(), k - 1);
            }
            return Some(k);
        }
        proof {
            assert(sub[k - 1] == t[k as int]);
        }
        k += 1;
    }
    proof {
        lemma_first_where(sub, anchors_key(), k - 1);
    }
    None
}

proof fn lemma_starts_push(v: Seq<(usize, usize)>, p: (usize, usize))
    ensures
        starts_view(v.push(p)) =~= starts_view(v).push((p.0 as int, p.1 as nat)),
{
}

/// `anchor_items(ls)`.
fn anchor_items_exec(ls: &Vec<Vec<char>>) -> (r: Vec<Item>)
    ensures
        r@.map_values(|it: Item| it@) == anchor_items(texts(ls@)),
        forall|k: int| 0 <= k < r@.len() ==> (#[trigger] r@[k]).start < r@[k].end <= ls@.len(),
{
    let ghost t = texts(ls@);
    let e = match yaml_end_exec(ls) {
        Some(e) => e,
        None => {
            let r: Vec<Item> = Vec::new();
            proof {
                assert(r@.map_values(|it: Item| it@) =~= Seq::<ItemModel>::empty());
            }
            return r;
        },
    };
    let a = match anchors_line_exec(ls, e) {
        Some(a) => a,
        None => {
            let r: Vec<Item> = Vec::new();
            proof {
                assert(r@.map_values(|it: Item| it@) =~= Seq::<ItemModel>::empty());
            }
            return r;
        },
    };
    let ai = leading_spaces_exec(&ls[a]);
    let ghost target = scan(t, a + 1, e as int, ai as nat, None, Seq::empty());
    let mut starts: Vec<(usize, usize)> = Vec::new();
    let mut ind: Option<usize> = None;
    let mut seq_end = e;
    let mut i = a + 1;
    proof {
        assert(starts_view(starts@) =~= Seq::<(int, nat)>::empty());
    }
    while i < e
        invariant_except_break
            a + 1 <= i <= e,
            seq_end == e,
            scan(t, i as int, e as int, ai as nat, opt_nat(ind), starts_view(starts@)) == target,
        invariant
            e < ls@.len(),
            t == texts(ls@),
            forall|k: int| 0 <= k < starts@.len() ==> a < (#[trigger] starts@[k]).0 < i,
            forall|k: int, m: int| 0 <= k < m < starts@.len() ==> starts@[k].0 < starts@[m].0,
            a < seq_end <= e,
        ensures
            target == (starts_view(starts@), seq_end as int),
            forall|k: int| 0 <= k < starts@.len() ==> a < (#[trigger] starts@[k]).0 < seq_end,
        decreases e - i,
    {
        let line = &ls[i];
        proof {
            assert(t[i as int] == line@);
        }
        if blank_exec(line) {
            i += 1;
            continue;
        }
        let n = leading_spaces_exec(line);
        if n <= ai {
            seq_end = i;
            break;
        }
        let st = trim_start_at(line);
        let ok = match ind {
            Some(d) => d == n,
            None => true,
        };
        if is_dash_at(line, st) && ok {
            proof {
                lemma_starts_push(starts@, (i, n));
            }
            ind = Some(n);
            starts.push((i, n));
        }
        i += 1;
    }
    let mut out: Vec<Item> = Vec::new();
    let ghost want = items_from(starts_view(starts@), seq_end as int);
    let mut k: usize = 0;
    while k < starts.len()
        invariant
            k <= starts@.len(),
            want == items_from(starts_view(starts@), seq_end as int),
            out@.map_values(|it: Item| it@) == want.take(k as int),
            forall|j: int| 0 <= j < starts@.len() ==> a < (#[trigger] starts@[j]).0 < seq_end,
            forall|j: int, m: int| 0 <= j < m < starts@.len() ==> starts@[j].0 < starts@[m].0,
            seq_end <= e < ls@.len(),
            forall|j: int| 0 <= j < out@.len() ==> (#[trigger] out@[j]).start < out@[j].end <= ls@.len(),
        decreases starts.len() - k,
    {
        let (start, dash) = starts[k];
        let end = if k + 1 < starts.len() { starts[k + 1].0 } else { seq_end };
        let it = Item { start, end, dash };
        proof {
            assert(it@ == want[k as int]);
            assert(out@.push(it).map_values(|it: Item| it@) =~= out@.map_values(|it: Item| it@).push(it@));
            assert(want.take(k + 1) =~= want.take(k as int).push(want[k as int]));
        }
        out.push(it);
        k += 1;
    }
    proof {
        assert(want.take(k as int) =~= want);
    }
    out
}

/// `key_line_at(ls, item, key)`.
fn key_line_at_exec(ls: &Vec<Vec<char>>, item: &Item, key: &str) -> (r: Option<usize>)
    requires
        item.start < item.end <= ls@.len(),
    ensures
        match r {
            Some(i) => key_line_at(texts(ls@), item@, key@) == Some(i as int) && item.start <= i < item.end,
            None => key_line_at(texts(ls@), item@, key@) is None,
        },
{
    let ghost t = texts(ls@);
    let ghost sub = t.subrange(item.start as int, item.end as int);
    let ghost p = is_key_line(item@.key_indent, key@ + ":"@);
    let mut colon = key.to_owned();
    colon.push(':');
    proof {
        reveal_strlit(":");
        assert(colon@ =~= key@ + ":"@);
    }
    let mut k = item.start;
    while k < item.end
        invariant
            item.start <= k <= item.end <= ls@.len(),
            t == texts(ls@),
            sub == t.subrange(item.start as int, item.end as int),
            colon@ == key@ + ":"@,
            forall|i: int| 0 <= i < k - item.start ==> !is_key_line(item@.key_indent, key@)(#[trigger] sub[i]),
        decreases item.end - k,
    {
        let line = &ls[k];
        proof {
            assert(sub[k - item.start] == t[k as int]);
            assert(t[k as int] == line@);
            reveal_strlit(":");
        }
        let n = leading_spaces_exec(line);
        let a = trim_start_at(line);
        let hit = n >= 2 && n - 2 == item.dash && starts_with_at(line, a, colon.as_str());
        if hit {
            proof {
                lemma_first_where(sub, is_key_line(item@.key_indent, key@), k - item.start);
            }
            return Some(k);
        }
        k += 1;
    }
    proof {
        lemma_first_where(sub, is_key_line(item@.key_indent, key@), k - item.start);
    }
    None
}

/// `last_nonblank(ls, lo, hi)`.
fn last_nonblank_exec(ls: &Vec<Vec<char>>, lo: usize, hi: usize) -> (r: Option<usize>)
    requires
        lo <= hi <= ls@.len(),
    ensures
        match r {
            Some(i) => last_nonblank(texts(ls@), lo as int, hi as int) == Some(i as int) && lo <= i < hi,
            None => last_nonblank(texts(ls@), lo as int, hi as int) is None,
        },
{
    let ghost t = texts(ls@);
    let mut h = hi;
    while h > lo
        invariant
            lo <= h <= hi <= ls@.len(),
            t == texts(ls@),
            last_nonblank(t, lo as int, hi as int) == last_nonblank(t, lo as int, h as int),
        decreases h,
    {
        proof {
            assert(t[h - 1] == ls@[h - 1]@);
        }
        if !blank_exec(&ls[h - 1]) {
            return Some(h - 1);
        }
        h -= 1;
    }
    None
}

/// `key_line(dash + 2, key, value)`.
fn key_line_exec(dash: usize, key: &str, value: &str) -> (r: Vec<char>)
    ensures
        r@ == key_line(dash as nat + 2, key@, value@),
{
    let mut r: Vec<char> = Vec::new();
    let mut k: usize = 0;
    while k < dash
        invariant
            k <= dash,
            r@ == spaces(k as nat),
        decreases dash - k,
    {
        r.push(' ');
        proof {
            assert(r@ =~= spaces(k as nat + 1));
        }
        k += 1;
    }
    r.push(' ');
    r.push(' ');
    proof {
        assert(r@ =~= spaces(dash as nat + 2));
    }
    let kc = chars_of(key);
    let vc = chars_of(value);
    let mut i: usize = 0;
    let ghost base = r@;
    while i < kc.len()
        invariant
            i <= kc.len(),
            r@ == base + kc@.take(i as int),
        decreases kc.len() - i,
    {
        r.push(kc[i]);
        proof {
            assert(kc@.take(i + 1) =~= kc@.take(i as int).push(kc@[i as int]));
        }
        i += 1;
    }
    r.push(':');
    r.push(' ');
    let ghost base2 = r@;
    let mut i: usize = 0;
    while i < vc.len()
        invariant
            i <= vc.len(),
            r@ == base2 + vc@.take(i as int),
        decreases vc.len() - i,
    {
        r.push(vc[i]);
        proof {
            assert(vc@.take(i + 1) =~= vc@.take(i as int).push(vc@[i as int]));
        }
        i += 1;
    }
    proof {
        reveal_strlit(": ");
        assert(kc@.take(kc@.len() as int) =~= kc@);
        assert(vc@.take(vc@.len() as int) =~= vc@);
        assert(r@ =~= spaces(dash as nat + 2) + key@ + ": "@ + value@);
    }
    r
}

/// Sets (or inserts) the `hash:` of the anchor at `anchor_index` to `new_hash`, touching one
/// line of the text. `None` when the frontmatter or the anchor cannot be located.
pub fn set_anchor_hash(file_text: &str, anchor_index: usize, new_hash: &str) -> (r: Option<String>)
    ensures
        match r {
            Some(out) => hash_set(file_text@, anchor_index as int, new_hash@) == Some(out@),
            None => hash_set(file_text@, anchor_index as int, new_hash@) is None,
        },
{
    let chars = chars_of(file_text);
    let mut ls = lines_of(&chars);
    let ghost t = texts(ls@);
    let items = anchor_items_exec(&ls);
    if anchor_index >= items.len() {
        return None;
    }
    let item = &items[anchor_index];
    proof {
        assert(items@.map_values(|it: Item| it@)[anchor_index as int] == item@);
    }
    let line = key_line_exec(item.dash, "hash", new_hash);
    match key_line_at_exec(&ls, item, "hash") {
        Some(i) => {
            ls.set(i, line);
            proof {
                assert(texts(ls@) =~= t.update(i as int, key_line(item@.key_indent, "hash"@, new_hash@)));
            }
        },
        None => {
            let at = match last_nonblank_exec(&ls, item.start, item.end) {
                Some(i) => i + 1,
                None => item.end,
            };
            ls.insert(at, line);
            proof {
                assert(texts(ls@) =~= t.insert(at as int, key_line(item@.key_indent, "hash"@, new_hash@)));
            }
        },
    }
    Some(join_lines_exec(&ls))
}

/// Rewrites the scalar `at:` of the anchor at `anchor_index` to `new_at`, touching one line.
/// `None` when the anchor or its `at:` line cannot be located, or when its `at:` is a list,
/// which is not followed automatically.
pub fn set_anchor_at(file_text: &str, anchor_index: usize, new_at: &str) -> (r: Option<String>)
    ensures
        match r {
            Some(out) => at_set(file_text@, anchor_index as int, new_at@) == Some(out@),
            None => at_set(file_text@, anchor_index as int, new_at@) is None,
        },
{
    let chars = chars_of(file_text);
    let mut ls = lines_of(&chars);
    let ghost t = texts(ls@);
    let items = anchor_items_exec(&ls);
    if anchor_index >= items.len() {
        return None;
    }
    let item = &items[anchor_index];
    proof {
        assert(items@.map_values(|it: Item| it@)[anchor_index as int] == item@);
    }
    let i = match key_line_at_exec(&ls, item, "at") {
        Some(i) => i,
        None => return None,
    };
    let a = trim_start_at(&ls[i]);
    proof {
        assert(t[i as int] == ls@[i as int]@);
        reveal_strlit("at");
        reveal_strlit(":");
        let p: Seq<char> = "at"@ + ":"@;
        assert(p.len() == 3);
        let sub = t.subrange(item.start as int, item.end as int);
        crate::syntax::lemma_first_where_bounds(sub, is_key_line(item@.key_indent, "at"@));
        assert(sub[i - item.start] == t[i as int]);
        assert(starts_with(trim_start(t[i as int]), p));
    }
    let (x, y) = trim_range(&ls[i], a + 3, ls[i].len());
    proof {
        assert(ls@[i as int]@.subrange(a + 3, ls@[i as int]@.len() as int) =~= trim_start(t[i as int]).skip(3));
    }
    if x == y {
        return None;
    }
    let line = key_line_exec(item.dash, "at", new_at);
    ls.set(i, line);
    proof {
        assert(texts(ls@) =~= t.update(i as int, key_line(item@.key_indent, "at"@, new_at@)));
    }
    Some(join_lines_exec(&ls))
}

/// The `hash:` line the anchor at `idx` already has, if any.
pub open spec fn hash_line(text: Seq<char>, idx: int) -> Option<int> {
    let ls = split_lines(text);
    match anchor_item(ls, idx) {
        Some(item) => key_line_at(ls, item, "hash"@),
        None => None,
    }
}

/// The anchor at `idx` records `h` as its hash: its `hash:` line reads `hash: h`.
pub open spec fn records_hash(text: Seq<char>, idx: int, h: Seq<char>) -> bool {
    let ls = split_lines(text);
    match anchor_item(ls, idx) {
        Some(item) => match key_line_at(ls, item, "hash"@) {
            Some(i) => ls[i] == key_line(item.key_indent, "hash"@, h),
            None => false,
        },
        None => false,
    }
}

proof fn lemma_key_line_one_line(indent: nat, key: Seq<char>, value: Seq<char>)
    requires
        one_line(key),
        one_line(value),
    ensures
        one_line(key_line(indent, key, value)),
{
    reveal_strlit(": ");
    let l = key_line(indent, key, value);
    assert forall|k: int| 0 <= k < l.len() implies l[k] != '\n' by {
        let n = indent as int;
        if k < n {
        } else if k < n + key.len() {
            assert(l[k] == key[k - n]);
        } else if k < n + key.len() + 2 {
        } else {
            assert(l[k] == value[k - n - key.len() - 2]);
        }
    }
}

/// Setting an anchor's hash to the value its `hash:` line already records gives back the
/// text byte for byte.
pub proof fn lemma_same_hash_is_identity(text: Seq<char>, idx: int, h: Seq<char>)
    requires
        records_hash(text, idx, h),
    ensures
        hash_set(text, idx, h) == Some(text),
{
    let ls = split_lines(text);
    let item = anchor_item(ls, idx).unwrap();
    let i = key_line_at(ls, item, "hash"@).unwrap();
    lemma_item_bounds(ls, idx);
    crate::syntax::lemma_first_where_bounds(ls.subrange(item.start, item.end), is_key_line(item.key_indent, "hash"@));
    assert(with_key(ls, item, "hash"@, h) =~= ls);
    lemma_join_split(text);
}

/// Setting the hash of an anchor that has a `hash:` line rewrites that line and no other:
/// the text keeps its number of lines.
pub proof fn lemma_set_hash_rewrites_one_line(text: Seq<char>, idx: int, h: Seq<char>)
    requires
        hash_line(text, idx) is Some,
        one_line(h),
    ensures
        hash_set(text, idx, h) matches Some(out) && split_lines(out) == split_lines(text).update(
            hash_line(text, idx).unwrap(),
            key_line(anchor_item(split_lines(text), idx).unwrap().key_indent, "hash"@, h),
        ),
{
    let ls = split_lines(text);
    let item = anchor_item(ls, idx).unwrap();
    let i = hash_line(text, idx).unwrap();
    let line = key_line(item.key_indent, "hash"@, h);
    reveal_strlit("hash");
    lemma_key_line_one_line(item.key_indent, "hash"@, h);
    lemma_split_lines_shape(text);
    let upd = ls.update(i, line);
    lemma_item_bounds(ls, idx);
    crate::syntax::lemma_first_where_bounds(ls.subrange(item.start, item.end), is_key_line(item.key_indent, "hash"@));
    assert forall|k: int| 0 <= k < upd.len() implies one_line(#[trigger] upd[k]) by {
        if k != i {
            assert(upd[k] == ls[k]);
        }
    }
    lemma_split_join(upd);
}

/// Setting the hash of an anchor without a `hash:` line inserts one line after the item's
/// last non-blank line and leaves every other line as it was.
pub proof fn lemma_set_hash_inserts_one_line(text: Seq<char>, idx: int, h: Seq<char>)
    requires
        anchor_item(split_lines(text), idx) is Some,
        hash_line(text, idx) is None,
        one_line(h),
    ensures
        hash_set(text, idx, h) matches Some(out) && split_lines(out) == split_lines(text).insert(
            insertion_line(split_lines(text), anchor_item(split_lines(text), idx).unwrap()),
            key_line(anchor_item(split_lines(text), idx).unwrap().key_indent, "hash"@, h),
        ),
{
    let ls = split_lines(text);
    let item = anchor_item(ls, idx).unwrap();
    let line = key_line(item.key_indent, "hash"@, h);
    let at = insertion_line(ls, item);
    reveal_strlit("hash");
    lemma_key_line_one_line(item.key_indent, "hash"@, h);
    lemma_split_lines_shape(text);
    lemma_item_bounds(ls, idx);
    lemma_last_nonblank_bounds(ls, item.start, item.end);
    let ins = ls.insert(at, line);
    assert forall|k: int| 0 <= k < ins.len() implies one_line(#[trigger] ins[k]) by {
        if k < at {
            assert(ins[k] == ls[k]);
        } else if k > at {
            assert(ins[k] == ls[k - 1]);
        }
    }
    lemma_split_join(ins);
}

proof fn lemma_last_nonblank_bounds(ls: Seq<Seq<char>>, lo: int, hi: int)
    ensures
        last_nonblank(ls, lo, hi) matches Some(i) ==> lo <= i < hi,
    decreases hi - lo,
{
    if hi > lo && blank(ls[hi - 1]) {
        lemma_last_nonblank_bounds(ls, lo, hi - 1);
    }
}

proof fn lemma_scan_bounds(ls: Seq<Seq<char>>, i: int, end: int, ai: nat, ind: Option<nat>, starts: Seq<(int, nat)>, lo: int)
    requires
        lo < i <= end <= ls.len(),
        forall|k: int| 0 <= k < starts.len() ==> lo < (#[trigger] starts[k]).0 < i,
        forall|k: int, m: int| 0 <= k < m < starts.len() ==> starts[k].0 < starts[m].0,
    ensures
        ({
            let (st, se) = scan(ls, i, end, ai, ind, starts);
            &&& se <= end
            &&& forall|k: int| 0 <= k < st.len() ==> lo < (#[trigger] st[k]).0 < se
            &&& forall|k: int, m: int| 0 <= k < m < st.len() ==> st[k].0 < st[m].0
        }),
    decreases end - i,
{
    if i >= end || i < 0 || i >= ls.len() {
    } else if blank(ls[i]) {
        lemma_scan_bounds(ls, i + 1, end, ai, ind, starts, lo);
    } else if leading_spaces(ls[i]) <= ai {
    } else if is_dash(trim_start(ls[i])) && (ind is None || ind == Some(leading_spaces(ls[i]))) {
        let p = starts.push((i, leading_spaces(ls[i])));
        assert forall|k: int| 0 <= k < p.len() implies lo < (#[trigger] p[k]).0 < i + 1 by {
            if k < starts.len() {
                assert(p[k] == starts[k]);
            }
        }
        assert forall|k: int, m: int| 0 <= k < m < p.len() implies p[k].0 < p[m].0 by {
            assert(p[k] == starts[k]);
            if m < starts.len() {
                assert(p[m] == starts[m]);
            }
        }
        lemma_scan_bounds(ls, i + 1, end, ai, Some(leading_spaces(ls[i])), p, lo);
    } else {
        lemma_scan_bounds(ls, i + 1, end, ai, ind, starts, lo);
    }
}

/// Every item lies within the text's lines and is not empty.
proof fn lemma_item_bounds(ls: Seq<Seq<char>>, idx: int)
    ensures
        anchor_item(ls, idx) matches Some(item) ==> 0 <= item.start < item.end <= ls.len(),
{
    match yaml_end(ls) {
        None => {},
        Some(e) => {
            crate::syntax::lemma_first_where_bounds(ls.skip(1), fence());
            match anchors_line(ls, e) {
                None => {},
                Some(a) => {
                    crate::syntax::lemma_first_where_bounds(ls.subrange(1, e), anchors_key());
                    lemma_scan_bounds(ls, a + 1, e, leading_spaces(ls[a]), None, Seq::empty(), a);
                },
            }
        },
    }
}

/// Two sequences on which a predicate agrees position by position have the same first match.
proof fn lemma_first_where_pointwise<A>(s1: Seq<A>, s2: Seq<A>, p: spec_fn(A) -> bool)
    requires
        s1.len() == s2.len(),
        forall|k: int| 0 <= k < s1.len() ==> p(#[trigger] s1[k]) == p(s2[k]),
    ensures
        first_where(s1, p) == first_where(s2, p),
    decreases s1.len(),
{
    if s1.len() > 0 {
        assert forall|k: int| 0 <= k < s1.drop_first().len() implies p(#[trigger] s1.drop_first()[k]) == p(s2.drop_first()[k]) by {
            assert(s1.drop_first()[k] == s1[k + 1]);
            assert(s2.drop_first()[k] == s2[k + 1]);
        }
        assert(p(s1[0]) == p(s2[0]));
        lemma_first_where_pointwise(s1.drop_first(), s2.drop_first(), p);
    }
}

/// What the list scan reads of a line.
pub open spec fn same_shape(l1: Seq<char>, l2: Seq<char>) -> bool {
    &&& blank(l1) == blank(l2)
    &&& leading_spaces(l1) == leading_spaces(l2)
    &&& is_dash(trim_start(l1)) == is_dash(trim_start(l2))
}

/// The scan reads only the shape of lines.
proof fn lemma_scan_same(
    ls1: Seq<Seq<char>>,
    ls2: Seq<Seq<char>>,
    i: int,
    end: int,
    ai: nat,
    ind: Option<nat>,
    starts: Seq<(int, nat)>,
)
    requires
        ls1.len() == ls2.len(),
        forall|k: int| i <= k < end && 0 <= k < ls1.len() ==> same_shape(#[trigger] ls1[k], ls2[k]),
    ensures
        scan(ls1, i, end, ai, ind, starts) == scan(ls2, i, end, ai, ind, starts),
    decreases end - i,
{
    if i >= end || i < 0 || i >= ls1.len() {
    } else {
        assert(same_shape(ls1[i], ls2[i]));
        if blank(ls1[i]) {
            lemma_scan_same(ls1, ls2, i + 1, end, ai, ind, starts);
        } else if leading_spaces(ls1[i]) <= ai {
        } else if is_dash(trim_start(ls1[i])) && (ind is None || ind == Some(leading_spaces(ls1[i]))) {
            lemma_scan_same(ls1, ls2, i + 1, end, ai, Some(leading_spaces(ls1[i])), starts.push((i, leading_spaces(ls1[i]))));
        } else {
            lemma_scan_same(ls1, ls2, i + 1, end, ai, ind, starts);
        }
    }
}

/// An item lies inside the list: after the `anchors:` line and before the closing fence.
proof fn lemma_item_in_list(ls: Seq<Seq<char>>, idx: int)
    requires
        anchor_item(ls, idx) is Some,
    ensures
        yaml_end(ls) is Some,
        anchors_line(ls, yaml_end(ls).unwrap()) is Some,
        ({
            let e = yaml_end(ls).unwrap();
            let a = anchors_line(ls, e).unwrap();
            let item = anchor_item(ls, idx).unwrap();
            &&& 0 < a < item.start < item.end <= e < ls.len()
            &&& item.key_indent >= 2
        }),
{
    let e = yaml_end(ls).unwrap();
    crate::syntax::lemma_first_where_bounds(ls.skip(1), fence());
    let a = anchors_line(ls, e).unwrap();
    crate::syntax::lemma_first_where_bounds(ls.subrange(1, e), anchors_key());
    lemma_scan_bounds(ls, a + 1, e, leading_spaces(ls[a]), None, Seq::empty(), a);
}

/// A line whose text, after its indentation of at least one space, begins with `h`.
pub open spec fn h_line(l: Seq<char>) -> bool {
    &&& leading_spaces(l) >= 1
    &&& trim_start(l).len() > 0
    &&& trim_start(l)[0] == 'h'
}

proof fn lemma_leading_spaces_first(l: Seq<char>)
    requires
        leading_spaces(l) >= 1,
    ensures
        l.len() > 0 && l[0] == ' ',
{
}

proof fn lemma_trim_end_prefix(s: Seq<char>)
    ensures
        trim_end(s).len() <= s.len(),
        forall|k: int| 0 <= k < trim_end(s).len() ==> trim_end(s)[k] == s[k],
    decreases s.len(),
{
    if s.len() > 0 && is_space(s.last()) {
        lemma_trim_end_prefix(s.drop_last());
        assert forall|k: int| 0 <= k < trim_end(s).len() implies trim_end(s)[k] == s[k] by {
            assert(s.drop_last()[k] == s[k]);
        }
    }
}

/// The list scan and the frontmatter searches read an `h` line the same way as any other.
proof fn lemma_h_line_facts(l: Seq<char>)
    requires
        h_line(l),
    ensures
        !blank(l),
        !is_dash(trim_start(l)),
        !is_fence(l),
        !anchors_key()(l),
{
    reveal_strlit("-");
    reveal_strlit("- ");
    reveal_strlit("---");
    reveal_strlit("anchors:");
    let t = trim_start(l);
    assert(!is_space('h')) by {
        assert(('h' as u32) == 0x68);
    }
    assert(trim_end(t).len() > 0) by {
        if trim_end(t).len() == 0 {
            lemma_trim_end_only_space(t);
        }
    }
    if starts_with(t, "- "@) {
        assert(t.take(2)[0] == t[0]);
    }
    lemma_leading_spaces_first(l);
    lemma_trim_end_prefix(l);
    if trim_end(l) == "---"@ {
        assert(trim_end(l)[0] == l[0]);
    }
    if starts_with(t, "anchors:"@) {
        assert(t.take(8)[0] == t[0]);
    }
}

proof fn lemma_trim_end_only_space(t: Seq<char>)
    requires
        trim_end(t).len() == 0,
    ensures
        forall|k: int| 0 <= k < t.len() ==> is_space(#[trigger] t[k]),
    decreases t.len(),
{
    if t.len() > 0 {
        lemma_trim_end_only_space(t.drop_last());
        assert forall|k: int| 0 <= k < t.len() implies is_space(#[trigger] t[k]) by {
            if k < t.len() - 1 {
                assert(t.drop_last()[k] == t[k]);
            }
        }
    }
}

proof fn lemma_spaces_prefix(n: nat, t: Seq<char>)
    requires
        t.len() > 0,
        t[0] != ' ',
        !is_space(t[0]),
    ensures
        leading_spaces(spaces(n) + t) == n,
        trim_start(spaces(n) + t) == t,
    decreases n,
{
    let l = spaces(n) + t;
    if n > 0 {
        assert(l.drop_first() =~= spaces((n - 1) as nat) + t);
        lemma_spaces_prefix((n - 1) as nat, t);
        assert(l[0] == ' ');
        assert(is_space(' ')) by {
            assert((' ' as u32) == 0x20);
        }
    } else {
        assert(l =~= t);
    }
}

/// The line `hash: h` at indentation `n`.
proof fn lemma_hash_key_line(n: nat, h: Seq<char>)
    requires
        n >= 1,
    ensures
        leading_spaces(key_line(n, "hash"@, h)) == n,
        trim_start(key_line(n, "hash"@, h)) == "hash: "@ + h,
        h_line(key_line(n, "hash"@, h)),
        is_key_line(n, "hash"@)(key_line(n, "hash"@, h)),
{
    reveal_strlit("hash");
    reveal_strlit(": ");
    reveal_strlit(":");
    reveal_strlit("hash:");
    reveal_strlit("hash: ");
    let t = "hash"@ + ": "@ + h;
    assert(key_line(n, "hash"@, h) =~= spaces(n) + t);
    assert(t[0] == 'h');
    assert(!is_space('h')) by {
        assert(('h' as u32) == 0x68);
    }
    lemma_spaces_prefix(n, t);
    assert(t =~= "hash: "@ + h);
    assert(t.take(5) =~= "hash"@ + ":"@);
}

/// A `hash:` line at indentation `n` is an `h` line.
proof fn lemma_hash_line_is_h_line(l: Seq<char>, n: nat)
    requires
        n >= 1,
        is_key_line(n, "hash"@)(l),
    ensures
        h_line(l),
{
    reveal_strlit("hash");
    reveal_strlit(":");
    let t = trim_start(l);
    assert(("hash"@ + ":"@)[0] == 'h');
    assert(t.take(5)[0] == t[0]);
}

/// After the `hash:` of an anchor that has a `hash:` line is set, the anchor records the new
/// value.
proof fn lemma_set_hash_records_existing(text: Seq<char>, idx: int, h: Seq<char>)
    requires
        hash_line(text, idx) is Some,
        one_line(h),
    ensures
        hash_set(text, idx, h) matches Some(out) && records_hash(out, idx, h),
{
    let ls = split_lines(text);
    let item = anchor_item(ls, idx).unwrap();
    let i = hash_line(text, idx).unwrap();
    let line = key_line(item.key_indent, "hash"@, h);
    lemma_set_hash_rewrites_one_line(text, idx, h);
    let out = hash_set(text, idx, h).unwrap();
    let ls2 = split_lines(out);
    assert(ls2 == ls.update(i, line));
    lemma_item_in_list(ls, idx);
    crate::syntax::lemma_first_where_bounds(ls.subrange(item.start, item.end), is_key_line(item.key_indent, "hash"@));
    let e = yaml_end(ls).unwrap();
    let a = anchors_line(ls, e).unwrap();
    assert(item.start <= i < item.end);
    assert(is_key_line(item.key_indent, "hash"@)(ls.subrange(item.start, item.end)[i - item.start]));
    assert(is_key_line(item.key_indent, "hash"@)(ls[i]));
    lemma_hash_line_is_h_line(ls[i], item.key_indent);
    lemma_hash_key_line(item.key_indent, h);
    lemma_h_line_facts(ls[i]);
    lemma_h_line_facts(line);
    // The fence and the `anchors:` line are found where they were.
    assert forall|k: int| 0 <= k < ls.skip(1).len() implies fence()(#[trigger] ls.skip(1)[k]) == fence()(ls2.skip(1)[k]) by {
        assert(ls.skip(1)[k] == ls[k + 1]);
        assert(ls2.skip(1)[k] == ls2[k + 1]);
    }
    lemma_first_where_pointwise(ls.skip(1), ls2.skip(1), fence());
    assert(ls2[0] == ls[0]);
    assert(yaml_end(ls2) == Some(e));
    assert forall|k: int| 0 <= k < ls.subrange(1, e).len() implies anchors_key()(#[trigger] ls.subrange(1, e)[k])
        == anchors_key()(ls2.subrange(1, e)[k]) by {
        assert(ls.subrange(1, e)[k] == ls[k + 1]);
        assert(ls2.subrange(1, e)[k] == ls2[k + 1]);
    }
    lemma_first_where_pointwise(ls.subrange(1, e), ls2.subrange(1, e), anchors_key());
    assert(anchors_line(ls2, e) == Some(a));
    assert(ls2[a] == ls[a]);
    // The list scans the same.
    assert forall|k: int| a + 1 <= k < e && 0 <= k < ls.len() implies same_shape(#[trigger] ls[k], ls2[k]) by {
        if k == i {
            assert(leading_spaces(ls[i]) == item.key_indent);
        } else {
            assert(ls2[k] == ls[k]);
        }
    }
    lemma_scan_same(ls, ls2, a + 1, e, leading_spaces(ls[a]), None, Seq::empty());
    assert(anchor_items(ls2) == anchor_items(ls));
    assert(anchor_item(ls2, idx) == Some(item));
    // The item's `hash:` line is the one rewritten.
    let sub1 = ls.subrange(item.start, item.end);
    let sub2 = ls2.subrange(item.start, item.end);
    assert forall|k: int| 0 <= k < sub1.len() implies is_key_line(item.key_indent, "hash"@)(#[trigger] sub1[k])
        == is_key_line(item.key_indent, "hash"@)(sub2[k]) by {
        assert(sub1[k] == ls[item.start + k]);
        assert(sub2[k] == ls2[item.start + k]);
    }
    lemma_first_where_pointwise(sub1, sub2, is_key_line(item.key_indent, "hash"@));
    assert(key_line_at(ls2, item, "hash"@) == Some(i));
}

/// Inserting an element the predicate rejects shifts a later first match by one.
proof fn lemma_first_where_insert<A>(s: Seq<A>, q: int, x: A, p: spec_fn(A) -> bool)
    requires
        0 <= q <= s.len(),
        !p(x),
    ensures
        first_where(s, p) is None ==> first_where(s.insert(q, x), p) is None,
        first_where(s, p) matches Some(m) ==> first_where(s.insert(q, x), p) == Some(if m < q { m } else { m + 1 }),
    decreases s.len(),
{
    let s2 = s.insert(q, x);
    assert(s2.len() > 0);
    crate::syntax::lemma_first_where_bounds(s, p);
    if q == 0 {
        assert(s2[0] == x);
        assert(s2.drop_first() =~= s);
    } else {
        let sd = s.drop_first();
        assert(s2[0] == s[0]);
        assert(s2.drop_first() =~= sd.insert(q - 1, x));
        lemma_first_where_insert(sd, q - 1, x, p);
        crate::syntax::lemma_first_where_bounds(sd, p);
        if !p(s[0]) {
            match first_where(sd, p) {
                Some(m) => {
                    assert(first_where(s, p) == Some(m + 1));
                    if m < q - 1 {
                        assert(first_where(s2.drop_first(), p) == Some(m));
                        assert(first_where(s2, p) == Some(m + 1));
                    } else {
                        assert(first_where(s2.drop_first(), p) == Some(m + 1));
                        assert(first_where(s2, p) == Some(m + 2));
                    }
                },
                None => {
                    assert(first_where(s, p) is None);
                    assert(first_where(s2.drop_first(), p) is None);
                },
            }
        } else {
            assert(first_where(s2, p) == Some(0int));
            assert(first_where(s, p) == Some(0int));
        }
    }
}

/// Moves every item start at or after line `q` one line down.
pub open spec fn shift_starts(st: Seq<(int, nat)>, q: int) -> Seq<(int, nat)> {
    st.map_values(|x: (int, nat)| if x.0 >= q { (x.0 + 1, x.1) } else { x })
}

/// Scanning lines shifted one down gives the shifted result.
proof fn lemma_scan_shift(
    ls: Seq<Seq<char>>,
    ls2: Seq<Seq<char>>,
    q: int,
    j: int,
    end: int,
    ai: nat,
    ind: Option<nat>,
    starts: Seq<(int, nat)>,
)
    requires
        0 <= q <= j,
        end <= ls.len(),
        ls2.len() == ls.len() + 1,
        forall|k: int| q <= k < ls.len() ==> ls2[k + 1] == #[trigger] ls[k],
    ensures
        scan(ls2, j + 1, end + 1, ai, ind, shift_starts(starts, q)) == (
            shift_starts(scan(ls, j, end, ai, ind, starts).0, q),
            scan(ls, j, end, ai, ind, starts).1 + 1,
        ),
    decreases end - j,
{
    if j >= end || j >= ls.len() {
    } else {
        assert(ls2[j + 1] == ls[j]);
        let l = ls[j];
        if blank(l) {
            lemma_scan_shift(ls, ls2, q, j + 1, end, ai, ind, starts);
        } else if leading_spaces(l) <= ai {
        } else if is_dash(trim_start(l)) && (ind is None || ind == Some(leading_spaces(l))) {
            let st2 = starts.push((j, leading_spaces(l)));
            assert(shift_starts(st2, q) =~= shift_starts(starts, q).push((j + 1, leading_spaces(l))));
            lemma_scan_shift(ls, ls2, q, j + 1, end, ai, Some(leading_spaces(l)), st2);
        } else {
            lemma_scan_shift(ls, ls2, q, j + 1, end, ai, ind, starts);
        }
    }
}

/// Inserting, inside the list, a line the scan passes over shifts what follows it.
proof fn lemma_scan_insert(
    ls: Seq<Seq<char>>,
    q: int,
    x: Seq<char>,
    i: int,
    end: int,
    ai: nat,
    ind: Option<nat>,
    starts: Seq<(int, nat)>,
)
    requires
        0 <= i <= q <= end <= ls.len(),
        !blank(x),
        leading_spaces(x) > ai,
        !is_dash(trim_start(x)),
        scan(ls, i, end, ai, ind, starts).1 >= q,
        forall|k: int| 0 <= k < starts.len() ==> (#[trigger] starts[k]).0 < q,
    ensures
        scan(ls.insert(q, x), i, end + 1, ai, ind, starts) == (
            shift_starts(scan(ls, i, end, ai, ind, starts).0, q),
            scan(ls, i, end, ai, ind, starts).1 + 1,
        ),
    decreases q - i,
{
    let ls2 = ls.insert(q, x);
    assert(shift_starts(starts, q) =~= starts);
    if i == q {
        assert(ls2[q] == x);
        assert forall|k: int| q <= k < ls.len() implies ls2[k + 1] == #[trigger] ls[k] by {}
        lemma_scan_shift(ls, ls2, q, q, end, ai, ind, starts);
    } else {
        assert(ls2[i] == ls[i]);
        let l = ls[i];
        if blank(l) {
            lemma_scan_insert(ls, q, x, i + 1, end, ai, ind, starts);
        } else if leading_spaces(l) <= ai {
        } else if is_dash(trim_start(l)) && (ind is None || ind == Some(leading_spaces(l))) {
            lemma_scan_insert(ls, q, x, i + 1, end, ai, Some(leading_spaces(l)), starts.push((i, leading_spaces(l))));
        } else {
            lemma_scan_insert(ls, q, x, i + 1, end, ai, ind, starts);
        }
    }
}

/// Every item start the scan records is indented deeper than the `anchors:` line.
proof fn lemma_scan_indents(ls: Seq<Seq<char>>, i: int, end: int, ai: nat, ind: Option<nat>, starts: Seq<(int, nat)>)
    requires
        forall|k: int| 0 <= k < starts.len() ==> (#[trigger] starts[k]).1 > ai,
    ensures
        forall|k: int| 0 <= k < scan(ls, i, end, ai, ind, starts).0.len() ==> (#[trigger] scan(ls, i, end, ai, ind, starts).0[k]).1 > ai,
    decreases end - i,
{
    let r = scan(ls, i, end, ai, ind, starts);
    if i >= end || i < 0 || i >= ls.len() {
        assert(r.0 == starts);
    } else if blank(ls[i]) {
        assert(r == scan(ls, i + 1, end, ai, ind, starts));
        lemma_scan_indents(ls, i + 1, end, ai, ind, starts);
    } else if leading_spaces(ls[i]) <= ai {
        assert(r.0 == starts);
    } else if is_dash(trim_start(ls[i])) && (ind is None || ind == Some(leading_spaces(ls[i]))) {
        let st2 = starts.push((i, leading_spaces(ls[i])));
        assert forall|k: int| 0 <= k < st2.len() implies (#[trigger] st2[k]).1 > ai by {
            if k < starts.len() {
                assert(st2[k] == starts[k]);
            }
        }
        assert(r == scan(ls, i + 1, end, ai, Some(leading_spaces(ls[i])), st2));
        lemma_scan_indents(ls, i + 1, end, ai, Some(leading_spaces(ls[i])), st2);
    } else {
        assert(r == scan(ls, i + 1, end, ai, ind, starts));
        lemma_scan_indents(ls, i + 1, end, ai, ind, starts);
    }
}

/// After the `hash:` of an anchor without a `hash:` line is set, the anchor records the new
/// value.
proof fn lemma_set_hash_records_inserted(text: Seq<char>, idx: int, h: Seq<char>)
    requires
        anchor_item(split_lines(text), idx) is Some,
        hash_line(text, idx) is None,
        one_line(h),
    ensures
        hash_set(text, idx, h) matches Some(out) && records_hash(out, idx, h),
{
    let ls = split_lines(text);
    let item = anchor_item(ls, idx).unwrap();
    let line = key_line(item.key_indent, "hash"@, h);
    let p = insertion_line(ls, item);
    lemma_set_hash_inserts_one_line(text, idx, h);
    let out = hash_set(text, idx, h).unwrap();
    let ls2 = split_lines(out);
    assert(ls2 == ls.insert(p, line));
    lemma_item_in_list(ls, idx);
    lemma_last_nonblank_bounds(ls, item.start, item.end);
    let e = yaml_end(ls).unwrap();
    let a = anchors_line(ls, e).unwrap();
    assert(item.start < p <= item.end);
    lemma_hash_key_line(item.key_indent, h);
    lemma_h_line_facts(line);
    // The fence moves one line down; the `anchors:` line stays.
    crate::syntax::lemma_first_where_bounds(ls.skip(1), fence());
    assert(ls2.skip(1) =~= ls.skip(1).insert(p - 1, line));
    lemma_first_where_insert(ls.skip(1), p - 1, line, fence());
    assert(ls2[0] == ls[0]);
    assert(yaml_end(ls2) == Some(e + 1));
    crate::syntax::lemma_first_where_bounds(ls.subrange(1, e), anchors_key());
    assert(ls2.subrange(1, e + 1) =~= ls.subrange(1, e).insert(p - 1, line));
    lemma_first_where_insert(ls.subrange(1, e), p - 1, line, anchors_key());
    assert(anchors_line(ls2, e + 1) == Some(a));
    assert(ls2[a] == ls[a]);
    // The list scan: the new line sits inside the item, and what follows moves down.
    let ai = leading_spaces(ls[a]);
    let (st, se) = scan(ls, a + 1, e, ai, None, Seq::empty());
    lemma_scan_bounds(ls, a + 1, e, ai, None, Seq::empty(), a);
    lemma_scan_indents(ls, a + 1, e, ai, None, Seq::empty());
    assert(st[idx].1 > ai);
    assert(item.key_indent == st[idx].1 + 2);
    assert(se >= p);
    lemma_scan_insert(ls, p, line, a + 1, e, ai, None, Seq::empty());
    let st2 = shift_starts(st, p);
    assert(scan(ls2, a + 1, e + 1, ai, None, Seq::empty()) == (st2, se + 1));
    assert(anchor_items(ls2) == items_from(st2, se + 1));
    let item2 = ItemModel { start: item.start, end: item.end + 1, key_indent: item.key_indent };
    assert(st2[idx] == st[idx]);
    if idx + 1 < st.len() {
        assert(st2[idx + 1] == (st[idx + 1].0 + 1, st[idx + 1].1));
    }
    assert(anchor_item(ls2, idx) == Some(item2));
    // The inserted line is the item's first `hash:` line.
    let sub = ls.subrange(item.start, item.end);
    let sub2 = ls2.subrange(item2.start, item2.end);
    let kp = is_key_line(item.key_indent, "hash"@);
    assert(sub2 =~= sub.insert(p - item.start, line));
    assert(first_where(sub, kp) is None);
    assert forall|k: int| 0 <= k < p - item.start implies !kp(#[trigger] sub2[k]) by {
        assert(sub2[k] == sub[k]);
        if kp(sub[k]) {
            lemma_first_where_found_some(sub, kp, k);
        }
    }
    assert(sub2[p - item.start] == line);
    lemma_first_where(sub2, kp, p - item.start);
    assert(key_line_at(ls2, item2, "hash"@) == Some(p));
}

/// Reading back a written hash: after the `hash:` of an anchor is set, the anchor records
/// the value written.
pub proof fn lemma_set_hash_then_records(text: Seq<char>, idx: int, h: Seq<char>)
    requires
        anchor_item(split_lines(text), idx) is Some,
        one_line(h),
    ensures
        hash_set(text, idx, h) matches Some(out) && records_hash(out, idx, h),
{
    if hash_line(text, idx) is Some {
        lemma_set_hash_records_existing(text, idx, h);
    } else {
        lemma_set_hash_records_inserted(text, idx, h);
    }
}

/// Setting a hash is idempotent: setting the same value again leaves the text byte for byte.
pub proof fn lemma_set_hash_idempotent(text: Seq<char>, idx: int, h: Seq<char>)
    requires
        anchor_item(split_lines(text), idx) is Some,
        one_line(h),
    ensures
        hash_set(text, idx, h) matches Some(out) && hash_set(out, idx, h) == Some(out),
{
    lemma_set_hash_then_records(text, idx, h);
    lemma_same_hash_is_identity(hash_set(text, idx, h).unwrap(), idx, h);
}

} // verus!
