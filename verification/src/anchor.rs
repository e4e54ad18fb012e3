//! The `at:` anchor grammar: `path > A > B > C`, each segment optionally followed by a
//! positional `@N` (N >= 1) that picks one of several same-named symbols.

use vstd::prelude::*;
use crate::text::{trim, trim_range, find_char, find_in, split_on, split_ranges, range_texts, parse_usize, parse_usize_range, string_of, chars_of};

verus! {

/// A parsed anchor: the file it names and the path of symbol names inside it.
#[derive(Debug, Clone, PartialEq, Eq)]
pub struct Anchor {
    pub file: String,
    pub segments: Vec<Segment>,
}

/// One `>`-separated segment.
#[derive(Debug, Clone, PartialEq, Eq)]
pub struct Segment {
    pub name: String,
    /// 1-based positional selector from `@N`; `None` means "must be unique".
    pub index: Option<usize>,
}

#[derive(Debug, Clone, PartialEq, Eq)]
pub enum AnchorParseError {
    Empty,
    EmptyFile,
    MissingSymbol,
    EmptySegment,
    BadIndex(String),
}

/// What a segment says, as text and number.
pub struct SegmentModel {
    pub name: Seq<char>,
    pub index: Option<nat>,
}

/// What an anchor says.
pub struct AnchorModel {
    pub file: Seq<char>,
    pub segments: Seq<SegmentModel>,
}

pub enum AnchorErrorModel {
    Empty,
    EmptyFile,
    MissingSymbol,
    EmptySegment,
    BadIndex(Seq<char>),
}

impl View for Segment {
    type V = SegmentModel;

    open spec fn view(&self) -> SegmentModel {
        SegmentModel {
            name: self.name@,
            index: match self.index {
                Some(n) => Some(n as nat),
                None => None,
            },
        }
    }
}

impl View for Anchor {
    type V = AnchorModel;

    open spec fn view(&self) -> AnchorModel {
        AnchorModel { file: self.file@, segments: self.segments@.map_values(|s: Segment| s@) }
    }
}

impl View for AnchorParseError {
    type V = AnchorErrorModel;

    open spec fn view(&self) -> AnchorErrorModel {
        match self {
            AnchorParseError::Empty => AnchorErrorModel::Empty,
            AnchorParseError::EmptyFile => AnchorErrorModel::EmptyFile,
            AnchorParseError::MissingSymbol => AnchorErrorModel::MissingSymbol,
            AnchorParseError::EmptySegment => AnchorErrorModel::EmptySegment,
            AnchorParseError::BadIndex(s) => AnchorErrorModel::BadIndex(s@),
        }
    }
}

/// One raw `>`-separated piece read as a segment: trimmed, non-empty; a `@` splits off a
/// positional index that must be a number >= 1 and leaves a non-empty name before it.
pub open spec fn spec_parse_segment(raw: Seq<char>) -> Result<SegmentModel, AnchorErrorModel> {
    let seg = trim(raw);
    if seg.len() == 0 {
        Err(AnchorErrorModel::EmptySegment)
    } else {
        match find_char(seg, '@') {
            Some(i) => {
                let idx = trim(seg.skip(i + 1));
                match parse_usize(idx) {
                    Some(n) => if n == 0 {
                        Err(AnchorErrorModel::BadIndex(idx))
                    } else if trim(seg.take(i)).len() == 0 {
                        Err(AnchorErrorModel::EmptySegment)
                    } else {
                        Ok(SegmentModel { name: trim(seg.take(i)), index: Some(n) })
                    },
                    None => Err(AnchorErrorModel::BadIndex(idx)),
                }
            },
            None => Ok(SegmentModel { name: seg, index: None }),
        }
    }
}

/// The segments in order, or the first piece's error.
pub open spec fn spec_parse_segments(raws: Seq<Seq<char>>) -> Result<Seq<SegmentModel>, AnchorErrorModel>
    decreases raws.len(),
{
    if raws.len() == 0 {
        Ok(Seq::empty())
    } else {
        match spec_parse_segment(raws[0]) {
            Err(e) => Err(e),
            Ok(s) => match spec_parse_segments(raws.drop_first()) {
                Err(e) => Err(e),
                Ok(rest) => Ok(seq![s] + rest),
            },
        }
    }
}

/// The anchor grammar. The input is trimmed; the part before the first `>` is the file,
/// every later `>`-separated piece a segment, and there must be at least one segment.
pub open spec fn spec_parse_anchor(input: Seq<char>) -> Result<AnchorModel, AnchorErrorModel> {
    let t = trim(input);
    if t.len() == 0 {
        Err(AnchorErrorModel::Empty)
    } else {
        let parts = split_on(t, '>');
        let file = trim(parts[0]);
        if file.len() == 0 {
            Err(AnchorErrorModel::EmptyFile)
        } else {
            match spec_parse_segments(parts.drop_first()) {
                Err(e) => Err(e),
                Ok(segs) => if segs.len() == 0 {
                    Err(AnchorErrorModel::MissingSymbol)
                } else {
                    Ok(AnchorModel { file, segments: segs })
                },
            }
        }
    }
}

proof fn lemma_segments_positive(raws: Seq<Seq<char>>)
    ensures
        spec_parse_segments(raws) matches Ok(segs) ==> forall|i: int| 0 <= i < segs.len() ==> (#[trigger] segs[i]).index != Some(0nat),
    decreases raws.len(),
{
    if raws.len() > 0 {
        lemma_segments_positive(raws.drop_first());
        match spec_parse_segment(raws[0]) {
            Err(e) => {},
            Ok(s) => match spec_parse_segments(raws.drop_first()) {
                Err(e) => {},
                Ok(rest) => {
                    let segs = seq![s] + rest;
                    assert forall|i: int| 0 <= i < segs.len() implies (#[trigger] segs[i]).index != Some(0nat) by {
                        if i > 0 {
                            assert(segs[i] == rest[i - 1]);
                        }
                    }
                },
            },
        }
    }
}

/// A parsed anchor names at least one segment and no `@0`: resolution accepts it.
pub proof fn lemma_parsed_anchor_ok(input: Seq<char>)
    ensures
        spec_parse_anchor(input) matches Ok(a) ==> crate::resolve::anchor_ok(a),
{
    let t = trim(input);
    if t.len() > 0 {
        lemma_segments_positive(split_on(t, '>').drop_first());
    }
}

fn parse_segment_range(v: &Vec<char>, lo: usize, hi: usize) -> (r: Result<Segment, AnchorParseError>)
    requires
        lo <= hi <= v.len(),
    ensures
        match r {
            Ok(s) => spec_parse_segment(v@.subrange(lo as int, hi as int)) == Ok::<SegmentModel, AnchorErrorModel>(s@),
            Err(e) => spec_parse_segment(v@.subrange(lo as int, hi as int)) == Err::<SegmentModel, AnchorErrorModel>(e@),
        },
{
    let (a, b) = trim_range(v, lo, hi);
    let ghost seg = v@.subrange(a as int, b as int);
    if a == b {
        return Err(AnchorParseError::EmptySegment);
    }
    match find_in(v, a, b, '@') {
        Some(at) => {
            let (ia, ib) = trim_range(v, at + 1, b);
            let (na, nb) = trim_range(v, a, at);
            proof {
                assert(seg.skip(at - a + 1) =~= v@.subrange(at + 1, b as int));
                assert(seg.take(at - a) =~= v@.subrange(a as int, at as int));
            }
            match parse_usize_range(v, ia, ib) {
                Some(n) => {
                    if n == 0 {
                        Err(AnchorParseError::BadIndex(string_of(v, ia, ib)))
                    } else if na == nb {
                        Err(AnchorParseError::EmptySegment)
                    } else {
                        Ok(Segment { name: string_of(v, na, nb), index: Some(n) })
                    }
                },
                None => Err(AnchorParseError::BadIndex(string_of(v, ia, ib))),
            }
        },
        None => Ok(Segment { name: string_of(v, a, b), index: None }),
    }
}

/// Parses an `at:` anchor (`path > A > B`, optional `@N` per segment).
pub fn parse_anchor(input: &str) -> (r: Result<Anchor, AnchorParseError>)
    ensures
        match r {
            Ok(a) => spec_parse_anchor(input@) == Ok::<AnchorModel, AnchorErrorModel>(a@),
            Err(e) => spec_parse_anchor(input@) == Err::<AnchorModel, AnchorErrorModel>(e@),
        },
        r matches Ok(a) ==> crate::resolve::anchor_ok(a@),
{
    proof {
        lemma_parsed_anchor_ok(input@);
    }
    let v = chars_of(input);
    proof {
        assert(v@.subrange(0, v@.len() as int) =~= input@);
    }
    let (ta, tb) = trim_range(&v, 0, v.len());
    if ta == tb {
        return Err(AnchorParseError::Empty);
    }
    let parts = split_ranges(&v, ta, tb, '>');
    let ghost pv = range_texts(v@, parts@);
    let (fa, fb) = trim_range(&v, parts[0].0, parts[0].1);
    if fa == fb {
        return Err(AnchorParseError::EmptyFile);
    }
    let file = string_of(&v, fa, fb);
    proof {
        assert(pv[0] == v@.subrange(parts@[0].0 as int, parts@[0].1 as int));
    }
    let mut segments: Vec<Segment> = Vec::new();
    proof {
        assert(pv.subrange(1, pv.len() as int) =~= pv.drop_first());
        assert(segments@.map_values(|s: Segment| s@) =~= Seq::<SegmentModel>::empty());
        match spec_parse_segments(pv.drop_first()) {
            Err(e) => {},
            Ok(rest) => { assert(Seq::<SegmentModel>::empty() + rest =~= rest); },
        }
    }
    let mut k: usize = 1;
    while k < parts.len()
        invariant
            1 <= k <= parts@.len(),
            trim(input@) == v@.subrange(ta as int, tb as int),
            pv == split_on(v@.subrange(ta as int, tb as int), '>'),
            file@ == trim(pv[0]),
            file@.len() > 0,
            pv == range_texts(v@, parts@),
            forall|j: int| 0 <= j < parts@.len() ==> (#[trigger] parts@[j]).0 <= parts@[j].1 <= v@.len(),
            spec_parse_segments(pv.drop_first()) == match spec_parse_segments(pv.subrange(k as int, pv.len() as int)) {
                Err(e) => Err(e),
                Ok(rest) => Ok::<Seq<SegmentModel>, AnchorErrorModel>(segments@.map_values(|s: Segment| s@) + rest),
            },
        decreases parts@.len() - k,
    {
        let (lo, hi) = parts[k];
        let ghost tail = pv.subrange(k as int, pv.len() as int);
        proof {
            assert(tail[0] == v@.subrange(lo as int, hi as int));
            assert(tail.drop_first() =~= pv.subrange(k + 1, pv.len() as int));
        }
        match parse_segment_range(&v, lo, hi) {
            Ok(seg) => {
                proof {
                    assert(segments@.push(seg).map_values(|s: Segment| s@) =~= segments@.map_values(|s: Segment| s@) + seq![seg@]);
                    match spec_parse_segments(pv.subrange(k + 1, pv.len() as int)) {
                        Err(e) => {},
                        Ok(rest) => {
                            assert(segments@.map_values(|s: Segment| s@) + (seq![seg@] + rest) =~= segments@.push(seg).map_values(|s: Segment| s@) + rest);
                        },
                    }
                }
                segments.push(seg);
            },
            Err(e) => {
                proof {
                    assert(spec_parse_segments(tail) == Err::<Seq<SegmentModel>, AnchorErrorModel>(e@));
                    assert(spec_parse_segments(pv.drop_first()) == Err::<Seq<SegmentModel>, AnchorErrorModel>(e@));
                    assert(trim(input@) == v@.subrange(ta as int, tb as int));
                    assert(pv[0] == v@.subrange(parts@[0].0 as int, parts@[0].1 as int));
                }
                return Err(e);
            },
        }
        k += 1;
    }
    proof {
        assert(pv.subrange(k as int, pv.len() as int) =~= Seq::<Seq<char>>::empty());
        assert(segments@.map_values(|s: Segment| s@) + Seq::<SegmentModel>::empty() =~= segments@.map_values(|s: Segment| s@));
    }
    if segments.len() == 0 {
        return Err(AnchorParseError::MissingSymbol);
    }
    Ok(Anchor { file, segments })
}

/// The message for an anchor that does not parse.
pub open spec fn anchor_error_text(e: AnchorErrorModel) -> Seq<char> {
    match e {
        AnchorErrorModel::Empty => "anchor is empty"@,
        AnchorErrorModel::EmptyFile => "anchor has no file path"@,
        AnchorErrorModel::MissingSymbol => "anchor names a file but no symbol (expected `path > symbol`)"@,
        AnchorErrorModel::EmptySegment => "anchor has an empty `>` segment"@,
        AnchorErrorModel::BadIndex(s) => "invalid positional index `@"@ + s + "` (expected a number >= 1)"@,
    }
}

impl AnchorParseError {
    /// The message shown to a user.
    pub fn message(&self) -> (m: String)
        ensures
            m@ == anchor_error_text(self@),
    {
        match self {
            AnchorParseError::Empty => "anchor is empty".to_owned(),
            AnchorParseError::EmptyFile => "anchor has no file path".to_owned(),
            AnchorParseError::MissingSymbol => "anchor names a file but no symbol (expected `path > symbol`)".to_owned(),
            AnchorParseError::EmptySegment => "anchor has an empty `>` segment".to_owned(),
            AnchorParseError::BadIndex(s) => {
                let mut m = "invalid positional index `@".to_owned();
                m.push_str(s.as_str());
                m.push_str("` (expected a number >= 1)");
                m
            },
        }
    }
}

} // verus!
