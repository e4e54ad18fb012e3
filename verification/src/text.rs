//! Character-level helpers shared by the parsers: whitespace trimming, splitting on a
//! separator, number parsing and formatting, and conversion between `str` and char vectors.

use vstd::prelude::*;

verus! {

broadcast use vstd::string::group_string_axioms;

/// Unicode `White_Space`, the set `char::is_whitespace` (and so `str::trim`) uses.
pub open spec fn is_space(c: char) -> bool {
    let u = c as u32;
    ||| 0x09 <= u <= 0x0D
    ||| u == 0x20
    ||| u == 0x85
    ||| u == 0xA0
    ||| u == 0x1680
    ||| 0x2000 <= u <= 0x200A
    ||| u == 0x2028
    ||| u == 0x2029
    ||| u == 0x202F
    ||| u == 0x205F
    ||| u == 0x3000
}

pub fn char_is_space(c: char) -> (b: bool)
    ensures
        b == is_space(c),
{
    let u = c as u32;
    (0x09 <= u && u <= 0x0D) || u == 0x20 || u == 0x85 || u == 0xA0 || u == 0x1680 || (0x2000
        <= u && u <= 0x200A) || u == 0x2028 || u == 0x2029 || u == 0x202F || u == 0x205F || u
        == 0x3000
}

/// The characters of `s` in order.
pub fn chars_of(s: &str) -> (v: Vec<char>)
    ensures
        v@ == s@,
{
    let mut v: Vec<char> = Vec::new();
    for c in it: s.chars()
        invariant
            it.seq() == s@,
            v@ == it.seq().take(it.index() as int),
    {
        v.push(c);
    }
    v
}


/// `String::push` appends one character; the std documentation says so and nothing more.
pub assume_specification[ String::push ](s: &mut String, ch: char)
    ensures
        final(s)@ == old(s)@.push(ch),
;

/// `String::push_str` appends a string slice; the std documentation says so and nothing more.
pub assume_specification[ String::push_str ](s: &mut String, other: &str)
    ensures
        final(s)@ == old(s)@ + other@,
;

/// A `String` holding `v[lo..hi]`.
pub fn string_of(v: &Vec<char>, lo: usize, hi: usize) -> (s: String)
    requires
        lo <= hi <= v.len(),
    ensures
        s@ == v@.subrange(lo as int, hi as int),
{
    let mut s = String::new();
    let mut i = lo;
    while i < hi
        invariant
            lo <= i <= hi <= v.len(),
            s@ == v@.subrange(lo as int, i as int),
        decreases hi - i,
    {
        s.push(v[i]);
        proof {
            assert(v@.subrange(lo as int, i + 1) =~= v@.subrange(lo as int, i as int).push(v@[i as int]));
        }
        i += 1;
    }
    s
}

/// The text with leading whitespace removed.
pub open spec fn trim_start(s: Seq<char>) -> Seq<char>
    decreases s.len(),
{
    if s.len() > 0 && is_space(s[0]) {
        trim_start(s.drop_first())
    } else {
        s
    }
}

/// The text with trailing whitespace removed.
pub open spec fn trim_end(s: Seq<char>) -> Seq<char>
    decreases s.len(),
{
    if s.len() > 0 && is_space(s.last()) {
        trim_end(s.drop_last())
    } else {
        s
    }
}

/// `str::trim`: the text without leading and trailing whitespace.
pub open spec fn trim(s: Seq<char>) -> Seq<char> {
    trim_end(trim_start(s))
}

/// The bounds of `trim(v[lo..hi])` within `v`.
pub fn trim_range(v: &Vec<char>, lo: usize, hi: usize) -> (r: (usize, usize))
    requires
        lo <= hi <= v.len(),
    ensures
        lo <= r.0 <= r.1 <= hi,
        v@.subrange(r.0 as int, r.1 as int) == trim(v@.subrange(lo as int, hi as int)),
{
    let mut a = lo;
    while a < hi && char_is_space(v[a])
        invariant
            lo <= a <= hi <= v.len(),
            trim_start(v@.subrange(lo as int, hi as int)) == trim_start(v@.subrange(a as int, hi as int)),
        decreases hi - a,
    {
        proof {
            assert(v@.subrange(a as int, hi as int).drop_first() =~= v@.subrange(a + 1, hi as int));
        }
        a += 1;
    }
    let mut b = hi;
    while b > a && char_is_space(v[b - 1])
        invariant
            lo <= a <= b <= hi <= v.len(),
            trim_end(v@.subrange(a as int, hi as int)) == trim_end(v@.subrange(a as int, b as int)),
        decreases b - a,
    {
        proof {
            assert(v@.subrange(a as int, b as int).drop_last() =~= v@.subrange(a as int, b - 1));
        }
        b -= 1;
    }
    (a, b)
}

/// Index of the first `c` in `s`.
pub open spec fn find_char(s: Seq<char>, c: char) -> Option<int>
    decreases s.len(),
{
    if s.len() == 0 {
        None
    } else if s[0] == c {
        Some(0)
    } else {
        match find_char(s.drop_first(), c) {
            Some(i) => Some(i + 1),
            None => None,
        }
    }
}

/// `find_char` returns the first position holding `c`.
pub proof fn lemma_find_char(s: Seq<char>, c: char, i: int)
    requires
        0 <= i <= s.len(),
        forall|k: int| 0 <= k < i ==> s[k] != c,
        i == s.len() || s[i] == c,
    ensures
        find_char(s, c) == (if i == s.len() { None::<int> } else { Some(i) }),
    decreases s.len(),
{
    if s.len() > 0 && i > 0 {
        lemma_find_char(s.drop_first(), c, i - 1);
    }
}

/// Where `find_char` stops: a position holding `c`, after which no earlier one does.
pub proof fn lemma_find_char_found(s: Seq<char>, c: char)
    ensures
        match find_char(s, c) {
            Some(i) => 0 <= i < s.len() && s[i] == c && forall|k: int| 0 <= k < i ==> s[k] != c,
            None => forall|k: int| 0 <= k < s.len() ==> s[k] != c,
        },
    decreases s.len(),
{
    if s.len() > 0 {
        lemma_find_char_found(s.drop_first(), c);
        if s[0] != c {
            match find_char(s.drop_first(), c) {
                Some(i) => {
                    assert forall|k: int| 0 <= k < i + 1 implies s[k] != c by {
                        if k > 0 {
                            assert(s[k] == s.drop_first()[k - 1]);
                        }
                    }
                },
                None => {
                    assert forall|k: int| 0 <= k < s.len() implies s[k] != c by {
                        if k > 0 {
                            assert(s[k] == s.drop_first()[k - 1]);
                        }
                    }
                },
            }
        }
    }
}

/// The first `c` in `v[lo..hi]`, as an index into `v`.
pub fn find_in(v: &Vec<char>, lo: usize, hi: usize, c: char) -> (r: Option<usize>)
    requires
        lo <= hi <= v.len(),
    ensures
        match r {
            Some(i) => lo <= i < hi && find_char(v@.subrange(lo as int, hi as int), c) == Some(
                i - lo,
            ),
            None => find_char(v@.subrange(lo as int, hi as int), c) is None,
        },
{
    let mut i = lo;
    while i < hi
        invariant
            lo <= i <= hi <= v.len(),
            forall|k: int| lo <= k < i ==> v@[k] != c,
        decreases hi - i,
    {
        if v[i] == c {
            proof {
                lemma_find_char(v@.subrange(lo as int, hi as int), c, i - lo);
            }
            return Some(i);
        }
        i += 1;
    }
    proof {
        lemma_find_char(v@.subrange(lo as int, hi as int), c, hi - lo);
    }
    None
}

/// `str::split(sep)`: the pieces between separators, empty ones included.
pub open spec fn split_on(s: Seq<char>, sep: char) -> Seq<Seq<char>>
    decreases s.len(),
{
    match find_char(s, sep) {
        None => seq![s],
        Some(i) => {
            proof {
                lemma_find_char_found(s, sep);
            }
            seq![s.take(i)] + split_on(s.skip(i + 1), sep)
        },
    }
}

/// The texts that a list of ranges of `v` covers.
pub open spec fn range_texts(v: Seq<char>, ranges: Seq<(usize, usize)>) -> Seq<Seq<char>> {
    ranges.map_values(|r: (usize, usize)| v.subrange(r.0 as int, r.1 as int))
}

/// The ranges of `v[lo..hi].split(sep)`.
pub fn split_ranges(v: &Vec<char>, lo: usize, hi: usize, sep: char) -> (r: Vec<(usize, usize)>)
    requires
        lo <= hi <= v.len(),
    ensures
        range_texts(v@, r@) == split_on(v@.subrange(lo as int, hi as int), sep),
        r@.len() >= 1,
        forall|k: int| 0 <= k < r@.len() ==> lo <= (#[trigger] r@[k]).0 <= r@[k].1 <= hi,
{
    let mut out: Vec<(usize, usize)> = Vec::new();
    let mut pos = lo;
    loop
        invariant
            lo <= pos <= hi <= v.len(),
            split_on(v@.subrange(lo as int, hi as int), sep) == range_texts(v@, out@) + split_on(
                v@.subrange(pos as int, hi as int),
                sep,
            ),
            forall|k: int| 0 <= k < out@.len() ==> lo <= (#[trigger] out@[k]).0 <= out@[k].1 <= hi,
        decreases hi - pos,
    {
        let ghost rest = v@.subrange(pos as int, hi as int);
        match find_in(v, pos, hi, sep) {
            Some(i) => {
                proof {
                    assert(rest.take(i - pos) =~= v@.subrange(pos as int, i as int));
                    assert(rest.skip(i - pos + 1) =~= v@.subrange(i + 1, hi as int));
                    assert(range_texts(v@, out@.push((pos, i))) =~= range_texts(v@, out@).push(
                        v@.subrange(pos as int, i as int),
                    ));
                }
                out.push((pos, i));
                pos = i + 1;
            },
            None => {
                proof {
                    assert(range_texts(v@, out@.push((pos, hi))) =~= range_texts(v@, out@).push(
                        rest,
                    ));
                }
                out.push((pos, hi));
                return out;
            },
        }
    }
}


pub open spec fn is_digit(c: char) -> bool {
    48 <= (c as u32) <= 57
}

pub open spec fn digit_value(c: char) -> nat {
    ((c as u32) - 48) as nat
}

pub open spec fn all_digits(s: Seq<char>) -> bool {
    forall|i: int| 0 <= i < s.len() ==> is_digit(#[trigger] s[i])
}

/// The value of a string of decimal digits.
pub open spec fn digits_value(s: Seq<char>) -> nat
    decreases s.len(),
{
    if s.len() == 0 {
        0
    } else {
        digits_value(s.drop_last()) * 10 + digit_value(s.last())
    }
}

/// `str::parse::<usize>`: an optional `+`, then one or more decimal digits whose value fits.
pub open spec fn parse_usize(s: Seq<char>) -> Option<nat> {
    let d = if s.len() > 0 && s[0] == '+' {
        s.drop_first()
    } else {
        s
    };
    if d.len() == 0 || !all_digits(d) {
        None
    } else if digits_value(d) <= usize::MAX {
        Some(digits_value(d))
    } else {
        None
    }
}

proof fn lemma_digits_value_prefix(s: Seq<char>, i: int)
    requires
        0 <= i <= s.len(),
    ensures
        digits_value(s.take(i)) <= digits_value(s),
    decreases s.len(),
{
    if i < s.len() {
        assert(s.drop_last().take(i) =~= s.take(i));
        lemma_digits_value_prefix(s.drop_last(), i);
    } else {
        assert(s.take(i) =~= s);
    }
}

/// `v[lo..hi].parse::<usize>()`.
pub fn parse_usize_range(v: &Vec<char>, lo: usize, hi: usize) -> (r: Option<usize>)
    requires
        lo <= hi <= v.len(),
    ensures
        match r {
            Some(n) => parse_usize(v@.subrange(lo as int, hi as int)) == Some(n as nat),
            None => parse_usize(v@.subrange(lo as int, hi as int)) is None,
        },
{
    let ghost s = v@.subrange(lo as int, hi as int);
    let mut start = lo;
    if lo < hi && v[lo] == '+' {
        start = lo + 1;
    }
    let ghost d = v@.subrange(start as int, hi as int);
    proof {
        if lo < hi && v@[lo as int] == '+' {
            assert(s.drop_first() =~= d);
        } else {
            assert(s =~= d);
        }
    }
    if start == hi {
        return None;
    }
    let mut acc: usize = 0;
    let mut i = start;
    while i < hi
        invariant
            lo <= start <= i <= hi <= v.len(),
            d == v@.subrange(start as int, hi as int),
            s == v@.subrange(lo as int, hi as int),
            (if s.len() > 0 && s[0] == '+' { s.drop_first() } else { s }) == d,
            d.len() > 0,
            all_digits(v@.subrange(start as int, i as int)),
            acc as nat == digits_value(v@.subrange(start as int, i as int)),
        decreases hi - i,
    {
        let u = v[i] as u32;
        if !(48 <= u && u <= 57) {
            proof {
                assert(d[i - start] == v@[i as int]);
            }
            return None;
        }
        let dig = (u - 48) as usize;
        let ghost next = v@.subrange(start as int, i + 1);
        proof {
            assert(next.drop_last() =~= v@.subrange(start as int, i as int));
            assert(next.last() == v@[i as int]);
        }
        if acc > (usize::MAX - dig) / 10 {
            proof {
                assert(acc * 10 + dig > usize::MAX) by (nonlinear_arith)
                    requires
                        acc > (usize::MAX - dig) / 10,
                        dig <= 9,
                ;
                assert(d.take(i + 1 - start) =~= next);
                lemma_digits_value_prefix(d, i + 1 - start);
            }
            return None;
        }
        proof {
            assert(acc * 10 + dig <= usize::MAX) by (nonlinear_arith)
                requires
                    acc <= (usize::MAX - dig) / 10,
                    dig <= 9,
            ;
        }
        acc = acc * 10 + dig;
        i += 1;
    }
    proof {
        assert(v@.subrange(start as int, i as int) =~= d);
    }
    Some(acc)
}

pub open spec fn digit_char(d: nat) -> char {
    if d == 0 {
        '0'
    } else if d == 1 {
        '1'
    } else if d == 2 {
        '2'
    } else if d == 3 {
        '3'
    } else if d == 4 {
        '4'
    } else if d == 5 {
        '5'
    } else if d == 6 {
        '6'
    } else if d == 7 {
        '7'
    } else if d == 8 {
        '8'
    } else {
        '9'
    }
}

/// The decimal representation of `n`, as `format!("{n}")` writes it.
pub open spec fn decimal(n: nat) -> Seq<char>
    decreases n,
{
    if n < 10 {
        seq![digit_char(n)]
    } else {
        decimal(n / 10).push(digit_char(n % 10))
    }
}

fn digit_char_exec(d: usize) -> (c: char)
    requires
        d < 10,
    ensures
        c == digit_char(d as nat),
{
    if d == 0 {
        '0'
    } else if d == 1 {
        '1'
    } else if d == 2 {
        '2'
    } else if d == 3 {
        '3'
    } else if d == 4 {
        '4'
    } else if d == 5 {
        '5'
    } else if d == 6 {
        '6'
    } else if d == 7 {
        '7'
    } else if d == 8 {
        '8'
    } else {
        '9'
    }
}

/// Appends the decimal representation of `n`.
pub fn push_decimal(s: &mut String, n: usize)
    ensures
        final(s)@ == old(s)@ + decimal(n as nat),
    decreases n,
{
    if n >= 10 {
        push_decimal(s, n / 10);
    }
    s.push(digit_char_exec(n % 10));
    proof {
        if n < 10 {
            assert(n % 10 == n);
        }
    }
}

/// `v[lo..hi] == w[wlo..whi]`.
pub fn ranges_equal(v: &Vec<char>, lo: usize, hi: usize, w: &Vec<char>, wlo: usize, whi: usize) -> (b: bool)
    requires
        lo <= hi <= v.len(),
        wlo <= whi <= w.len(),
    ensures
        b == (v@.subrange(lo as int, hi as int) == w@.subrange(wlo as int, whi as int)),
{
    if hi - lo != whi - wlo {
        proof {
            assert(v@.subrange(lo as int, hi as int).len() != w@.subrange(wlo as int, whi as int).len());
        }
        return false;
    }
    let mut i: usize = 0;
    while i < hi - lo
        invariant
            lo <= hi <= v.len(),
            wlo <= whi <= w.len(),
            hi - lo == whi - wlo,
            i <= hi - lo,
            forall|k: int| 0 <= k < i ==> v@.subrange(lo as int, hi as int)[k] == #[trigger] w@.subrange(wlo as int, whi as int)[k],
        decreases hi - lo - i,
    {
        if v[lo + i] != w[wlo + i] {
            proof {
                assert(v@.subrange(lo as int, hi as int)[i as int] != w@.subrange(wlo as int, whi as int)[i as int]);
            }
            return false;
        }
        i += 1;
    }
    proof {
        assert(v@.subrange(lo as int, hi as int) =~= w@.subrange(wlo as int, whi as int));
    }
    true
}

/// Appends the decimal representation of a wide `n`.
pub fn push_decimal_wide(s: &mut String, n: u128)
    ensures
        final(s)@ == old(s)@ + decimal(n as nat),
    decreases n,
{
    if n >= 10 {
        push_decimal_wide(s, n / 10);
    }
    s.push(digit_char_exec((n % 10) as usize));
    proof {
        if n < 10 {
            assert(n % 10 == n);
        }
    }
}

/// `a == b` on strings.
pub fn str_eq(a: &str, b: &str) -> (r: bool)
    ensures
        r == (a@ == b@),
{
    let va = chars_of(a);
    let vb = chars_of(b);
    let r = ranges_equal(&va, 0, va.len(), &vb, 0, vb.len());
    proof {
        assert(va@.subrange(0, va@.len() as int) =~= va@);
        assert(vb@.subrange(0, vb@.len() as int) =~= vb@);
    }
    r
}


/// String equality; std documents `==` on `str` as equality of the contents.
pub assume_specification[ <str as PartialEq>::eq ](a: &str, b: &str) -> (r: bool)
    ensures
        r == (a@ == b@),
;

/// `s == lit`.
pub fn text_is(s: &String, lit: &str) -> (r: bool)
    ensures
        r == (s@ == lit@),
{
    <str as PartialEq>::eq(s.as_str(), lit)
}

/// Index of the first element satisfying `p`.
pub open spec fn first_where<A>(s: Seq<A>, p: spec_fn(A) -> bool) -> Option<int>
    decreases s.len(),
{
    if s.len() == 0 {
        None
    } else if p(s[0]) {
        Some(0)
    } else {
        match first_where(s.drop_first(), p) {
            Some(i) => Some(i + 1),
            None => None,
        }
    }
}

/// `first_where` finds something wherever some position satisfies the predicate.
pub proof fn lemma_first_where_found_some<A>(s: Seq<A>, p: spec_fn(A) -> bool, k: int)
    requires
        0 <= k < s.len(),
        p(s[k]),
    ensures
        first_where(s, p) is Some,
    decreases s.len(),
{
    if k > 0 && !p(s[0]) {
        assert(s.drop_first()[k - 1] == s[k]);
        lemma_first_where_found_some(s.drop_first(), p, k - 1);
    }
}

/// `first_where` returns the first position satisfying the predicate.
pub proof fn lemma_first_where<A>(s: Seq<A>, p: spec_fn(A) -> bool, i: int)
    requires
        0 <= i <= s.len(),
        forall|k: int| 0 <= k < i ==> !p(#[trigger] s[k]),
        i == s.len() || p(s[i]),
    ensures
        first_where(s, p) == (if i == s.len() { None::<int> } else { Some(i) }),
    decreases s.len(),
{
    if s.len() > 0 && i > 0 {
        assert forall|k: int| 0 <= k < i - 1 implies !p(#[trigger] s.drop_first()[k]) by {
            assert(s.drop_first()[k] == s[k + 1]);
        }
        lemma_first_where(s.drop_first(), p, i - 1);
    }
}

/// `needle` occurs in `s` as a contiguous piece.
pub open spec fn contains_seq(s: Seq<char>, needle: Seq<char>) -> bool {
    exists|i: int| 0 <= i <= s.len() - needle.len() && #[trigger] s.subrange(i, i + needle.len()) == needle
}

/// `s.contains(needle)` on strings.
pub fn contains_str(s: &String, needle: &str) -> (r: bool)
    ensures
        r == contains_seq(s@, needle@),
{
    let v = chars_of(s.as_str());
    let w = chars_of(needle);
    if w.len() > v.len() {
        return false;
    }
    let last = v.len() - w.len();
    let mut i: usize = 0;
    loop
        invariant
            w.len() <= v.len(),
            last == v.len() - w.len(),
            i <= last,
            v@ == s@,
            w@ == needle@,
            forall|k: int| 0 <= k < i ==> #[trigger] v@.subrange(k, k + w@.len()) != w@,
        ensures
            forall|k: int| 0 <= k <= last ==> #[trigger] v@.subrange(k, k + w@.len()) != w@,
        decreases last - i,
    {
        proof {
            assert(w@.subrange(0, w@.len() as int) =~= w@);
        }
        if ranges_equal(&v, i, i + w.len(), &w, 0, w.len()) {
            return true;
        }
        if i == last {
            break;
        }
        i += 1;
    }
    false
}

/// The parts joined with `sep` between neighbours.
pub open spec fn join_text(parts: Seq<Seq<char>>, sep: Seq<char>) -> Seq<char>
    decreases parts.len(),
{
    if parts.len() == 0 {
        Seq::empty()
    } else if parts.len() == 1 {
        parts[0]
    } else {
        join_text(parts.drop_last(), sep) + sep + parts.last()
    }
}

/// The views of a list of strings.
pub open spec fn views(v: Seq<String>) -> Seq<Seq<char>> {
    v.map_values(|s: String| s@)
}

/// `parts.join(sep)`.
pub fn join_strings(parts: &[String], sep: &str) -> (s: String)
    ensures
        s@ == join_text(views(parts@), sep@),
{
    let mut s = String::new();
    let mut k: usize = 0;
    while k < parts.len()
        invariant
            k <= parts@.len(),
            s@ == join_text(views(parts@).take(k as int), sep@),
        decreases parts.len() - k,
    {
        if k > 0 {
            s.push_str(sep);
        }
        s.push_str(parts[k].as_str());
        proof {
            let t = views(parts@).take(k + 1);
            assert(t.drop_last() =~= views(parts@).take(k as int));
            if k == 0 {
                assert(t.len() == 1);
            }
        }
        k += 1;
    }
    proof {
        assert(views(parts@).take(k as int) =~= views(parts@));
    }
    s
}

/// `s.trim()`, owned.
pub fn trim_string(s: &str) -> (r: String)
    ensures
        r@ == trim(s@),
{
    let v = chars_of(s);
    let (a, b) = trim_range(&v, 0, v.len());
    proof {
        assert(v@.subrange(0, v@.len() as int) =~= s@);
    }
    string_of(&v, a, b)
}

/// Where `p` first occurs in `s`.
pub open spec fn find_seq(s: Seq<char>, p: Seq<char>) -> Option<int>
    decreases s.len(),
{
    if s.len() < p.len() {
        None
    } else if s.take(p.len() as int) == p {
        Some(0)
    } else if s.len() == 0 {
        None
    } else {
        match find_seq(s.drop_first(), p) {
            Some(i) => Some(i + 1),
            None => None,
        }
    }
}

/// `find_seq` returns an occurrence, the first one.
pub proof fn lemma_find_seq(s: Seq<char>, p: Seq<char>)
    ensures
        match find_seq(s, p) {
            Some(i) => 0 <= i && i + p.len() <= s.len() && s.subrange(i, i + p.len()) == p
                && forall|k: int| 0 <= k < i ==> #[trigger] s.subrange(k, k + p.len()) != p,
            None => forall|k: int| 0 <= k && k + p.len() <= s.len() ==> #[trigger] s.subrange(k, k + p.len()) != p,
        },
    decreases s.len(),
{
    if s.len() < p.len() {
    } else if s.take(p.len() as int) == p {
        assert(s.subrange(0, p.len() as int) =~= s.take(p.len() as int));
    } else if s.len() == 0 {
        assert(p.len() == 0);
        assert(s.take(0) =~= p);
    } else {
        let t = s.drop_first();
        lemma_find_seq(t, p);
        assert(s.subrange(0, p.len() as int) =~= s.take(p.len() as int));
        assert forall|k: int| 1 <= k && k + p.len() <= s.len() implies #[trigger] s.subrange(k, k + p.len()) == t.subrange(k - 1, k - 1 + p.len()) by {
            assert(s.subrange(k, k + p.len()) =~= t.subrange(k - 1, k - 1 + p.len()));
        }
        match find_seq(t, p) {
            Some(i) => {
                assert forall|k: int| 0 <= k < i + 1 implies #[trigger] s.subrange(k, k + p.len()) != p by {
                    if k >= 1 {
                        assert(s.subrange(k, k + p.len()) == t.subrange(k - 1, k - 1 + p.len()));
                    }
                }
                assert(s.subrange(i + 1, i + 1 + p.len()) == t.subrange(i, i + p.len()));
            },
            None => {
                assert forall|k: int| 0 <= k && k + p.len() <= s.len() implies #[trigger] s.subrange(k, k + p.len()) != p by {
                    if k >= 1 {
                        assert(s.subrange(k, k + p.len()) == t.subrange(k - 1, k - 1 + p.len()));
                    }
                }
            },
        }
    }
}

/// The first occurrence of `p` in `v[lo..]`, as an index into `v`.
pub fn find_seq_from(v: &Vec<char>, lo: usize, p: &Vec<char>) -> (r: Option<usize>)
    requires
        lo <= v.len(),
    ensures
        match r {
            Some(i) => lo <= i && find_seq(v@.skip(lo as int), p@) == Some(i - lo),
            None => find_seq(v@.skip(lo as int), p@) is None,
        },
{
    let ghost s = v@.skip(lo as int);
    proof {
        lemma_find_seq(s, p@);
    }
    if p.len() > v.len() - lo {
        proof {
            assert(find_seq(s, p@) is None);
        }
        return None;
    }
    let mut i = lo;
    while p.len() <= v.len() - i
        invariant
            lo <= i <= v.len(),
            s == v@.skip(lo as int),
            forall|k: int| 0 <= k < i - lo ==> #[trigger] s.subrange(k, k + p@.len()) != p@,
        decreases v.len() - i,
    {
        let hit = ranges_equal(v, i, i + p.len(), p, 0, p.len());
        proof {
            assert(p@.subrange(0, p@.len() as int) =~= p@);
            assert(s.subrange(i - lo, i - lo + p@.len()) =~= v@.subrange(i as int, i + p@.len()));
        }
        if hit {
            proof {
                let m = (i - lo) as int;
                lemma_find_seq(s, p@);
                match find_seq(s, p@) {
                    Some(j) => {
                        if j > m {
                            assert(s.subrange(m, m + p@.len()) != p@);
                        } else if j < m {
                            assert(s.subrange(j, j + p@.len()) != p@);
                        }
                    },
                    None => {
                        assert(s.subrange(m, m + p@.len()) != p@);
                    },
                }
            }
            return Some(i);
        }
        proof {
            if p@.len() == 0 {
                assert(v@.subrange(i as int, i as int) =~= p@.subrange(0, 0));
            }
        }
        i += 1;
    }
    proof {
        lemma_find_seq(s, p@);
        match find_seq(s, p@) {
            Some(j) => {
                assert(s.subrange(j, j + p@.len()) != p@);
            },
            None => {},
        }
    }
    None
}

/// `s.split_once(p)`: the text before the first `p` and the text after it.
pub open spec fn split_once_seq(s: Seq<char>, p: Seq<char>) -> Option<(Seq<char>, Seq<char>)> {
    match find_seq(s, p) {
        Some(i) => Some((s.take(i), s.skip(i + p.len()))),
        None => None,
    }
}

/// `s.split(sep)` for a non-empty separator: the pieces between occurrences.
pub open spec fn split_seq(s: Seq<char>, sep: Seq<char>) -> Seq<Seq<char>>
    decreases s.len(),
{
    if sep.len() == 0 {
        seq![s]
    } else {
        match find_seq(s, sep) {
            None => seq![s],
            Some(i) => {
                proof {
                    lemma_find_seq(s, sep);
                }
                seq![s.take(i)] + split_seq(s.skip(i + sep.len()), sep)
            },
        }
    }
}

/// `trim_start` drops only whitespace, and stops at a non-space.
pub proof fn lemma_trim_start(s: Seq<char>)
    ensures
        trim_start(s).len() <= s.len(),
        trim_start(s).len() > 0 ==> !is_space(trim_start(s)[0]),
        trim_start(s) == s.skip(s.len() - trim_start(s).len()),
    decreases s.len(),
{
    if s.len() > 0 && is_space(s[0]) {
        lemma_trim_start(s.drop_first());
        assert(s.drop_first().skip(s.drop_first().len() - trim_start(s.drop_first()).len()) =~= s.skip(
            s.len() - trim_start(s).len(),
        ));
    } else {
        assert(s.skip(0) =~= s);
    }
}

pub open spec fn space() -> spec_fn(char) -> bool {
    |c: char| is_space(c)
}

/// The length of the word `t` starts with: up to its first whitespace.
pub open spec fn word_len(t: Seq<char>) -> int {
    match first_where(t, space()) {
        Some(i) => i,
        None => t.len() as int,
    }
}

/// `str::split_whitespace`: the maximal runs of non-whitespace, in order.
pub open spec fn words(s: Seq<char>) -> Seq<Seq<char>>
    decreases s.len(),
{
    let t = trim_start(s);
    if t.len() == 0 {
        Seq::empty()
    } else {
        proof {
            lemma_trim_start(s);
            crate::syntax::lemma_first_where_bounds(t, space());
        }
        seq![t.take(word_len(t))] + words(t.skip(word_len(t)))
    }
}

/// `split_whitespace` of `v[lo..]`.
pub fn words_from(v: &Vec<char>, lo: usize) -> (r: Vec<String>)
    requires
        lo <= v.len(),
    ensures
        views(r@) == words(v@.skip(lo as int)),
    decreases v.len() - lo,
{
    let ghost s = v@.skip(lo as int);
    let mut a = lo;
    proof {
        assert(v@.skip(lo as int) =~= s);
    }
    while a < v.len() && char_is_space(v[a])
        invariant
            lo <= a <= v.len(),
            trim_start(s) == trim_start(v@.skip(a as int)),
            s == v@.skip(lo as int),
        decreases v.len() - a,
    {
        proof {
            assert(v@.skip(a as int).drop_first() =~= v@.skip(a + 1));
        }
        a += 1;
    }
    let ghost t = trim_start(s);
    proof {
        assert(a == v.len() || !is_space(v@.skip(a as int)[0]));
        assert(trim_start(v@.skip(a as int)) == v@.skip(a as int));
    }
    if a == v.len() {
        proof {
            assert(t.len() == 0);
        }
        return Vec::new();
    }
    let mut b = a;
    while b < v.len() && !char_is_space(v[b])
        invariant
            a <= b <= v.len(),
            forall|k: int| a <= k < b ==> !is_space(#[trigger] v@[k]),
        decreases v.len() - b,
    {
        b += 1;
    }
    proof {
        lemma_trim_start(s);
        assert forall|k: int| 0 <= k < b - a implies !space()(#[trigger] t[k]) by {
            assert(t[k] == v@[a + k]);
        }
        if b < v.len() {
            assert(t[b - a] == v@[b as int]);
        }
        lemma_first_where(t, space(), b - a);
        assert(word_len(t) == b - a);
        assert(t.take(b - a) =~= v@.subrange(a as int, b as int));
        assert(t.skip(b - a) =~= v@.skip(b as int));
    }
    let w = string_of(v, a, b);
    let rest = words_from(v, b);
    let mut r: Vec<String> = Vec::new();
    r.push(w);
    let mut k: usize = 0;
    while k < rest.len()
        invariant
            k <= rest@.len(),
            views(r@) == seq![w@] + views(rest@).take(k as int),
        decreases rest.len() - k,
    {
        let x = rest[k].clone();
        proof {
            assert(views(r@.push(x)) =~= views(r@).push(x@));
            assert(views(rest@).take(k + 1) =~= views(rest@).take(k as int).push(rest@[k as int]@));
        }
        r.push(x);
        k += 1;
    }
    proof {
        assert(views(rest@).take(k as int) =~= views(rest@));
    }
    r
}

} // verus!
