//! Whole patterns: splitting a raw pattern into segments, and the anchored
//! regular expression that decides whether a key matches.

use vstd::prelude::*;
use crate::compiled::{compile_regex, regex_compiles, regex_matches, CompiledRegex};
use crate::glob::{combine, fragment, glob_char, is_glob_char, lemma_pattern_covers, parse_pattern_chars, pattern_spec, raw_spec, strings_view, Glob, GlobView, PatternError, PatternErrorView};
use crate::text::{chars_of, string_of};

verus! {

/// The first index at or after `from` that holds a glob character.
pub open spec fn first_glob(s: Seq<char>, from: int) -> Option<int>
    decreases s.len() - from,
{
    if from < 0 || from >= s.len() {
        None
    } else if is_glob_char(s[from]) {
        Some(from)
    } else {
        first_glob(s, from + 1)
    }
}

/// A run of ordinary characters as a one-choice segment.
pub open spec fn literal(t: Seq<char>) -> GlobView {
    GlobView::Choice { raw: t, allowed: seq![t] }
}

/// The segments of `s` in order, before merging: literal runs and constructs.
pub open spec fn scan_parts(s: Seq<char>) -> Result<Seq<GlobView>, PatternErrorView>
    decreases s.len(),
{
    if s.len() == 0 {
        Ok(seq![])
    } else {
        match first_glob(s, 0) {
            None => Ok(seq![literal(s)]),
            Some(k) => {
                let lit = if k > 0 {
                    seq![literal(s.take(k))]
                } else {
                    seq![]
                };
                match pattern_spec(s.skip(k)) {
                    Err(e) => Err(e),
                    Ok(g) => {
                        let n = raw_spec(g).len() as int;
                        // a construct always covers between one character
                        // and the rest of the text (lemma_pattern_covers)
                        if 0 <= k && 1 <= n && k + n <= s.len() {
                            match scan_parts(s.skip(k + n)) {
                                Err(e) => Err(e),
                                Ok(rest) => Ok(lit + seq![g] + rest),
                            }
                        } else {
                            Ok(lit + seq![g])
                        }
                    },
                }
            },
        }
    }
}

/// A pattern that ends with the delimiter gets a trailing synthetic `*`.
pub open spec fn with_trailing(parts: Seq<GlobView>, s: Seq<char>, d: char) -> Seq<GlobView> {
    if s.len() > 0 && s.last() == d {
        parts.push(GlobView::SyntheticAny)
    } else {
        parts
    }
}

/// Adjacent choice segments merged by cross product, in order.
pub open spec fn merge_choices(parts: Seq<GlobView>, d: char) -> Seq<GlobView>
    decreases parts.len(),
{
    if parts.len() == 0 {
        seq![]
    } else {
        let m = merge_choices(parts.drop_last(), d);
        let p = parts.last();
        if m.len() > 0 && m.last() is Choice && p is Choice {
            m.update(m.len() - 1, combine(m.last(), p, d))
        } else {
            m.push(p)
        }
    }
}

/// The segments of pattern `s` with delimiter `d`, or why it is malformed.
pub open spec fn parse_spec(s: Seq<char>, d: char) -> Result<Seq<GlobView>, PatternErrorView> {
    match scan_parts(s) {
        Err(e) => Err(e),
        Ok(parts) => Ok(merge_choices(with_trailing(parts, s, d), d)),
    }
}

/// The fragments of all segments, in order.
pub open spec fn fragments(parts: Seq<GlobView>, d: char) -> Seq<char>
    decreases parts.len(),
{
    if parts.len() == 0 {
        seq![]
    } else {
        fragments(parts.drop_last(), d) + fragment(parts.last(), d)
    }
}

/// The regular expression of a pattern, anchored at both ends of the key.
pub open spec fn full_regex(parts: Seq<GlobView>, d: char) -> Seq<char> {
    seq!['^'] + fragments(parts, d) + seq!['$']
}

/// Whether `key` matches the pattern made of `parts`.
pub open spec fn key_matches(parts: Seq<GlobView>, d: char, key: Seq<char>) -> bool {
    regex_matches(full_regex(parts, d), key)
}

/// The raw texts of the segments, concatenated.
pub open spec fn raws(parts: Seq<GlobView>) -> Seq<char>
    decreases parts.len(),
{
    if parts.len() == 0 {
        seq![]
    } else {
        raws(parts.drop_last()) + raw_spec(parts.last())
    }
}

pub open spec fn globs_view(v: Seq<Glob>) -> Seq<GlobView> {
    v.map_values(|g: Glob| g@)
}

pub open spec fn prepend(pre: Seq<GlobView>, r: Result<Seq<GlobView>, PatternErrorView>) -> Result<
    Seq<GlobView>,
    PatternErrorView,
> {
    match r {
        Ok(rest) => Ok(pre + rest),
        Err(e) => Err(e),
    }
}

/// A copy of `v[lo..]`.
fn tail_of(v: &Vec<char>, lo: usize) -> (r: Vec<char>)
    requires
        lo <= v@.len(),
    ensures
        r@ == v@.skip(lo as int),
{
    let mut out: Vec<char> = Vec::new();
    let mut i: usize = lo;
    while i < v.len()
        invariant
            lo <= i <= v@.len(),
            out@ == v@.subrange(lo as int, i as int),
        decreases v.len() - i,
    {
        out.push(v[i]);
        i = i + 1;
        assert(out@ =~= v@.subrange(lo as int, i as int));
    }
    assert(out@ =~= v@.skip(lo as int));
    out
}

/// `first_glob` from `from` is the first glob character at or after it.
pub proof fn lemma_first_glob(s: Seq<char>, from: int, i: int)
    requires
        0 <= from <= i <= s.len(),
        forall|k: int| from <= k < i ==> !is_glob_char(s[k]),
    ensures
        i < s.len() && is_glob_char(s[i]) ==> first_glob(s, from) == Some(i),
        i == s.len() ==> first_glob(s, from) is None,
    decreases i - from,
{
    if from < i {
        lemma_first_glob(s, from + 1, i);
    }
}

fn literal_glob(v: &Vec<char>, lo: usize, hi: usize) -> (r: Glob)
    requires
        lo <= hi <= v@.len(),
    ensures
        r@ == literal(v@.subrange(lo as int, hi as int)),
{
    let raw = string_of(v, lo, hi);
    let one = string_of(v, lo, hi);
    let mut allowed: Vec<String> = Vec::new();
    allowed.push(one);
    assert(strings_view(allowed@) =~= seq![v@.subrange(lo as int, hi as int)]);
    Glob::Choice { raw, allowed }
}

/// Splits `s` into its segments, before merging.
fn scan_chars(s: &Vec<char>) -> (r: Result<Vec<Glob>, PatternError>)
    ensures
        match r {
            Ok(parts) => scan_parts(s@) == Ok::<Seq<GlobView>, PatternErrorView>(globs_view(parts@)),
            Err(e) => scan_parts(s@) == Err::<Seq<GlobView>, PatternErrorView>(e@),
        },
{
    let mut parts: Vec<Glob> = Vec::new();
    let mut rest: Vec<char> = tail_of(s, 0);
    assert(s@.skip(0) == s@);
    loop
        invariant
            scan_parts(s@) == prepend(globs_view(parts@), scan_parts(rest@)),
        decreases rest@.len(),
    {
        if rest.len() == 0 {
            assert(globs_view(parts@) + seq![] =~= globs_view(parts@));
            return Ok(parts);
        }
        let mut k: usize = 0;
        while k < rest.len() && !glob_char(rest[k])
            invariant
                0 <= k <= rest@.len(),
                forall|j: int| 0 <= j < k ==> !is_glob_char(rest@[j]),
            decreases rest.len() - k,
        {
            k = k + 1;
        }
        proof {
            lemma_first_glob(rest@, 0, k as int);
        }
        if k == rest.len() {
            let ghost pre = globs_view(parts@);
            let lit = literal_glob(&rest, 0, k);
            assert(rest@.subrange(0, k as int) == rest@);
            parts.push(lit);
            assert(globs_view(parts@) =~= pre + seq![literal(rest@)]);
            return Ok(parts);
        }
        let ghost pre = globs_view(parts@);
        let ghost old_rest = rest@;
        if k > 0 {
            let lit = literal_glob(&rest, 0, k);
            assert(rest@.subrange(0, k as int) == rest@.take(k as int));
            parts.push(lit);
        }
        let ghost lit_seq: Seq<GlobView> = if k > 0 {
            seq![literal(old_rest.take(k as int))]
        } else {
            seq![]
        };
        assert(globs_view(parts@) =~= pre + lit_seq);
        let tail = tail_of(&rest, k);
        let g = match parse_pattern_chars(&tail) {
            Ok(g) => g,
            Err(e) => {
                return Err(e);
            },
        };
        proof {
            lemma_pattern_covers(tail@);
        }
        let m = g.pattern_len();
        let ghost gv = g@;
        let ghost mid = globs_view(parts@);
        parts.push(g);
        assert(globs_view(parts@) =~= mid.push(gv));
        rest = tail_of(&tail, m);
        assert(rest@ =~= old_rest.skip(k + m));
        assert(pre + (lit_seq + seq![gv] + scan_parts(rest@)->Ok_0) =~= globs_view(parts@) + scan_parts(rest@)->Ok_0);
    }
}

/// The segments of the pattern `raw` with delimiter `delimiter`.
pub fn parse_parts(raw: &str, delimiter: char) -> (r: Result<Vec<Glob>, PatternError>)
    ensures
        match r {
            Ok(parts) => parse_spec(raw@, delimiter) == Ok::<Seq<GlobView>, PatternErrorView>(
                globs_view(parts@),
            ),
            Err(e) => parse_spec(raw@, delimiter) == Err::<Seq<GlobView>, PatternErrorView>(e@),
        },
{
    let s = chars_of(raw);
    let mut parts = match scan_chars(&s) {
        Ok(p) => p,
        Err(e) => {
            return Err(e);
        },
    };
    if s.len() > 0 && s[s.len() - 1] == delimiter {
        let ghost before = globs_view(parts@);
        parts.push(Glob::SyntheticAny);
        assert(globs_view(parts@) =~= before.push(GlobView::SyntheticAny));
    }
    let ghost all = globs_view(parts@);
    let n_parts = parts.len();
    assert(all.len() == n_parts);
    assert(all == with_trailing(scan_parts(raw@)->Ok_0, raw@, delimiter));
    let mut merged: Vec<Glob> = Vec::new();
    let mut i: usize = 0;
    assert(all.take(0) =~= Seq::<GlobView>::empty());
    while parts.len() > 0
        invariant
            i + parts@.len() == all.len(),
            all.len() <= usize::MAX,
            globs_view(parts@) == all.skip(i as int),
            globs_view(merged@) == merge_choices(all.take(i as int), delimiter),
        decreases parts.len(),
    {
        let ghost old_parts = parts@;
        let p = parts.remove(0);
        assert(p == old_parts[0]);
        assert(globs_view(old_parts)[0] == old_parts[0]@);
        assert(all.skip(i as int)[0] == all[i as int]);
        assert(parts@ =~= old_parts.skip(1));
        assert(globs_view(parts@) =~= globs_view(old_parts).skip(1));
        assert(globs_view(parts@) =~= all.skip(i + 1));
        let ghost prev = globs_view(merged@);
        assert(all.take(i + 1).drop_last() =~= all.take(i as int));
        if merged.len() > 0 && merged[merged.len() - 1].is_choice() && p.is_choice() {
            let mut last = merged.pop().unwrap();
            assert(last@ == prev.last());
            last.combine_with(&p, delimiter);
            merged.push(last);
            assert(globs_view(merged@) =~= prev.update(prev.len() - 1, combine(prev.last(), p@, delimiter)));
        } else {
            merged.push(p);
            assert(globs_view(merged@) =~= prev.push(p@));
        }
        i = i + 1;
    }
    assert(all.take(i as int) =~= all);
    Ok(merged)
}

/// The regular expression of a parsed pattern, as text.
pub fn build_regex(parts: &Vec<Glob>, delimiter: char) -> (r: String)
    ensures
        r@ == full_regex(globs_view(parts@), delimiter),
{
    let mut r = String::new();
    r.push('^');
    let mut i: usize = 0;
    while i < parts.len()
        invariant
            0 <= i <= parts@.len(),
            r@ == seq!['^'] + fragments(globs_view(parts@.take(i as int)), delimiter),
        decreases parts.len() - i,
    {
        let f = parts[i].re_string(delimiter);
        r.push_str(f.as_str());
        proof {
            let t = globs_view(parts@.take(i + 1));
            assert(t.drop_last() =~= globs_view(parts@.take(i as int)));
            assert(t.last() == parts@[i as int]@);
        }
        i = i + 1;
    }
    r.push('$');
    assert(parts@.take(parts@.len() as int) == parts@);
    r
}

/// A glob pattern over keys, parsed into segments, with the regular
/// expression that decides matches.
pub struct S3GlobMatcher {
    pub(crate) raw: String,
    pub(crate) delimiter: char,
    pub(crate) parts: Vec<Glob>,
    pub(crate) glob: CompiledRegex,
}

impl S3GlobMatcher {
    pub closed spec fn raw_view(&self) -> Seq<char> {
        self.raw@
    }

    pub closed spec fn delimiter_view(&self) -> char {
        self.delimiter
    }

    pub closed spec fn parts_view(&self) -> Seq<GlobView> {
        globs_view(self.parts@)
    }

    /// The compiled expression is the one the segments describe.
    pub closed spec fn wf(&self) -> bool {
        self.glob@ == full_regex(self.parts_view(), self.delimiter)
    }

    /// Parses `raw` with the first character of `delimiter` as delimiter.
    pub fn parse(raw: String, delimiter: &str) -> (r: Result<S3GlobMatcher, PatternError>)
        requires
            delimiter@.len() > 0,
        ensures
            match r {
                Ok(m) => {
                    &&& parse_spec(raw@, delimiter@[0]) == Ok::<
                        Seq<GlobView>,
                        PatternErrorView,
                    >(m.parts_view())
                    &&& m.raw_view() == raw@
                    &&& m.delimiter_view() == delimiter@[0]
                    &&& m.wf()
                },
                Err(e) => match parse_spec(raw@, delimiter@[0]) {
                    Err(x) => e@ == x,
                    Ok(ps) => e@ == PatternErrorView::InvalidRegex {
                        regex: full_regex(ps, delimiter@[0]),
                    },
                },
            },
            parse_spec(raw@, delimiter@[0]) matches Ok(ps) ==> (r is Ok <==> regex_compiles(
                full_regex(ps, delimiter@[0]),
            )),
    {
        let dc = chars_of(delimiter);
        let d = dc[0];
        let parts = match parse_parts(raw.as_str(), d) {
            Ok(p) => p,
            Err(e) => {
                return Err(e);
            },
        };
        let source = build_regex(&parts, d);
        match compile_regex(source.as_str()) {
            Ok(glob) => Ok(S3GlobMatcher { raw, delimiter: d, parts, glob }),
            Err(_) => Err(PatternError::InvalidRegex { regex: source }),
        }
    }

    /// Whether `path` matches the whole pattern.
    pub fn is_match(&self, path: &str) -> (r: bool)
        requires
            self.wf(),
        ensures
            r == key_matches(self.parts_view(), self.delimiter_view(), path@),
    {
        self.glob.is_match(path)
    }

    /// The pattern as given.
    pub fn raw(&self) -> (r: &str)
        ensures
            r@ == self.raw_view(),
    {
        self.raw.as_str()
    }

    /// The delimiter.
    pub fn delimiter(&self) -> (r: char)
        ensures
            r == self.delimiter_view(),
    {
        self.delimiter
    }

    /// The segments.
    pub fn parts(&self) -> (r: &Vec<Glob>)
        ensures
            globs_view(r@) == self.parts_view(),
    {
        &self.parts
    }

    /// The anchored regular expression that decides matches.
    pub fn regex(&self) -> (r: &str)
        ensures
            self.wf() ==> r@ == full_regex(self.parts_view(), self.delimiter_view()),
    {
        self.glob.as_str()
    }
}

proof fn lemma_raws_single(g: GlobView)
    ensures
        raws(seq![g]) == raw_spec(g),
{
    assert(seq![g].drop_last() =~= Seq::<GlobView>::empty());
    assert(raws(Seq::<GlobView>::empty()) == Seq::<char>::empty());
    assert(raws(seq![g]) == raws(Seq::<GlobView>::empty()) + raw_spec(g));
    assert(raws(seq![g]) =~= raw_spec(g));
}

proof fn lemma_raws_append(a: Seq<GlobView>, b: Seq<GlobView>)
    ensures
        raws(a + b) == raws(a) + raws(b),
    decreases b.len(),
{
    if b.len() == 0 {
        assert(a + b =~= a);
    } else {
        lemma_raws_append(a, b.drop_last());
        assert((a + b).drop_last() =~= a + b.drop_last());
    }
}

proof fn lemma_scan_raws(s: Seq<char>)
    ensures
        scan_parts(s) matches Ok(ps) ==> raws(ps) == s,
    decreases s.len(),
{
    if s.len() > 0 {
        match first_glob(s, 0) {
            None => {
                lemma_raws_single(literal(s));
            },
            Some(k) => {
                lemma_first_glob_bounds(s, 0);
                let lit: Seq<GlobView> = if k > 0 {
                    seq![literal(s.take(k))]
                } else {
                    seq![]
                };
                assert(raws(lit) == s.take(k)) by {
                    if k > 0 {
                        lemma_raws_single(literal(s.take(k)));
                    } else {
                        assert(s.take(k) =~= Seq::<char>::empty());
                    }
                }
                lemma_pattern_covers(s.skip(k));
                if let Ok(g) = pattern_spec(s.skip(k)) {
                    let n = raw_spec(g).len() as int;
                    lemma_scan_raws(s.skip(k + n));
                    if let Ok(rest) = scan_parts(s.skip(k + n)) {
                        lemma_raws_append(lit + seq![g], rest);
                        lemma_raws_append(lit, seq![g]);
                        lemma_raws_single(g);
                        assert(s.take(k) + s.skip(k).take(n) + s.skip(k + n) =~= s);
                    }
                }
            },
        }
    }
}

proof fn lemma_first_glob_bounds(s: Seq<char>, from: int)
    requires
        0 <= from,
    ensures
        first_glob(s, from) matches Some(k) ==> from <= k < s.len() && is_glob_char(s[k]),
    decreases s.len() - from,
{
    if from < s.len() && !is_glob_char(s[from]) {
        lemma_first_glob_bounds(s, from + 1);
    }
}

proof fn lemma_merge_raws(parts: Seq<GlobView>, d: char)
    ensures
        raws(merge_choices(parts, d)) == raws(parts),
    decreases parts.len(),
{
    if parts.len() > 0 {
        lemma_merge_raws(parts.drop_last(), d);
        let m = merge_choices(parts.drop_last(), d);
        let p = parts.last();
        if m.len() > 0 && m.last() is Choice && p is Choice {
            let u = m.update(m.len() - 1, combine(m.last(), p, d));
            assert(u.drop_last() =~= m.drop_last());
            assert(raw_spec(combine(m.last(), p, d)) == raw_spec(m.last()) + raw_spec(p));
            assert(raws(u) =~= raws(m.drop_last()) + raw_spec(m.last()) + raw_spec(p));
        } else {
            assert(m.push(p).drop_last() =~= m);
        }
    }
}

/// Parsing loses no text: the raw texts of the segments of a well-formed
/// pattern, in order, spell the pattern itself.
pub proof fn lemma_parse_round_trip(s: Seq<char>, d: char)
    requires
        parse_spec(s, d) is Ok,
    ensures
        raws(parse_spec(s, d)->Ok_0) == s,
{
    lemma_scan_raws(s);
    let ps = scan_parts(s)->Ok_0;
    lemma_merge_raws(with_trailing(ps, s, d), d);
    if s.len() > 0 && s.last() == d {
        assert(ps.push(GlobView::SyntheticAny).drop_last() == ps);
        assert(raws(ps.push(GlobView::SyntheticAny)) =~= raws(ps) + seq![]);
    }
}


} // verus!
