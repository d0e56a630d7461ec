//! Segments of a glob pattern, the parser of a single glob construct, and the
//! regex fragment that each segment compiles to.

use vstd::prelude::*;
use crate::compiled::{escaped, regex_escape};
use crate::text::{char_le, lemma_char_is_scalar, chars_of, copy_str, is_scalar, join_spec, prefix_join, push_chars, string_of};

verus! {

/// Whether `c` opens a glob construct.
pub open spec fn is_glob_char(c: char) -> bool {
    c == '*' || c == '?' || c == '[' || c == '{'
}

/// Whether `c` opens a glob construct.
pub fn glob_char(c: char) -> (r: bool)
    ensures
        r == is_glob_char(c),
{
    c == '*' || c == '?' || c == '[' || c == '{'
}

/// One parsed unit of a pattern.
#[derive(Debug)]
pub enum Glob {
    /// A single `*` or `?`, or a negated character class `[!...]`.
    Any { raw: String, not: Option<Vec<char>> },
    /// Stands for a `*` after a pattern that ends with the delimiter.
    SyntheticAny,
    /// A literal, an alternation `{a,b}` or a character class `[ab]`.
    Choice { raw: String, allowed: Vec<String> },
    /// `**`.
    Recursive,
}

/// The mathematical form of a [`Glob`].
pub enum GlobView {
    Any { raw: Seq<char>, not: Option<Seq<char>> },
    SyntheticAny,
    Choice { raw: Seq<char>, allowed: Seq<Seq<char>> },
    Recursive,
}

pub open spec fn strings_view(v: Seq<String>) -> Seq<Seq<char>> {
    v.map_values(|s: String| s@)
}

impl View for Glob {
    type V = GlobView;

    open spec fn view(&self) -> GlobView {
        match self {
            Glob::Any { raw, not } => GlobView::Any {
                raw: raw@,
                not: match not {
                    Some(v) => Some(v@),
                    None => None,
                },
            },
            Glob::SyntheticAny => GlobView::SyntheticAny,
            Glob::Choice { raw, allowed } => GlobView::Choice {
                raw: raw@,
                allowed: strings_view(allowed@),
            },
            Glob::Recursive => GlobView::Recursive,
        }
    }
}

/// Why a pattern could not be parsed.
#[derive(Debug)]
pub enum PatternError {
    /// `{` without a closing `}`.
    UnclosedAlternation { raw: String },
    /// `[` without a closing `]`.
    UnclosedClass { raw: String },
    /// `[]` with nothing after it.
    EmptyClass { raw: String },
    /// A range dash at the very end of the pattern.
    RangeNotClosed { raw: String },
    /// A range whose end is not above its start.
    InvalidRange { start: char, end: char, raw: String },
    /// The compiled expression was refused by the regex engine.
    InvalidRegex { regex: String },
}

/// The mathematical form of a [`PatternError`].
pub enum PatternErrorView {
    UnclosedAlternation { raw: Seq<char> },
    UnclosedClass { raw: Seq<char> },
    EmptyClass { raw: Seq<char> },
    RangeNotClosed { raw: Seq<char> },
    InvalidRange { start: char, end: char, raw: Seq<char> },
    InvalidRegex { regex: Seq<char> },
}

impl View for PatternError {
    type V = PatternErrorView;

    open spec fn view(&self) -> PatternErrorView {
        match self {
            PatternError::UnclosedAlternation { raw } => PatternErrorView::UnclosedAlternation {
                raw: raw@,
            },
            PatternError::UnclosedClass { raw } => PatternErrorView::UnclosedClass { raw: raw@ },
            PatternError::EmptyClass { raw } => PatternErrorView::EmptyClass { raw: raw@ },
            PatternError::RangeNotClosed { raw } => PatternErrorView::RangeNotClosed { raw: raw@ },
            PatternError::InvalidRange { start, end, raw } => PatternErrorView::InvalidRange {
                start: *start,
                end: *end,
                raw: raw@,
            },
            PatternError::InvalidRegex { regex } => PatternErrorView::InvalidRegex {
                regex: regex@,
            },
        }
    }
}

pub open spec fn glob_result_view(r: Result<Glob, PatternError>) -> Result<GlobView, PatternErrorView> {
    match r {
        Ok(g) => Ok(g@),
        Err(e) => Err(e@),
    }
}

/// The scalar values from `lo` to `hi`, in increasing order.
pub open spec fn char_range(lo: int, hi: int) -> Seq<char>
    decreases hi - lo + 1,
{
    if hi < lo {
        seq![]
    } else {
        let r = char_range(lo, hi - 1);
        if is_scalar(hi) {
            r.push(hi as char)
        } else {
            r
        }
    }
}

/// The comma-separated alternatives of the body of `{...}`.
pub open spec fn split_alternatives(s: Seq<char>) -> Seq<Seq<char>>
    decreases s.len(),
{
    if s.len() == 0 {
        seq![seq![]]
    } else {
        let r = split_alternatives(s.drop_last());
        if s.last() == ',' {
            r.push(seq![])
        } else {
            r.update(r.len() - 1, r.last().push(s.last()))
        }
    }
}

/// The first index at or after `from` where `s` holds `c`.
pub open spec fn first_index_of(s: Seq<char>, c: char, from: int) -> Option<int>
    decreases s.len() - from,
{
    if from < 0 || from >= s.len() {
        None
    } else if s[from] == c {
        Some(from)
    } else {
        first_index_of(s, c, from + 1)
    }
}

/// Reading a character class `[...]` of `s` from index `i`, with `neg` telling
/// whether it opened with `!` and `alts` the members read so far. On success:
/// the index just past the closing `]`, negation, and the members.
pub open spec fn class_scan(s: Seq<char>, i: int, neg: bool, alts: Seq<char>) -> Result<
    (int, bool, Seq<char>),
    PatternErrorView,
>
    decreases s.len() - i,
{
    if i < 1 || i >= s.len() {
        if s.len() == 2 && i == 2 && s[1] == ']' {
            Err(PatternErrorView::EmptyClass { raw: s.take(i) })
        } else {
            Err(PatternErrorView::UnclosedClass { raw: s.take(i) })
        }
    } else {
        let c = s[i];
        if c == '!' && i == 1 {
            class_scan(s, i + 1, true, alts)
        } else if c == ']' && (i == 1 || (neg && i == 2)) {
            class_scan(s, i + 1, neg, alts.push(c))
        } else if c == '-' && ((!neg && i != 1) || (neg && i != 2)) {
            if i + 1 >= s.len() {
                Err(PatternErrorView::RangeNotClosed { raw: s.take(i + 1) })
            } else if s[i + 1] == ']' {
                class_scan(s, i + 1, neg, alts.push(c))
            } else if (s[i + 1] as int) <= (alts.last() as int) {
                Err(
                    PatternErrorView::InvalidRange {
                        start: alts.last(),
                        end: s[i + 1],
                        raw: s.take(i + 2),
                    },
                )
            } else {
                class_scan(
                    s,
                    i + 2,
                    neg,
                    alts.drop_last() + char_range(alts.last() as int, s[i + 1] as int),
                )
            }
        } else if c == ']' {
            Ok((i + 1, neg, alts))
        } else {
            class_scan(s, i + 1, neg, alts.push(c))
        }
    }
}

/// The members of a class as one-character alternatives.
pub open spec fn singletons(a: Seq<char>) -> Seq<Seq<char>> {
    a.map_values(|c: char| seq![c])
}

/// The glob construct at the start of `s`, which opens with a glob character.
pub open spec fn pattern_spec(s: Seq<char>) -> Result<GlobView, PatternErrorView> {
    if s[0] == '?' {
        Ok(GlobView::Any { raw: seq!['?'], not: None })
    } else if s[0] == '*' {
        if s.len() > 1 && s[1] == '*' {
            Ok(GlobView::Recursive)
        } else {
            Ok(GlobView::Any { raw: seq!['*'], not: None })
        }
    } else if s[0] == '{' {
        match first_index_of(s, '}', 1) {
            None => Err(PatternErrorView::UnclosedAlternation { raw: s }),
            Some(j) => Ok(
                GlobView::Choice {
                    raw: s.take(j + 1),
                    allowed: split_alternatives(s.subrange(1, j)),
                },
            ),
        }
    } else {
        match class_scan(s, 1, false, seq![]) {
            Err(e) => Err(e),
            Ok((end, neg, alts)) => if neg {
                Ok(GlobView::Any { raw: s.take(end), not: Some(alts) })
            } else {
                Ok(GlobView::Choice { raw: s.take(end), allowed: singletons(alts) })
            },
        }
    }
}

/// Appends the scalar values from `start` to `end` to `alts`.
fn push_range(alts: &mut Vec<char>, start: char, end: char)
    requires
        (start as int) < (end as int),
    ensures
        final(alts)@ == old(alts)@ + char_range(start as int, end as int),
{
    proof {
        lemma_char_is_scalar(end);
    }
    let e = end as u32;
    let mut u: u32 = start as u32;
    assert(char_range(start as int, start as int - 1) == Seq::<char>::empty());
    while u <= e
        invariant
            start as u32 <= u <= e + 1,
            e == end as u32,
            e <= 0x10FFFF,
            alts@ == old(alts)@ + char_range(start as int, u as int - 1),
        decreases e + 1 - u,
    {
        match char::from_u32(u) {
            Some(c) => {
                alts.push(c);
                assert(c == (u as int) as char);
            },
            None => {},
        }
        assert(alts@ == old(alts)@ + char_range(start as int, u as int));
        u = u + 1;
    }
}

proof fn lemma_split_nonempty(s: Seq<char>)
    ensures
        split_alternatives(s).len() >= 1,
    decreases s.len(),
{
    if s.len() > 0 {
        lemma_split_nonempty(s.drop_last());
    }
}

/// `first_index_of` finds the first `c` from `from`, or nothing.
pub proof fn lemma_first_index(s: Seq<char>, c: char, from: int, i: int)
    requires
        0 <= from <= i <= s.len(),
        forall|k: int| from <= k < i ==> s[k] != c,
    ensures
        i < s.len() && s[i] == c ==> first_index_of(s, c, from) == Some(i),
        i == s.len() ==> first_index_of(s, c, from) is None,
    decreases i - from,
{
    if from < i {
        lemma_first_index(s, c, from + 1, i);
    }
}

/// Reads the alternation `{...}` at the start of `s`.
fn scan_alternation(s: &Vec<char>) -> (r: Result<Glob, PatternError>)
    requires
        s@.len() > 0,
        s@[0] == '{',
    ensures
        glob_result_view(r) == pattern_spec(s@),
{
    let n = s.len();
    let mut alts: Vec<String> = Vec::new();
    let mut alt = String::new();
    let mut i: usize = 1;
    proof {
        assert(s@.subrange(1, 1) == Seq::<char>::empty());
    }
    while i < n
        invariant
            1 <= i <= n == s@.len(),
            s@[0] == '{',
            forall|k: int| 1 <= k < i ==> s@[k] != '}',
            strings_view(alts@).push(alt@) == split_alternatives(s@.subrange(1, i as int)),
        decreases n - i,
    {
        let c = s[i];
        proof {
            lemma_split_nonempty(s@.subrange(1, i as int));
        }
        if c == '}' {
            alts.push(alt);
            proof {
                lemma_first_index(s@, '}', 1, i as int);
                assert(strings_view(alts@) == split_alternatives(s@.subrange(1, i as int)));
            }
            let raw = string_of(s, 0, i + 1);
            return Ok(Glob::Choice { raw, allowed: alts });
        }
        let ghost prev = s@.subrange(1, i as int);
        assert(s@.subrange(1, i + 1).drop_last() == prev);
        if c == ',' {
            alts.push(alt);
            alt = String::new();
            assert(strings_view(alts@).push(alt@) == split_alternatives(prev).push(seq![]));
        } else {
            alt.push(c);
            assert(strings_view(alts@).push(alt@) =~= split_alternatives(prev).update(
                split_alternatives(prev).len() - 1,
                split_alternatives(prev).last().push(c),
            ));
        }
        i = i + 1;
    }
    proof {
        lemma_first_index(s@, '}', 1, n as int);
        assert(s@.take(n as int) == s@);
    }
    Err(PatternError::UnclosedAlternation { raw: string_of(s, 0, n) })
}

/// Reads the character class `[...]` at the start of `s`.
fn scan_class(s: &Vec<char>) -> (r: Result<(usize, bool, Vec<char>), PatternError>)
    requires
        s@.len() > 0,
        s@[0] == '[',
    ensures
        match r {
            Ok((end, neg, alts)) => class_scan(s@, 1, false, seq![]) == Ok::<
                (int, bool, Seq<char>),
                PatternErrorView,
            >((end as int, neg, alts@)) && end <= s@.len(),
            Err(e) => class_scan(s@, 1, false, seq![]) == Err::<
                (int, bool, Seq<char>),
                PatternErrorView,
            >(e@),
        },
{
    let n = s.len();
    let mut i: usize = 1;
    let mut neg = false;
    let mut alts: Vec<char> = Vec::new();
    loop
        invariant
            1 <= i <= n == s@.len(),
            neg ==> i >= 2,
            i == 1 ==> !neg && alts@.len() == 0,
            ((!neg && i >= 2) || (neg && i >= 3)) ==> alts@.len() > 0,
            class_scan(s@, 1, false, seq![]) == class_scan(s@, i as int, neg, alts@),
        decreases n - i,
    {
        if i >= n {
            let raw = string_of(s, 0, i);
            if i == 2 && s[1] == ']' {
                return Err(PatternError::EmptyClass { raw });
            } else {
                return Err(PatternError::UnclosedClass { raw });
            }
        }
        let c = s[i];
        if c == '!' && i == 1 {
            neg = true;
            i = i + 1;
        } else if c == ']' && (i == 1 || (neg && i == 2)) {
            alts.push(c);
            i = i + 1;
        } else if c == '-' && ((!neg && i != 1) || (neg && i != 2)) {
            if i + 1 >= n {
                return Err(PatternError::RangeNotClosed { raw: string_of(s, 0, i + 1) });
            }
            let e = s[i + 1];
            if e == ']' {
                alts.push(c);
                i = i + 1;
                continue;
            }
            let start = alts.pop().unwrap();
            if char_le(e, start) {
                return Err(PatternError::InvalidRange { start, end: e, raw: string_of(s, 0, i + 2) });
            }
            push_range(&mut alts, start, e);
            proof {
                lemma_char_is_scalar(start);
                lemma_char_range_single(start);
                lemma_char_range_head(start as int, e as int);
            }
            i = i + 2;
        } else if c == ']' {
            return Ok((i + 1, neg, alts));
        } else {
            alts.push(c);
            i = i + 1;
        }
    }
}

proof fn lemma_char_range_single(c: char)
    ensures
        char_range(c as int, c as int) == seq![c],
{
    assert(char_range(c as int, c as int - 1) == Seq::<char>::empty());
    assert((c as int) as char == c);
    assert(char_range(c as int, c as int) =~= seq![c]);
}

proof fn lemma_char_range_head(lo: int, hi: int)
    requires
        lo <= hi,
        is_scalar(lo),
    ensures
        char_range(lo, hi).len() > 0,
        char_range(lo, hi)[0] == lo as char,
    decreases hi - lo,
{
    if lo < hi {
        lemma_char_range_head(lo, hi - 1);
    } else {
        assert(char_range(lo, lo - 1) == Seq::<char>::empty());
    }
}

/// Parses the glob construct at the start of `s`.
pub fn parse_pattern_chars(s: &Vec<char>) -> (r: Result<Glob, PatternError>)
    requires
        s@.len() > 0,
        is_glob_char(s@[0]),
    ensures
        glob_result_view(r) == pattern_spec(s@),
{
    let c = s[0];
    if c == '?' {
        let mut raw = String::new();
        raw.push('?');
        Ok(Glob::Any { raw, not: None })
    } else if c == '*' {
        if s.len() > 1 && s[1] == '*' {
            Ok(Glob::Recursive)
        } else {
            let mut raw = String::new();
            raw.push('*');
            Ok(Glob::Any { raw, not: None })
        }
    } else if c == '{' {
        scan_alternation(s)
    } else {
        match scan_class(s) {
            Err(e) => Err(e),
            Ok((end, neg, alts)) => {
                let raw = string_of(s, 0, end);
                assert(s@.subrange(0, end as int) == s@.take(end as int));
                if neg {
                    Ok(Glob::Any { raw, not: Some(alts) })
                } else {
                    let mut allowed: Vec<String> = Vec::new();
                    let mut k: usize = 0;
                    while k < alts.len()
                        invariant
                            0 <= k <= alts@.len(),
                            strings_view(allowed@) == singletons(alts@.take(k as int)),
                        decreases alts.len() - k,
                    {
                        let mut one = String::new();
                        one.push(alts[k]);
                        assert(one@ =~= seq![alts@[k as int]]);
                        let ghost prev = allowed@;
                        allowed.push(one);
                        assert(strings_view(allowed@) =~= strings_view(prev).push(seq![alts@[k as int]]));
                        assert(alts@.take(k + 1) =~= alts@.take(k as int).push(alts@[k as int]));
                        assert(singletons(alts@.take(k + 1)) =~= singletons(alts@.take(k as int)).push(seq![alts@[k as int]]));
                        k = k + 1;
                    }
                    assert(alts@.take(alts@.len() as int) == alts@);
                    Ok(Glob::Choice { raw, allowed })
                }
            },
        }
    }
}

/// Parses the glob construct at the start of `raw`, which opens with a glob
/// character.
pub fn parse_pattern(raw: &str) -> (r: Result<Glob, PatternError>)
    requires
        raw@.len() > 0,
        is_glob_char(raw@[0]),
    ensures
        glob_result_view(r) == pattern_spec(raw@),
{
    let s = chars_of(raw);
    parse_pattern_chars(&s)
}

/// The text a segment was parsed from.
pub open spec fn raw_spec(g: GlobView) -> Seq<char> {
    match g {
        GlobView::Any { raw, .. } => raw,
        GlobView::SyntheticAny => seq![],
        GlobView::Choice { raw, .. } => raw,
        GlobView::Recursive => seq!['*', '*'],
    }
}

/// A choice segment one of whose alternatives ends with `d`.
pub open spec fn ends_with_spec(g: GlobView, d: char) -> bool {
    match g {
        GlobView::Choice { allowed, .. } => exists|i: int|
            0 <= i < allowed.len() && (#[trigger] allowed[i]).len() > 0 && allowed[i].last() == d,
        _ => false,
    }
}

/// A segment's name for logs: its kind and its text.
pub open spec fn display_spec(g: GlobView) -> Seq<char> {
    match g {
        GlobView::Any { raw, .. } => "Any("@ + raw + ")"@,
        GlobView::SyntheticAny => "SyntheticAny"@,
        GlobView::Choice { raw, .. } => "Choice("@ + raw + ")"@,
        GlobView::Recursive => "Recursive(**)"@,
    }
}

/// `[^d]*`: any run of characters without the delimiter.
pub open spec fn any_run(d: char) -> Seq<char> {
    seq!['[', '^', d, ']', '*']
}

/// The escaped alternatives joined by `|`.
pub open spec fn alternation_body(a: Seq<Seq<char>>) -> Seq<char>
    decreases a.len(),
{
    if a.len() == 0 {
        seq![]
    } else if a.len() == 1 {
        escaped(a[0])
    } else {
        alternation_body(a.drop_last()) + seq!['|'] + escaped(a.last())
    }
}

/// The regex fragment of a segment, for delimiter `d`.
pub open spec fn fragment(g: GlobView, d: char) -> Seq<char> {
    match g {
        GlobView::Any { raw, not } => match not {
            Some(ex) => seq!['[', '^'] + ex + seq![']'],
            None => if raw == seq!['?'] {
                seq!['.']
            } else {
                any_run(d)
            },
        },
        GlobView::SyntheticAny => any_run(d),
        GlobView::Choice { allowed, .. } => if allowed.len() == 0 {
            seq![]
        } else if allowed.len() == 1 {
            escaped(allowed[0])
        } else {
            seq!['('] + alternation_body(allowed) + seq![')']
        },
        GlobView::Recursive => seq!['.', '*'],
    }
}

/// Each choice of `a` joined with each choice of `b`, the choices of `a`
/// varying slowest.
pub open spec fn cross(a: Seq<Seq<char>>, b: Seq<Seq<char>>, d: char) -> Seq<Seq<char>>
    decreases a.len(),
{
    if a.len() == 0 {
        seq![]
    } else {
        cross(a.drop_last(), b, d) + b.map_values(|y: Seq<char>| join_spec(a.last(), y, d))
    }
}

/// Two adjacent choice segments merged into one.
pub open spec fn combine(g: GlobView, h: GlobView, d: char) -> GlobView {
    match (g, h) {
        (GlobView::Choice { raw: r1, allowed: a1 }, GlobView::Choice { raw: r2, allowed: a2 }) => {
            GlobView::Choice { raw: r1 + r2, allowed: cross(a1, a2, d) }
        },
        _ => g,
    }
}

proof fn lemma_ends_with_witness(raw: Seq<char>, a: Seq<Seq<char>>, d: char, i: int)
    requires
        0 <= i < a.len(),
        a[i].len() > 0,
        a[i].last() == d,
    ensures
        ends_with_spec(GlobView::Choice { raw, allowed: a }, d),
{
    let g = GlobView::Choice { raw, allowed: a };
    match g {
        GlobView::Choice { allowed, .. } => {
            assert(allowed[i].len() > 0);
        },
        _ => {},
    }
}

/// Each string of `a` joined with each string of `b`.
pub fn cross_join(a: &Vec<String>, b: &Vec<String>, d: char) -> (r: Vec<String>)
    ensures
        strings_view(r@) == cross(strings_view(a@), strings_view(b@), d),
{
    let mut out: Vec<String> = Vec::new();
    let mut i: usize = 0;
    while i < a.len()
        invariant
            0 <= i <= a@.len(),
            strings_view(out@) == cross(strings_view(a@.take(i as int)), strings_view(b@), d),
        decreases a.len() - i,
    {
        let ghost before = out@;
        let mut j: usize = 0;
        while j < b.len()
            invariant
                0 <= i < a@.len(),
                0 <= j <= b@.len(),
                strings_view(out@) == strings_view(before) + strings_view(b@.take(j as int)).map_values(
                    |y: Seq<char>| join_spec(a@[i as int]@, y, d),
                ),
            decreases b.len() - j,
        {
            let joined = prefix_join(a[i].as_str(), b[j].as_str(), d);
            let ghost mid = out@;
            out.push(joined);
            assert(strings_view(out@) =~= strings_view(mid).push(joined@));
            assert(strings_view(b@.take(j + 1)) =~= strings_view(b@.take(j as int)).push(b@[j as int]@));
            j = j + 1;
            assert(strings_view(out@) =~= strings_view(before) + strings_view(b@.take(j as int)).map_values(
                |y: Seq<char>| join_spec(a@[i as int]@, y, d),
            ));
        }
        assert(b@.take(b@.len() as int) == b@);
        assert(strings_view(a@.take(i + 1)).drop_last() =~= strings_view(a@.take(i as int)));
        assert(strings_view(a@.take(i + 1)).last() == a@[i as int]@);
        i = i + 1;
    }
    assert(a@.take(a@.len() as int) == a@);
    out
}

impl Glob {
    /// The segment's kind and text, for logs.
    pub fn display(&self) -> (r: String)
        ensures
            r@ == display_spec(self@),
    {
        let mut r = String::new();
        match self {
            Glob::Any { raw, .. } => {
                r.push_str("Any(");
                r.push_str(raw.as_str());
                r.push_str(")");
            },
            Glob::SyntheticAny => r.push_str("SyntheticAny"),
            Glob::Choice { raw, .. } => {
                r.push_str("Choice(");
                r.push_str(raw.as_str());
                r.push_str(")");
            },
            Glob::Recursive => r.push_str("Recursive(**)"),
        }
        r
    }

    /// The text the segment was parsed from.
    pub fn raw(&self) -> (r: String)
        ensures
            r@ == raw_spec(self@),
    {
        match self {
            Glob::Any { raw, .. } => copy_str(raw.as_str()),
            Glob::SyntheticAny => String::new(),
            Glob::Choice { raw, .. } => copy_str(raw.as_str()),
            Glob::Recursive => {
                let mut r = String::new();
                r.push('*');
                r.push('*');
                r
            },
        }
    }

    /// The number of characters of the pattern that the segment covers.
    pub fn pattern_len(&self) -> (r: usize)
        ensures
            r == raw_spec(self@).len(),
    {
        match self {
            Glob::Any { raw, .. } => chars_of(raw.as_str()).len(),
            Glob::SyntheticAny => 0,
            Glob::Choice { raw, .. } => chars_of(raw.as_str()).len(),
            Glob::Recursive => 2,
        }
    }

    /// A literal, alternation or class: it extends prefixes without a listing.
    pub fn is_choice(&self) -> (r: bool)
        ensures
            r == (self@ is Choice),
    {
        matches!(self, Glob::Choice { .. })
    }

    /// A `*`, `?` or negated class.
    pub fn is_any(&self) -> (r: bool)
        ensures
            r == (self@ is Any),
    {
        matches!(self, Glob::Any { .. })
    }

    /// A negated class `[!...]`.
    pub fn is_negated(&self) -> (r: bool)
        ensures
            r == (self@ matches GlobView::Any { not: Some(_), .. }),
    {
        matches!(self, Glob::Any { not: Some(_), .. })
    }

    /// `**`.
    pub fn is_recursive(&self) -> (r: bool)
        ensures
            r == (self@ is Recursive),
    {
        matches!(self, Glob::Recursive)
    }

    /// A choice segment one of whose alternatives ends with the delimiter.
    pub fn ends_with(&self, delimiter: char) -> (r: bool)
        ensures
            r == ends_with_spec(self@, delimiter),
    {
        match self {
            Glob::Choice { raw, allowed } => {
                let mut i: usize = 0;
                while i < allowed.len()
                    invariant
                        0 <= i <= allowed@.len(),
                        self@ == (GlobView::Choice { raw: raw@, allowed: strings_view(allowed@) }),
                        forall|k: int|
                            0 <= k < i ==> !(allowed@[k]@.len() > 0 && allowed@[k]@.last()
                                == delimiter),
                    decreases allowed.len() - i,
                {
                    let cs = chars_of(allowed[i].as_str());
                    if cs.len() > 0 && cs[cs.len() - 1] == delimiter {
                        let ghost sv = strings_view(allowed@);
                        assert(sv[i as int] == allowed@[i as int]@);
                        assert(cs@ == allowed@[i as int]@);
                        assert(sv[i as int].len() > 0 && sv[i as int].last() == delimiter);
                        proof {
                            lemma_ends_with_witness(raw@, sv, delimiter, i as int);
                        }
                        return true;
                    }
                    i = i + 1;
                }
                proof {
                    assert forall|k: int| 0 <= k < allowed@.len() implies !(strings_view(
                        allowed@,
                    )[k].len() > 0 && strings_view(allowed@)[k].last() == delimiter) by {
                        assert(strings_view(allowed@)[k] == allowed@[k]@);
                    }
                }
                false
            },
            _ => false,
        }
    }

    /// The regex fragment that matches what this segment stands for.
    pub fn re_string(&self, delimiter: char) -> (r: String)
        ensures
            r@ == fragment(self@, delimiter),
    {
        let mut r = String::new();
        match self {
            Glob::Any { raw, not } => match not {
                Some(ex) => {
                    r.push('[');
                    r.push('^');
                    push_chars(&mut r, ex, 0, ex.len());
                    r.push(']');
                    assert(ex@.subrange(0, ex@.len() as int) == ex@);
                    assert(r@ =~= seq!['[', '^'] + ex@ + seq![']']);
                },
                None => {
                    let cs = chars_of(raw.as_str());
                    if cs.len() == 1 && cs[0] == '?' {
                        assert(raw@ =~= seq!['?']);
                        r.push('.');
                    } else {
                        push_any_run(&mut r, delimiter);
                    }
                    assert(r@ =~= fragment(self@, delimiter));
                },
            },
            Glob::SyntheticAny => {
                push_any_run(&mut r, delimiter);
                assert(r@ =~= any_run(delimiter));
            },
            Glob::Choice { allowed, .. } => {
                if allowed.len() == 1 {
                    r = regex_escape(allowed[0].as_str());
                } else if allowed.len() > 1 {
                    r.push('(');
                    let mut i: usize = 0;
                    while i < allowed.len()
                        invariant
                            0 <= i <= allowed@.len(),
                            allowed@.len() > 1,
                            r@ == seq!['('] + alternation_body(strings_view(allowed@.take(i as int))),
                        decreases allowed.len() - i,
                    {
                        if i > 0 {
                            r.push('|');
                        }
                        let e = regex_escape(allowed[i].as_str());
                        r.push_str(e.as_str());
                        proof {
                            let t = strings_view(allowed@.take(i + 1));
                            assert(t.drop_last() =~= strings_view(allowed@.take(i as int)));
                            assert(t.last() == allowed@[i as int]@);
                            if i == 0 {
                                assert(alternation_body(strings_view(allowed@.take(0))) == Seq::<char>::empty());
                                assert(t.len() == 1);
                            }
                        }
                        i = i + 1;
                    }
                    r.push(')');
                    assert(allowed@.take(allowed@.len() as int) == allowed@);
                } else {
                    assert(r@ =~= fragment(self@, delimiter));
                }
            },
            Glob::Recursive => {
                r.push('.');
                r.push('*');
                assert(r@ =~= seq!['.', '*']);
            },
        }
        r
    }

    /// Merges the choice segment `other` into this one by cross product.
    pub fn combine_with(&mut self, other: &Glob, delimiter: char)
        requires
            old(self)@ is Choice,
            other@ is Choice,
        ensures
            final(self)@ == combine(old(self)@, other@, delimiter),
    {
        let merged = match (&*self, other) {
            (Glob::Choice { raw: r1, allowed: sa }, Glob::Choice { raw: r2, allowed: oa }) => {
                let mut raw = copy_str(r1.as_str());
                raw.push_str(r2.as_str());
                Glob::Choice { raw, allowed: cross_join(sa, oa, delimiter) }
            },
            _ => Glob::SyntheticAny,
        };
        *self = merged;
    }
}

fn push_any_run(r: &mut String, d: char)
    ensures
        final(r)@ == old(r)@ + any_run(d),
{
    r.push('[');
    r.push('^');
    r.push(d);
    r.push(']');
    r.push('*');
    assert(final(r)@ =~= old(r)@ + any_run(d));
}

proof fn lemma_class_scan_bounds(s: Seq<char>, i: int, neg: bool, alts: Seq<char>)
    requires
        1 <= i,
    ensures
        class_scan(s, i, neg, alts) matches Ok((end, _, _)) ==> i < end <= s.len(),
    decreases s.len() - i,
{
    if i < s.len() {
        let c = s[i];
        if c == '!' && i == 1 {
            lemma_class_scan_bounds(s, i + 1, true, alts);
        } else if c == ']' && (i == 1 || (neg && i == 2)) {
            lemma_class_scan_bounds(s, i + 1, neg, alts.push(c));
        } else if c == '-' && ((!neg && i != 1) || (neg && i != 2)) {
            if i + 1 < s.len() && s[i + 1] == ']' {
                lemma_class_scan_bounds(s, i + 1, neg, alts.push(c));
            } else if i + 1 < s.len() && !((s[i + 1] as int) <= (alts.last() as int)) {
                lemma_class_scan_bounds(
                    s,
                    i + 2,
                    neg,
                    alts.drop_last() + char_range(alts.last() as int, s[i + 1] as int),
                );
            }
        } else if c != ']' {
            lemma_class_scan_bounds(s, i + 1, neg, alts.push(c));
        }
    }
}

/// A parsed construct covers a non-empty start of the text, and its raw text
/// is exactly that start.
pub proof fn lemma_pattern_covers(s: Seq<char>)
    requires
        s.len() > 0,
        is_glob_char(s[0]),
    ensures
        pattern_spec(s) matches Ok(g) ==> ({
            let n = raw_spec(g).len();
            1 <= n <= s.len() && raw_spec(g) == s.take(n as int)
        }),
{
    if s[0] == '{' {
        if let Some(j) = first_index_of(s, '}', 1) {
            lemma_first_index_bounds(s, '}', 1);
        }
    } else if s[0] == '[' {
        lemma_class_scan_bounds(s, 1, false, seq![]);
    } else if s[0] == '*' && s.len() > 1 && s[1] == '*' {
        assert(s.take(2) =~= seq!['*', '*']);
    } else {
        assert(s.take(1) =~= seq![s[0]]);
    }
}

/// Where `first_index_of` finds something, it lies in range and holds `c`.
pub proof fn lemma_first_index_bounds(s: Seq<char>, c: char, from: int)
    ensures
        first_index_of(s, c, from) matches Some(j) ==> from <= j < s.len() && s[j] == c,
    decreases s.len() - from,
{
    if 0 <= from < s.len() && s[from] != c {
        lemma_first_index_bounds(s, c, from + 1);
    }
}

/// A range class `[lo-hi]` stands for every scalar value from `lo` to `hi`,
/// in increasing order, as one-character choices; any choice segment that
/// lists the same characters in the same order (such as an alternation
/// `{a,b,c}` for `[a-c]`) compiles to the same regex fragment.
pub proof fn lemma_range_expansion(lo: char, hi: char, rest: Seq<char>, other: GlobView, d: char)
    requires
        (lo as int) < (hi as int),
        lo != '!' && lo != ']' && lo != '-',
        hi != ']',
        other matches GlobView::Choice { allowed, .. } && allowed == singletons(
            char_range(lo as int, hi as int),
        ),
    ensures
        ({
            let s = seq!['[', lo, '-', hi, ']'] + rest;
            &&& pattern_spec(s) == Ok::<GlobView, PatternErrorView>(
                GlobView::Choice {
                    raw: s.take(5),
                    allowed: singletons(char_range(lo as int, hi as int)),
                },
            )
            &&& fragment(pattern_spec(s)->Ok_0, d) == fragment(other, d)
        }),
{
    let s = seq!['[', lo, '-', hi, ']'] + rest;
    assert(s[1] == lo && s[2] == '-' && s[3] == hi && s[4] == ']');
    let r = char_range(lo as int, hi as int);
    assert(seq![lo].drop_last() + r =~= r);
    assert(seq![lo].last() == lo);
    assert(Seq::<char>::empty().push(lo) =~= seq![lo]);
    assert(class_scan(s, 4, false, r) == Ok::<(int, bool, Seq<char>), PatternErrorView>((5, false, r)));
    assert(class_scan(s, 2, false, seq![lo]) == class_scan(s, 4, false, r));
    assert(class_scan(s, 1, false, seq![]) == class_scan(s, 2, false, seq![lo]));
}

/// The text of an error, for people.
pub open spec fn message_spec(e: PatternErrorView) -> Seq<char> {
    match e {
        PatternErrorView::UnclosedAlternation { raw } => "Alternation has no closing brace (missing '}'): "@
            + raw,
        PatternErrorView::UnclosedClass { raw } => "Alternation has no closing bracket (missing ']'): "@
            + raw,
        PatternErrorView::EmptyClass { raw } => "Empty character class: "@ + raw,
        PatternErrorView::RangeNotClosed { raw } => "Range is not closed: "@ + raw,
        PatternErrorView::InvalidRange { start, end, raw } => "Range is invalid (end <= start): "@
            + seq![start] + "-"@ + seq![end] + " in "@ + raw,
        PatternErrorView::InvalidRegex { regex } => "Pattern does not compile to a regular expression: "@
            + regex,
    }
}

impl PatternError {
    /// The text of the error, for people.
    pub fn message(&self) -> (r: String)
        ensures
            r@ == message_spec(self@),
    {
        let mut r = String::new();
        match self {
            PatternError::UnclosedAlternation { raw } => {
                r.push_str("Alternation has no closing brace (missing '}'): ");
                r.push_str(raw.as_str());
            },
            PatternError::UnclosedClass { raw } => {
                r.push_str("Alternation has no closing bracket (missing ']'): ");
                r.push_str(raw.as_str());
            },
            PatternError::EmptyClass { raw } => {
                r.push_str("Empty character class: ");
                r.push_str(raw.as_str());
            },
            PatternError::RangeNotClosed { raw } => {
                r.push_str("Range is not closed: ");
                r.push_str(raw.as_str());
            },
            PatternError::InvalidRange { start, end, raw } => {
                r.push_str("Range is invalid (end <= start): ");
                r.push(*start);
                r.push_str("-");
                r.push(*end);
                r.push_str(" in ");
                r.push_str(raw.as_str());
                assert(r@ =~= message_spec(self@));
            },
            PatternError::InvalidRegex { regex } => {
                r.push_str("Pattern does not compile to a regular expression: ");
                r.push_str(regex.as_str());
            },
        }
        r
    }
}



} // verus!
