//! The prefix planner: from the segments of a pattern to the smallest useful
//! set of key prefixes to enumerate, using listings and existence checks.

use vstd::prelude::*;
use crate::compiled::{compile_regex, escaped, regex_compiles, regex_escape, regex_matches, CompiledRegex};
use crate::engine::{
    check_exact, has_key_with_prefix, listing_entry, lists_object, lists_prefix, object_keys, scan_exact, Engine, ScanResult,
    StoreError,
};
use crate::glob::{first_index_of, fragment, strings_view, Glob, GlobView};
use crate::matcher::{globs_view, S3GlobMatcher};
use crate::text::{
    chars_of, copy_str, ins, insert_sorted, join_spec, lemma_sort_unique, lemma_sorted_unique_eq, prefix_join, sort_unique,
    sort_unique_spec, sorted_strict, starts_with,
    string_of,
};

verus! {

broadcast use vstd::seq_lib::lemma_seq_contains_after_push;

/// Each prefix is empty or begins some key of the store.
pub open spec fn prefixes_sound(keys: Set<Seq<char>>, ps: Seq<Seq<char>>) -> bool {
    forall|i: int| 0 <= i < ps.len() ==> ps[i] == Seq::<char>::empty() || has_key_with_prefix(keys, #[trigger] ps[i])
}

/// What one listing adds to the working set: its common prefixes and object
/// keys together, in code-point order without repeats.
pub open spec fn listing_set(r: ScanResult) -> Seq<Seq<char>> {
    sort_unique_spec(strings_view(r.prefixes@) + object_keys(r.objects@))
}

/// `listing_set` of each listing, in order.
pub open spec fn listed_sets(results: Seq<ScanResult>) -> Seq<Seq<char>>
    decreases results.len(),
{
    if results.len() == 0 {
        seq![]
    } else {
        listed_sets(results.drop_last()) + listing_set(results.last())
    }
}

/// Whether a filter compiled from `source` keeps `text`: an expression the
/// engine refuses keeps everything, since pruning only saves work.
pub open spec fn admits(source: Seq<char>, text: Seq<char>) -> bool {
    regex_compiles(source) ==> regex_matches(source, text)
}

/// Every element of `out` is an element of `src`.
pub open spec fn drawn_from(out: Seq<Seq<char>>, src: Seq<Seq<char>>) -> bool {
    forall|i: int| 0 <= i < out.len() ==> src.contains(#[trigger] out[i])
}

/// The common prefixes and object keys of listings, in order, listing by
/// listing.
pub open spec fn listed(results: Seq<ScanResult>) -> Seq<Seq<char>>
    decreases results.len(),
{
    if results.len() == 0 {
        seq![]
    } else {
        listed(results.drop_last()) + strings_view(results.last().prefixes@) + object_keys(
            results.last().objects@,
        )
    }
}

proof fn lemma_drawn_sound(keys: Set<Seq<char>>, out: Seq<Seq<char>>, src: Seq<Seq<char>>)
    requires
        drawn_from(out, src),
        prefixes_sound(keys, src),
    ensures
        prefixes_sound(keys, out),
{
    assert forall|i: int| 0 <= i < out.len() implies out[i] == Seq::<char>::empty()
        || has_key_with_prefix(keys, #[trigger] out[i]) by {
        assert(src.contains(out[i]));
        let j = choose|j: int| 0 <= j < src.len() && src[j] == out[i];
        assert(src[j] == Seq::<char>::empty() || has_key_with_prefix(keys, src[j]));
    }
}

proof fn lemma_drawn_trans(a: Seq<Seq<char>>, b: Seq<Seq<char>>, c: Seq<Seq<char>>)
    requires
        drawn_from(a, b),
        drawn_from(b, c),
    ensures
        drawn_from(a, c),
{
    assert forall|i: int| 0 <= i < a.len() implies c.contains(#[trigger] a[i]) by {
        assert(b.contains(a[i]));
        let j = choose|j: int| 0 <= j < b.len() && b[j] == a[i];
        assert(c.contains(b[j]));
    }
}

proof fn lemma_sound_concat(keys: Set<Seq<char>>, a: Seq<Seq<char>>, b: Seq<Seq<char>>)
    requires
        prefixes_sound(keys, a),
        prefixes_sound(keys, b),
    ensures
        prefixes_sound(keys, a + b),
{
    assert forall|i: int| 0 <= i < (a + b).len() implies (a + b)[i] == Seq::<char>::empty()
        || has_key_with_prefix(keys, #[trigger] (a + b)[i]) by {
        if i < a.len() {
            assert((a + b)[i] == a[i]);
        } else {
            assert((a + b)[i] == b[i - a.len()]);
        }
    }
}

/// Whether `text` matches `re`; an expression the engine refuses keeps
/// everything, since pruning only saves work.
fn keeps(re: &Result<CompiledRegex, regex::Error>, text: &str) -> (r: bool)
    ensures
        re matches Ok(c) ==> r == regex_matches(c@, text@),
        re is Err ==> r,
{
    match re {
        Ok(r) => r.is_match(text),
        Err(_) => true,
    }
}

/// `a` followed by `b`.
fn concat(a: &str, b: &str) -> (r: String)
    ensures
        r@ == a@ + b@,
{
    let mut r = copy_str(a);
    r.push_str(b);
    r
}

/// Whether the filter compiled from `source` keeps `text`.
fn admitted(re: &Result<CompiledRegex, regex::Error>, text: &str, Ghost(source): Ghost<Seq<char>>) -> (r: bool)
    requires
        re is Ok <==> regex_compiles(source),
        re matches Ok(c) ==> c@ == source,
    ensures
        r == admits(source, text@),
{
    keeps(re, text)
}

/// Keeps the prefixes that `re` matches.
fn retain_matching(
    prefixes: Vec<String>,
    re: &Result<CompiledRegex, regex::Error>,
    Ghost(source): Ghost<Seq<char>>,
) -> (r: Vec<String>)
    requires
        re is Ok <==> regex_compiles(source),
        re matches Ok(c) ==> c@ == source,
    ensures
        drawn_from(strings_view(r@), strings_view(prefixes@)),
        strings_view(r@) == strings_view(prefixes@).filter(|p: Seq<char>| admits(source, p)),
{
    let ghost sv = strings_view(prefixes@);
    let ghost pred = |p: Seq<char>| admits(source, p);
    let mut out: Vec<String> = Vec::new();
    let mut i: usize = 0;
    while i < prefixes.len()
        invariant
            0 <= i <= prefixes@.len(),
            sv == strings_view(prefixes@),
            pred == (|p: Seq<char>| admits(source, p)),
            re is Ok <==> regex_compiles(source),
            re matches Ok(c) ==> c@ == source,
            drawn_from(strings_view(out@), sv),
            strings_view(out@) == sv.take(i as int).filter(pred),
        decreases prefixes.len() - i,
    {
        let k = keeps(re, prefixes[i].as_str());
        assert(pred(sv[i as int]) == k);
        let ghost before = strings_view(out@);
        if k {
            out.push(copy_str(prefixes[i].as_str()));
            assert(strings_view(out@) =~= before.push(sv[i as int]));
            assert(sv.contains(sv[i as int]));
        }
        proof {
            sv.take(i as int).lemma_filter_push(sv[i as int], pred);
            assert(sv.take(i as int).push(sv[i as int]) =~= sv.take(i + 1));
        }
        i = i + 1;
    }
    assert(sv.take(i as int) =~= sv);
    out
}

/// A segment that stands for characters without naming them: `*`, `?`, a
/// negated class, or the trailing synthetic `*`.
pub open spec fn wildcard(g: GlobView) -> bool {
    g is Any || g is SyntheticAny
}

/// Segment `i` is the last one and a plain `*` or `?` (or the synthetic
/// `*`): planning ends there without a listing or a filter.
pub open spec fn lone_wildcard(parts: Seq<GlobView>, i: int) -> bool {
    0 <= i && i + 1 == parts.len() && (parts[i] matches GlobView::Any { not: None, .. } || parts[i] is SyntheticAny)
}

/// The pattern opens with a choice segment, and planning stops right after
/// it: at the end of the pattern or at `**`.
pub open spec fn head_choice(parts: Seq<GlobView>) -> bool {
    parts.len() >= 1 && parts[0] is Choice && (parts.len() == 1 || parts[1] is Recursive)
}

/// A choice up to and including its first delimiter, or all of it.
pub open spec fn up_to_delim(c: Seq<char>, d: char) -> Seq<char> {
    match first_index_of(c, d, 0) {
        Some(k) => c.take(k + 1),
        None => c,
    }
}

/// What follows the first delimiter of a choice, or nothing.
pub open spec fn after_delim(c: Seq<char>, d: char) -> Seq<char> {
    match first_index_of(c, d, 0) {
        Some(k) => c.skip(k + 1),
        None => seq![],
    }
}

/// The filters of a choice segment: each choice up to its first delimiter,
/// escaped, in code-point order without repeats.
pub open spec fn filters_of(a: Seq<Seq<char>>, d: char) -> Seq<Seq<char>>
    decreases a.len(),
{
    if a.len() == 0 {
        seq![]
    } else {
        ins(filters_of(a.drop_last(), d), escaped(up_to_delim(a.last(), d)), 0)
    }
}

/// The appends of a choice segment: what follows the first delimiter of
/// each choice, where anything does, in code-point order without repeats.
pub open spec fn appends_of(a: Seq<Seq<char>>, d: char) -> Seq<Seq<char>>
    decreases a.len(),
{
    if a.len() == 0 {
        seq![]
    } else {
        let r = appends_of(a.drop_last(), d);
        let x = after_delim(a.last(), d);
        if x.len() > 0 {
            ins(r, x, 0)
        } else {
            r
        }
    }
}

/// The texts joined by `|`.
pub open spec fn bar_join(fs: Seq<Seq<char>>) -> Seq<char>
    decreases fs.len(),
{
    if fs.len() == 0 {
        seq![]
    } else if fs.len() == 1 {
        fs[0]
    } else {
        bar_join(fs.drop_last()) + seq!['|'] + fs.last()
    }
}

/// What one prefix becomes: dropped unless the filter keeps it; then
/// extended by each append, unless there are none or the segment already
/// matches it.
pub open spec fn extend_one(p: Seq<char>, fsrc: Seq<char>, asrc: Seq<char>, apps: Seq<Seq<char>>, d: char) -> Seq<
    Seq<char>,
> {
    if admits(fsrc, p) {
        if apps.len() > 0 && !admits(asrc, p) {
            joined_each(p, apps, d)
        } else {
            seq![p]
        }
    } else {
        seq![]
    }
}

/// `extend_one` over each prefix, in order.
pub open spec fn extend_all(ps: Seq<Seq<char>>, fsrc: Seq<char>, asrc: Seq<char>, apps: Seq<Seq<char>>, d: char) -> Seq<
    Seq<char>,
>
    decreases ps.len(),
{
    if ps.len() == 0 {
        seq![]
    } else {
        extend_all(ps.drop_last(), fsrc, asrc, apps, d) + extend_one(ps.last(), fsrc, asrc, apps, d)
    }
}

/// A choice segment met with several prefixes, or after a listing: the
/// prefixes that `regex_so_far` followed by one of the filters matches,
/// extended by the appends; and whether they must be checked (when there are
/// appends).
pub open spec fn choice_filtered(
    ps: Seq<Seq<char>>,
    allowed: Seq<Seq<char>>,
    regex_so_far: Seq<char>,
    frag: Seq<char>,
    d: char,
) -> (Seq<Seq<char>>, bool) {
    let fs = filters_of(allowed, d);
    let apps = appends_of(allowed, d);
    if fs.len() == 0 {
        (seq![], false)
    } else {
        (
            extend_all(ps, regex_so_far + seq!['('] + bar_join(fs) + seq![')'], regex_so_far + frag, apps, d),
            apps.len() > 0,
        )
    }
}

/// What a choice segment `part` asks to check, met with prefixes `ps`: each
/// choice joined to the single prefix when it was built from choices,
/// otherwise the filtered and extended prefixes.
pub open spec fn choice_candidates(ps: Seq<Seq<char>>, prev_any: bool, regex_so_far: Seq<char>, part: GlobView, d: char) -> (
    Seq<Seq<char>>,
    bool,
) {
    match part {
        GlobView::Choice { allowed, .. } => if ps.len() == 1 && !prev_any {
            (joined_each(ps[0], allowed, d), true)
        } else {
            choice_filtered(ps, allowed, regex_so_far, fragment(part, d), d)
        },
        _ => (seq![], false),
    }
}

/// `p` joined with each of `a`.
pub open spec fn joined_each(p: Seq<char>, a: Seq<Seq<char>>, d: char) -> Seq<Seq<char>> {
    a.map_values(|x: Seq<char>| join_spec(p, x, d))
}

/// Where planning stands: the next segment to handle, the prefixes so far,
/// and the expression of the segments handled.
pub struct PlanState {
    pub(crate) next: usize,
    pub(crate) prefixes: Vec<String>,
    pub(crate) regex_so_far: String,
    pub(crate) prev_any: bool,
    pub(crate) max_prefixes: usize,
    pub(crate) max_objects: usize,
}

impl PlanState {
    pub closed spec fn next_view(&self) -> nat {
        self.next as nat
    }

    /// The expression of the segments handled so far, anchored at the start.
    pub closed spec fn regex_view(&self) -> Seq<char> {
        self.regex_so_far@
    }

    pub closed spec fn prev_any_view(&self) -> bool {
        self.prev_any
    }

    pub closed spec fn max_prefixes_view(&self) -> nat {
        self.max_prefixes as nat
    }

    pub closed spec fn max_objects_view(&self) -> nat {
        self.max_objects as nat
    }

    /// The most prefixes held at once after any handled segment.
    pub fn max_prefixes_observed(&self) -> (r: usize)
        ensures
            r == self.max_prefixes_view(),
    {
        self.max_prefixes
    }

    /// The most objects returned by the listings of one segment.
    pub fn max_objects_observed(&self) -> (r: usize)
        ensures
            r == self.max_objects_view(),
    {
        self.max_objects
    }

    pub closed spec fn prefixes_view(&self) -> Seq<Seq<char>> {
        strings_view(self.prefixes@)
    }
}

/// What planning needs next.
#[derive(Debug)]
pub enum PlanRequest {
    /// A delimited listing under each of these prefixes, answered in order
    /// with `plan_scanned`.
    Scan(Vec<String>),
    /// An existence check of these prefixes, answered with `plan_checked`.
    Check(Vec<String>),
    /// Planning is over: these are the prefixes to enumerate.
    Done(Vec<String>),
    /// A segment was handled without the store; ask again.
    Next,
}

/// The mathematical form of a [`PlanRequest`].
pub enum RequestView {
    Scan(Seq<Seq<char>>),
    Check(Seq<Seq<char>>),
    Done(Seq<Seq<char>>),
    Next,
}

pub open spec fn request_view(r: PlanRequest) -> RequestView {
    match r {
        PlanRequest::Scan(ps) => RequestView::Scan(strings_view(ps@)),
        PlanRequest::Check(ps) => RequestView::Check(strings_view(ps@)),
        PlanRequest::Done(ps) => RequestView::Done(strings_view(ps@)),
        PlanRequest::Next => RequestView::Next,
    }
}

/// What planning asks for at segment `next`, with prefixes `ps`, the
/// expression `regex` of the segments before, and `prev_any` telling whether
/// the segment before was a wildcard.
pub open spec fn request_of(
    parts: Seq<GlobView>,
    d: char,
    next: int,
    ps: Seq<Seq<char>>,
    regex: Seq<char>,
    prev_any: bool,
) -> RequestView {
    if next < 0 || next >= parts.len() || parts[next] is Recursive {
        RequestView::Done(ps)
    } else if parts[next] is Choice {
        let (c, needs_check) = choice_candidates(ps, prev_any, regex, parts[next], d);
        if needs_check {
            RequestView::Check(c)
        } else {
            RequestView::Next
        }
    } else if !prev_any && next + 1 < parts.len() {
        RequestView::Scan(ps)
    } else {
        RequestView::Next
    }
}

/// The listing of `keys` under `p`: its common prefixes and object keys in
/// code-point order without repeats.
pub open spec fn listing_under(keys: Set<Seq<char>>, p: Seq<char>, d: char) -> Seq<Seq<char>> {
    choose|l: Seq<Seq<char>>|
        sorted_strict(l) && forall|x: Seq<char>|
            #[trigger] l.contains(x) <==> (lists_prefix(keys, p, d, x) || lists_object(keys, p, d, x))
}

/// `listing_under` each of `ps`, in order.
pub open spec fn listings_of_all(keys: Set<Seq<char>>, ps: Seq<Seq<char>>, d: char) -> Seq<Seq<char>>
    decreases ps.len(),
{
    if ps.len() == 0 {
        seq![]
    } else {
        listings_of_all(keys, ps.drop_last(), d) + listing_under(keys, ps.last(), d)
    }
}

/// The plan from segment `next` on, against a store holding `keys`: the
/// prefixes planning ends with, and the listings it asks for on the way.
pub open spec fn plan_run(
    parts: Seq<GlobView>,
    d: char,
    keys: Set<Seq<char>>,
    next: int,
    ps: Seq<Seq<char>>,
    regex: Seq<char>,
    prev_any: bool,
) -> (Seq<Seq<char>>, Seq<(Seq<char>, Seq<char>)>)
    decreases parts.len() - next,
{
    if next < 0 || next >= parts.len() {
        (ps, seq![])
    } else {
        let regex2 = regex + fragment(parts[next], d);
        match request_of(parts, d, next, ps, regex, prev_any) {
            RequestView::Done(r) => (r, seq![]),
            RequestView::Next => plan_run(
                parts,
                d,
                keys,
                next + 1,
                after_local(parts, d, next, ps, regex, prev_any),
                regex2,
                wildcard(parts[next]),
            ),
            RequestView::Check(c) => plan_run(
                parts,
                d,
                keys,
                next + 1,
                c.filter(|p: Seq<char>| has_key_with_prefix(keys, p)),
                regex2,
                false,
            ),
            RequestView::Scan(q) => {
                let found = listings_of_all(keys, q, d);
                let kept = if parts[next] matches GlobView::Any { not: Some(_), .. } {
                    found.filter(|p: Seq<char>| admits(regex2, p))
                } else {
                    found
                };
                let rest = plan_run(parts, d, keys, next + 1, kept, regex2, true);
                (rest.0, q.map_values(|p: Seq<char>| (p, seq![d])) + rest.1)
            },
        }
    }
}

/// The whole plan of a pattern against a store holding `keys`.
pub open spec fn plan_of(parts: Seq<GlobView>, d: char, keys: Set<Seq<char>>) -> (
    Seq<Seq<char>>,
    Seq<(Seq<char>, Seq<char>)>,
) {
    plan_run(parts, d, keys, 0, seq![Seq::<char>::empty()], seq!['^'], false)
}

/// Each listing that answers a scan, ordered without repeats, is
/// `listing_under` its prefix.
proof fn lemma_listings_of_all(keys: Set<Seq<char>>, ps: Seq<Seq<char>>, d: char, rs: Seq<ScanResult>)
    requires
        rs.len() == ps.len(),
        forall|i: int|
            0 <= i < rs.len() ==> scan_exact(
                keys,
                #[trigger] ps[i],
                d,
                strings_view(rs[i].prefixes@),
                object_keys(rs[i].objects@),
            ),
    ensures
        listed_sets(rs) == listings_of_all(keys, ps, d),
    decreases rs.len(),
{
    if rs.len() > 0 {
        let n = rs.len() - 1;
        assert forall|i: int| 0 <= i < rs.drop_last().len() implies scan_exact(
            keys,
            #[trigger] ps.drop_last()[i],
            d,
            strings_view(rs.drop_last()[i].prefixes@),
            object_keys(rs.drop_last()[i].objects@),
        ) by {
            assert(ps.drop_last()[i] == ps[i]);
            assert(rs.drop_last()[i] == rs[i]);
        }
        lemma_listings_of_all(keys, ps.drop_last(), d, rs.drop_last());
        let raw = strings_view(rs[n].prefixes@) + object_keys(rs[n].objects@);
        assert(scan_exact(keys, ps[n], d, strings_view(rs[n].prefixes@), object_keys(rs[n].objects@)));
        lemma_sort_unique(raw);
        assert forall|x: Seq<char>| raw.contains(x) <==> (lists_prefix(keys, ps[n], d, x) || lists_object(keys, ps[n], d, x)) by {
            let a = strings_view(rs[n].prefixes@);
            let b = object_keys(rs[n].objects@);
            if raw.contains(x) {
                let i = choose|i: int| 0 <= i < raw.len() && raw[i] == x;
                if i < a.len() {
                    assert(a[i] == x);
                    assert(a.contains(x));
                } else {
                    assert(b[i - a.len()] == x);
                    assert(b.contains(x));
                }
            }
            if a.contains(x) {
                let i = choose|i: int| 0 <= i < a.len() && a[i] == x;
                assert(raw[i] == x);
            }
            if b.contains(x) {
                let i = choose|i: int| 0 <= i < b.len() && b[i] == x;
                assert(raw[a.len() + i] == x);
            }
        }
        let l = sort_unique_spec(raw);
        assert(sorted_strict(l) && forall|x: Seq<char>|
            #[trigger] l.contains(x) <==> (lists_prefix(keys, ps[n], d, x) || lists_object(keys, ps[n], d, x)));
        let c = listing_under(keys, ps[n], d);
        lemma_sorted_unique_eq(l, c);
        assert(ps.drop_last().push(ps[n]) =~= ps);
    }
}

/// The prefixes after segment `next` is handled without the store.
pub open spec fn after_local(
    parts: Seq<GlobView>,
    d: char,
    next: int,
    ps: Seq<Seq<char>>,
    regex: Seq<char>,
    prev_any: bool,
) -> Seq<Seq<char>> {
    if parts[next] is Choice {
        choice_candidates(ps, prev_any, regex, parts[next], d).0
    } else if parts[next] matches GlobView::Any { not: Some(_), .. } {
        ps.filter(|p: Seq<char>| admits(regex + fragment(parts[next], d), p))
    } else {
        ps
    }
}

/// A copy of each string.
fn copy_all(v: &Vec<String>) -> (r: Vec<String>)
    ensures
        strings_view(r@) == strings_view(v@),
{
    let mut out: Vec<String> = Vec::new();
    let mut i: usize = 0;
    while i < v.len()
        invariant
            0 <= i <= v@.len(),
            strings_view(out@) == strings_view(v@.take(i as int)),
        decreases v.len() - i,
    {
        out.push(copy_str(v[i].as_str()));
        assert(strings_view(v@.take(i + 1)) =~= strings_view(v@.take(i as int)).push(v@[i as int]@));
        assert(strings_view(out@) =~= strings_view(v@.take(i + 1)));
        i = i + 1;
    }
    assert(v@.take(v@.len() as int) == v@);
    out
}

/// The common prefixes and then the object keys of one listing.
fn listing_entries(r: &ScanResult) -> (out: Vec<String>)
    ensures
        strings_view(out@) == strings_view(r.prefixes@) + object_keys(r.objects@),
{
    let mut out: Vec<String> = Vec::new();
    let mut k: usize = 0;
    while k < r.prefixes.len()
        invariant
            0 <= k <= r.prefixes@.len(),
            strings_view(out@) == strings_view(r.prefixes@.take(k as int)),
        decreases r.prefixes.len() - k,
    {
        let ghost prev = strings_view(out@);
        out.push(copy_str(r.prefixes[k].as_str()));
        assert(strings_view(out@) =~= prev.push(r.prefixes@[k as int]@));
        assert(strings_view(r.prefixes@.take(k + 1)) =~= strings_view(r.prefixes@.take(k as int)).push(r.prefixes@[k as int]@));
        k = k + 1;
    }
    assert(r.prefixes@.take(r.prefixes@.len() as int) == r.prefixes@);
    let ghost mid = strings_view(out@);
    let mut k: usize = 0;
    while k < r.objects.len()
        invariant
            0 <= k <= r.objects@.len(),
            strings_view(out@) == mid + object_keys(r.objects@.take(k as int)),
        decreases r.objects.len() - k,
    {
        let ghost prev = strings_view(out@);
        out.push(copy_str(r.objects[k].key.as_str()));
        assert(strings_view(out@) =~= prev.push(r.objects@[k as int].key@));
        assert(object_keys(r.objects@.take(k + 1)) =~= object_keys(r.objects@.take(k as int)).push(r.objects@[k as int].key@));
        assert(strings_view(out@) =~= mid + object_keys(r.objects@.take(k + 1)));
        k = k + 1;
    }
    assert(r.objects@.take(r.objects@.len() as int) == r.objects@);
    assert(mid + object_keys(r.objects@) =~= strings_view(r.prefixes@) + object_keys(r.objects@));
    out
}

/// What listings add to the working set, listing by listing: the common
/// prefixes and object keys of each, in code-point order without repeats.
fn flatten_results(results: &Vec<ScanResult>) -> (r: Vec<String>)
    ensures
        strings_view(r@) == listed_sets(results@),
        drawn_from(strings_view(r@), listed(results@)),
{
    let mut out: Vec<String> = Vec::new();
    let mut i: usize = 0;
    while i < results.len()
        invariant
            0 <= i <= results@.len(),
            strings_view(out@) == listed_sets(results@.take(i as int)),
            drawn_from(strings_view(out@), listed(results@.take(i as int))),
        decreases results.len() - i,
    {
        let raw = listing_entries(&results[i]);
        let sorted = sort_unique(&raw);
        proof {
            lemma_sort_unique(strings_view(raw@));
        }
        let ghost base = strings_view(out@);
        let ghost whole = listed(results@.take(i + 1));
        assert(results@.take(i + 1).drop_last() =~= results@.take(i as int));
        assert(results@.take(i + 1).last() == results@[i as int]);
        assert(whole =~= listed(results@.take(i as int)) + strings_view(raw@));
        proof {
            let lt = listed(results@.take(i as int));
            assert forall|m: int| 0 <= m < base.len() implies whole.contains(#[trigger] base[m]) by {
                assert(lt.contains(base[m]));
                let j = choose|j: int| 0 <= j < lt.len() && lt[j] == base[m];
                assert(whole[j] == base[m]);
            }
        }
        let mut k: usize = 0;
        while k < sorted.len()
            invariant
                0 <= k <= sorted@.len(),
                strings_view(out@) == base + strings_view(sorted@).take(k as int),
                drawn_from(base, listed(results@.take(i as int))),
                whole == listed(results@.take(i as int)) + strings_view(raw@),
                forall|y: Seq<char>| #[trigger] strings_view(sorted@).contains(y) <==> strings_view(raw@).contains(y),
                drawn_from(strings_view(out@), whole),
            decreases sorted.len() - k,
        {
            let ghost prev = strings_view(out@);
            let ghost y = sorted@[k as int]@;
            out.push(copy_str(sorted[k].as_str()));
            assert(strings_view(out@) =~= prev.push(y));
            assert(strings_view(sorted@).take(k + 1) =~= strings_view(sorted@).take(k as int).push(y));
            proof {
                assert(strings_view(sorted@)[k as int] == y);
                assert(strings_view(sorted@).contains(y));
                let j = choose|j: int| 0 <= j < strings_view(raw@).len() && strings_view(raw@)[j] == y;
                assert(whole[listed(results@.take(i as int)).len() + j] == y);
                assert forall|m: int| 0 <= m < strings_view(out@).len() implies whole.contains(#[trigger] strings_view(out@)[m]) by {
                    if m < prev.len() {
                        assert(strings_view(out@)[m] == prev[m]);
                    } else {
                        assert(strings_view(out@)[m] == y);
                    }
                }
            }
            k = k + 1;
        }
        assert(strings_view(sorted@).take(sorted@.len() as int) == strings_view(sorted@));
        assert(listed_sets(results@.take(i + 1)) == listed_sets(results@.take(i as int)) + listing_set(results@[i as int]));
        i = i + 1;
    }
    assert(results@.take(results@.len() as int) == results@);
    out
}

impl S3GlobMatcher {
    /// Whether planning reaches the end of the pattern with nothing left to
    /// list: no `**`, and a last segment that is a choice.
    pub fn is_complete(&self) -> (r: bool)
        ensures
            r == ((forall|i: int|
                0 <= i < self.parts_view().len() ==> !(#[trigger] self.parts_view()[i] is Recursive))
                && (self.parts_view().len() == 0 || self.parts_view().last() is Choice)),
    {
        let parts = self.parts();
        let mut i: usize = 0;
        while i < parts.len()
            invariant
                0 <= i <= parts@.len(),
                globs_view(parts@) == self.parts_view(),
                forall|j: int| 0 <= j < i ==> !(#[trigger] self.parts_view()[j] is Recursive),
            decreases parts.len() - i,
        {
            if parts[i].is_recursive() {
                assert(self.parts_view()[i as int] is Recursive);
                return false;
            }
            i = i + 1;
        }
        parts.len() == 0 || parts[parts.len() - 1].is_choice()
    }

    /// Planning before any segment: the single empty prefix.
    pub fn plan_start(&self) -> (r: PlanState)
        ensures
            r.next_view() == 0,
            r.prefixes_view() == seq![Seq::<char>::empty()],
            r.max_prefixes_view() == 1,
            r.max_objects_view() == 0,
            !r.prev_any_view(),
            r.regex_view() == seq!['^'],
    {
        let mut prefixes: Vec<String> = Vec::new();
        prefixes.push(String::new());
        assert(strings_view(prefixes@) =~= seq![Seq::<char>::empty()]);
        let mut regex_so_far = String::new();
        regex_so_far.push('^');
        assert(regex_so_far@ =~= seq!['^']);
        PlanState { next: 0, prefixes, regex_so_far, prev_any: false, max_prefixes: 1, max_objects: 0 }
    }

    /// Records that segment `st.next` is handled.
    fn advance(&self, st: &mut PlanState)
        requires
            old(st).next < self.parts_view().len(),
        ensures
            final(st).next == old(st).next + 1,
            final(st).prefixes == old(st).prefixes,
            final(st).regex_so_far@ == old(st).regex_so_far@ + fragment(
                self.parts_view()[old(st).next as int],
                self.delimiter_view(),
            ),
            final(st).prev_any == !(self.parts_view()[old(st).next as int] is Choice),
            final(st).max_objects == old(st).max_objects,
            final(st).max_prefixes as int == if old(st).prefixes@.len() > old(st).max_prefixes {
                old(st).prefixes@.len() as int
            } else {
                old(st).max_prefixes as int
            },
    {
        if st.prefixes.len() > st.max_prefixes {
            st.max_prefixes = st.prefixes.len();
        }
        let parts = self.parts();
        let _n = parts.len();
        let part = &parts[st.next];
        assert(self.parts_view()[st.next as int] == part@);
        let fragment = part.re_string(self.delimiter());
        st.regex_so_far.push_str(fragment.as_str());
        st.prev_any = !part.is_choice();
        st.next = st.next + 1;
    }

    /// Handles the next segment. Planning is over at the end of the pattern
    /// or at `**`. A choice segment asks to check its candidates, or (when it
    /// adds nothing to check) narrows the prefixes itself. A wildcard after
    /// a choice asks for a listing unless it is the last segment; otherwise a
    /// negated class filters the prefixes and a plain wildcard keeps them.
    pub fn plan_next(&self, st: &mut PlanState) -> (r: PlanRequest)
        requires
            old(st).next_view() <= self.parts_view().len(),
        ensures
            request_view(r) == request_of(
                self.parts_view(),
                self.delimiter_view(),
                old(st).next_view() as int,
                old(st).prefixes_view(),
                old(st).regex_view(),
                old(st).prev_any_view(),
            ),
            r is Next ==> final(st).next_view() == old(st).next_view() + 1
                && final(st).prefixes_view() == after_local(
                self.parts_view(),
                self.delimiter_view(),
                old(st).next_view() as int,
                old(st).prefixes_view(),
                old(st).regex_view(),
                old(st).prev_any_view(),
            ) && final(st).regex_view() == old(st).regex_view() + fragment(
                self.parts_view()[old(st).next_view() as int],
                self.delimiter_view(),
            ) && final(st).prev_any_view() == wildcard(self.parts_view()[old(st).next_view() as int]),
            !(r is Next) ==> final(st).next_view() == old(st).next_view() && final(st).prefixes_view()
                == old(st).prefixes_view() && final(st).regex_view() == old(st).regex_view()
                && final(st).prev_any_view() == old(st).prev_any_view(),
            drawn_from(final(st).prefixes_view(), old(st).prefixes_view()),
            final(st).next_view() <= self.parts_view().len(),
    {
        let parts = self.parts();
        let d = self.delimiter();
        let ghost start = strings_view(st.prefixes@);
        proof {
            assert forall|i: int| 0 <= i < start.len() implies start.contains(#[trigger] start[i]) by {}
        }
        if st.next >= parts.len() {
            return PlanRequest::Done(copy_all(&st.prefixes));
        }
        let part = &parts[st.next];
        assert(self.parts_view()[st.next as int] == part@);
        if part.is_recursive() {
            return PlanRequest::Done(copy_all(&st.prefixes));
        }
        if part.is_choice() {
            let (next, needs_check) = self.choice_step(&st.prefixes, part, st.regex_so_far.as_str(), d, st.prev_any);
            if needs_check {
                return PlanRequest::Check(next);
            }
            st.prefixes = next;
        } else {
            if !st.prev_any && st.next + 1 < parts.len() {
                return PlanRequest::Scan(copy_all(&st.prefixes));
            }
            if part.is_negated() {
                let fragment = part.re_string(d);
                let source = concat(st.regex_so_far.as_str(), fragment.as_str());
                let re = compile_regex(source.as_str());
                let kept = retain_matching(copy_all(&st.prefixes), &re, Ghost(source@));
                st.prefixes = kept;
            }
        }
        self.advance(st);
        PlanRequest::Next
    }

    /// Takes the listings asked by a `Scan` request, one per prefix in order:
    /// the prefixes become what they listed, filtered by the segment when it
    /// is a negated class.
    pub fn plan_scanned(&self, st: &mut PlanState, results: &Vec<ScanResult>)
        ensures
            old(st).next_view() < self.parts_view().len() ==> final(st).next_view() == old(st).next_view() + 1
                && drawn_from(final(st).prefixes_view(), listed(results@)),
            old(st).next_view() < self.parts_view().len() ==> final(st).regex_view() == old(st).regex_view() + fragment(
                self.parts_view()[old(st).next_view() as int],
                self.delimiter_view(),
            ) && final(st).prev_any_view() == !(self.parts_view()[old(st).next_view() as int] is Choice),
            old(st).next_view() < self.parts_view().len() && !(self.parts_view()[old(st).next_view() as int] matches GlobView::Any {
                not: Some(_),
                ..
            }) ==> final(st).prefixes_view() == listed_sets(results@),
            (old(st).next_view() < self.parts_view().len() && (self.parts_view()[old(st).next_view() as int] matches GlobView::Any {
                not: Some(_),
                ..
            })) ==> final(st).prefixes_view() == listed_sets(results@).filter(
                |p: Seq<char>|
                    admits(old(st).regex_view() + fragment(self.parts_view()[old(st).next_view() as int], self.delimiter_view()), p),
            ),
            old(st).next_view() >= self.parts_view().len() ==> *final(st) == *old(st),
    {
        let parts = self.parts();
        if st.next >= parts.len() {
            return;
        }
        let found = flatten_results(results);
        let mut objects: usize = 0;
        let mut k: usize = 0;
        while k < results.len()
            invariant
                0 <= k <= results@.len(),
            decreases results.len() - k,
        {
            let n = results[k].objects.len();
            objects = if objects <= usize::MAX - n { objects + n } else { usize::MAX };
            k = k + 1;
        }
        if objects > st.max_objects {
            st.max_objects = objects;
        }
        let part = &parts[st.next];
        let ghost fv = strings_view(found@);
        let kept = if part.is_negated() {
            let fragment = part.re_string(self.delimiter());
            let source = concat(st.regex_so_far.as_str(), fragment.as_str());
            let re = compile_regex(source.as_str());
            let kept = retain_matching(found, &re, Ghost(source@));
            proof {
                lemma_drawn_trans(strings_view(kept@), fv, listed(results@));
            }
            kept
        } else {
            found
        };
        st.prefixes = kept;
        self.advance(st);
    }

    /// Takes the answer to a `Check` request: the prefixes that exist.
    pub fn plan_checked(&self, st: &mut PlanState, found: Vec<String>)
        ensures
            old(st).next_view() < self.parts_view().len() ==> final(st).next_view() == old(st).next_view() + 1 && final(st).prefixes_view() == strings_view(found@),
            old(st).next_view() < self.parts_view().len() ==> final(st).regex_view() == old(st).regex_view() + fragment(
                self.parts_view()[old(st).next_view() as int],
                self.delimiter_view(),
            ) && final(st).prev_any_view() == !(self.parts_view()[old(st).next_view() as int] is Choice),
            old(st).next_view() >= self.parts_view().len() ==> *final(st) == *old(st),
    {
        if st.next >= self.parts().len() {
            return;
        }
        st.prefixes = found;
        self.advance(st);
    }

    /// The prefixes under which every key that matches the pattern lies,
    /// found by walking the segments from the left against `engine`: the
    /// result and the listings asked are exactly those of `plan_run` over
    /// the keys of the store. It succeeds exactly when no store call fails
    /// (always, on a store that never fails), and each prefix returned is
    /// empty or begins some key of the store.
    pub fn find_prefixes<E: Engine>(&self, engine: &mut E) -> (r: Result<Vec<String>, StoreError>)
        ensures
            final(engine).keys() == old(engine).keys(),
            final(engine).infallible() == old(engine).infallible(),
            old(engine).infallible() ==> r is Ok,
            r is Ok <==> final(engine).failures() == old(engine).failures(),
            r matches Ok(ps) ==> prefixes_sound(old(engine).keys(), strings_view(ps@)),
            r matches Ok(ps) ==> strings_view(ps@) == plan_of(self.parts_view(), self.delimiter_view(), old(engine).keys()).0
                && final(engine).listings() == old(engine).listings() + plan_of(
                self.parts_view(),
                self.delimiter_view(),
                old(engine).keys(),
            ).1,
    {
        let ghost keys = engine.keys();
        let ghost parts = self.parts_view();
        let ghost d = self.delimiter_view();
        let mut delim = String::new();
        delim.push(self.delimiter());
        assert(delim@ =~= seq![d]);
        let mut st = self.plan_start();
        assert(prefixes_sound(keys, st.prefixes_view()));
        loop
            invariant
                engine.keys() == keys,
                keys == old(engine).keys(),
                parts == self.parts_view(),
                d == self.delimiter_view(),
                delim@ == seq![d],
                st.next_view() <= parts.len(),
                prefixes_sound(keys, st.prefixes_view()),
                engine.infallible() == old(engine).infallible(),
                engine.failures() == old(engine).failures(),
                plan_of(parts, d, keys).0 == plan_run(
                    parts,
                    d,
                    keys,
                    st.next_view() as int,
                    st.prefixes_view(),
                    st.regex_view(),
                    st.prev_any_view(),
                ).0,
                old(engine).listings() + plan_of(parts, d, keys).1 == engine.listings() + plan_run(
                    parts,
                    d,
                    keys,
                    st.next_view() as int,
                    st.prefixes_view(),
                    st.regex_view(),
                    st.prev_any_view(),
                ).1,
            decreases parts.len() - st.next_view(),
        {
            let ghost before = st.prefixes_view();
            let ghost n0 = st.next_view() as int;
            let ghost rg0 = st.regex_view();
            let ghost pa0 = st.prev_any_view();
            let ghost l0 = engine.listings();
            match self.plan_next(&mut st) {
                PlanRequest::Done(ps) => {
                    proof {
                        lemma_drawn_sound(keys, st.prefixes_view(), before);
                        assert(old(engine).listings() + plan_of(parts, d, keys).1 =~= engine.listings() + seq![]);
                    }
                    return Ok(ps);
                },
                PlanRequest::Next => {
                    proof {
                        lemma_drawn_sound(keys, st.prefixes_view(), before);
                    }
                },
                PlanRequest::Scan(ps) => {
                    let results = scan_each(engine, &ps, &delim, Ghost(keys))?;
                    proof {
                        assert forall|i: int| 0 <= i < results@.len() implies scan_exact(
                            keys,
                            #[trigger] strings_view(ps@)[i],
                            d,
                            strings_view(results@[i].prefixes@),
                            object_keys(results@[i].objects@),
                        ) by {
                            assert(strings_view(ps@)[i] == ps@[i]@);
                        }
                        lemma_listings_of_all(keys, strings_view(ps@), d, results@);
                    }
                    self.plan_scanned(&mut st, &results);
                    proof {
                        lemma_drawn_sound(keys, st.prefixes_view(), listed(results@));
                        let scans = strings_view(ps@).map_values(|p: Seq<char>| (p, seq![d]));
                        assert(ps@.map_values(|p: String| (p@, delim@)) =~= scans);
                        assert(old(engine).listings() + plan_of(parts, d, keys).1 =~= engine.listings() + plan_run(
                            parts,
                            d,
                            keys,
                            st.next_view() as int,
                            st.prefixes_view(),
                            st.regex_view(),
                            st.prev_any_view(),
                        ).1);
                    }
                },
                PlanRequest::Check(candidates) => {
                    let found = engine.check_prefixes(&candidates)?;
                    proof {
                        lemma_checked_sound(keys, strings_view(candidates@), strings_view(found@));
                    }
                    self.plan_checked(&mut st, found);
                },
            }
        }
    }

    /// One choice segment: with a single prefix built from choices, each
    /// choice joined to it, to be checked; otherwise (several prefixes, or
    /// prefixes that a listing returned, which may be whole keys) the
    /// prefixes that the part of a choice up to its first delimiter matches,
    /// extended by what follows that delimiter (to be checked) or kept as
    /// they are.
    fn choice_step(&self, prefixes: &Vec<String>, part: &Glob, regex_so_far: &str, d: char, after_listing: bool) -> (r: (
        Vec<String>,
        bool,
    ))
        ensures
            !r.1 ==> drawn_from(strings_view(r.0@), strings_view(prefixes@)),
            prefixes@.len() == 1 && !after_listing ==> (part@ matches GlobView::Choice { allowed, .. }
                ==> r.1 && strings_view(r.0@) == joined_each(strings_view(prefixes@)[0], allowed, d)),
            !(prefixes@.len() == 1 && !after_listing) ==> (part@ matches GlobView::Choice { allowed, .. }
                ==> (strings_view(r.0@), r.1) == choice_filtered(strings_view(prefixes@), allowed, regex_so_far@, fragment(part@, d), d)),
    {
        let allowed = match part {
            Glob::Choice { allowed, .. } => allowed,
            _ => {
                return (Vec::new(), false);
            },
        };
        if prefixes.len() == 1 && !after_listing {
            let mut candidates: Vec<String> = Vec::new();
            let mut j: usize = 0;
            while j < allowed.len()
                invariant
                    0 <= j <= allowed@.len(),
                    prefixes@.len() == 1,
                    strings_view(candidates@) == joined_each(
                        strings_view(prefixes@)[0],
                        strings_view(allowed@.take(j as int)),
                        d,
                    ),
                decreases allowed.len() - j,
            {
                let ghost before = strings_view(candidates@);
                let joined = prefix_join(prefixes[0].as_str(), allowed[j].as_str(), d);
                candidates.push(joined);
                proof {
                    assert(strings_view(prefixes@)[0] == prefixes@[0]@);
                    assert(strings_view(candidates@) =~= before.push(joined@));
                    assert(strings_view(allowed@.take(j + 1)) =~= strings_view(allowed@.take(j as int)).push(allowed@[j as int]@));
                    assert(joined_each(strings_view(prefixes@)[0], strings_view(allowed@.take(j + 1)), d)
                        =~= joined_each(strings_view(prefixes@)[0], strings_view(allowed@.take(j as int)), d).push(joined@));
                }
                j = j + 1;
            }
            assert(allowed@.take(allowed@.len() as int) == allowed@);
            return (candidates, true);
        }
        let ghost av = strings_view(allowed@);
        let mut filters: Vec<String> = Vec::new();
        let mut appends: Vec<String> = Vec::new();
        let mut j: usize = 0;
        while j < allowed.len()
            invariant
                0 <= j <= allowed@.len(),
                av == strings_view(allowed@),
                strings_view(filters@) == filters_of(av.take(j as int), d),
                strings_view(appends@) == appends_of(av.take(j as int), d),
            decreases allowed.len() - j,
        {
            let cs = chars_of(allowed[j].as_str());
            let ghost c = cs@;
            assert(av[j as int] == c);
            assert(av.take(j + 1).drop_last() =~= av.take(j as int));
            assert(av.take(j + 1).last() == c);
            let mut k: usize = 0;
            while k < cs.len() && cs[k] != d
                invariant
                    0 <= k <= cs@.len(),
                    forall|m: int| 0 <= m < k ==> cs@[m] != d,
                decreases cs.len() - k,
            {
                k = k + 1;
            }
            proof {
                crate::glob::lemma_first_index(c, d, 0, k as int);
            }
            if k < cs.len() {
                let up_to = string_of(&cs, 0, k + 1);
                assert(up_to@ == c.take(k + 1));
                insert_sorted(&mut filters, regex_escape(up_to.as_str()));
                if k + 1 < cs.len() {
                    let rest = string_of(&cs, k + 1, cs.len());
                    assert(rest@ =~= c.skip(k + 1));
                    insert_sorted(&mut appends, rest);
                } else {
                    assert(c.skip(k + 1).len() == 0);
                }
            } else {
                insert_sorted(&mut filters, regex_escape(allowed[j].as_str()));
            }
            j = j + 1;
        }
        assert(av.take(allowed@.len() as int) == av);
        if filters.len() == 0 {
            return (Vec::new(), false);
        }
        let mut filter_src = copy_str(regex_so_far);
        filter_src.push('(');
        let mut f: usize = 0;
        assert(strings_view(filters@).take(0) =~= Seq::<Seq<char>>::empty());
        while f < filters.len()
            invariant
                0 <= f <= filters@.len(),
                filters@.len() > 0,
                filter_src@ == regex_so_far@ + seq!['('] + bar_join(strings_view(filters@).take(f as int)),
            decreases filters.len() - f,
        {
            let ghost fv = strings_view(filters@);
            assert(fv.take(f + 1).drop_last() =~= fv.take(f as int));
            assert(fv.take(f + 1).last() == filters@[f as int]@);
            if f > 0 {
                filter_src.push('|');
            } else {
                assert(fv.take(0) =~= Seq::<Seq<char>>::empty());
            }
            filter_src.push_str(filters[f].as_str());
            f = f + 1;
        }
        assert(strings_view(filters@).take(filters@.len() as int) == strings_view(filters@));
        filter_src.push(')');
        let ghost fsrc = filter_src@;
        let filter = compile_regex(filter_src.as_str());
        let frag = part.re_string(d);
        let asrc_s = concat(regex_so_far, frag.as_str());
        let ghost asrc = asrc_s@;
        let append_matcher = compile_regex(asrc_s.as_str());
        let ghost apps = strings_view(appends@);
        let ghost pv = strings_view(prefixes@);
        let mut next: Vec<String> = Vec::new();
        let mut p: usize = 0;
        while p < prefixes.len()
            invariant
                0 <= p <= prefixes@.len(),
                pv == strings_view(prefixes@),
                apps == strings_view(appends@),
                filter is Ok <==> regex_compiles(fsrc),
                filter matches Ok(c) ==> c@ == fsrc,
                append_matcher is Ok <==> regex_compiles(asrc),
                append_matcher matches Ok(c) ==> c@ == asrc,
                appends@.len() == 0 ==> drawn_from(strings_view(next@), pv),
                strings_view(next@) == extend_all(pv.take(p as int), fsrc, asrc, apps, d),
            decreases prefixes.len() - p,
        {
            let prefix = prefixes[p].as_str();
            let ghost x = pv[p as int];
            let ghost base = strings_view(next@);
            assert(pv.take(p + 1).drop_last() =~= pv.take(p as int));
            assert(pv.take(p + 1).last() == x);
            let kept = admitted(&filter, prefix, Ghost(fsrc));
            if kept {
                if appends.len() > 0 && !admitted(&append_matcher, prefix, Ghost(asrc)) {
                    let mut a: usize = 0;
                    while a < appends.len()
                        invariant
                            0 <= a <= appends@.len(),
                            appends@.len() > 0,
                            apps == strings_view(appends@),
                            prefix@ == x,
                            strings_view(next@) == base + joined_each(x, apps.take(a as int), d),
                        decreases appends.len() - a,
                    {
                        let joined = prefix_join(prefix, appends[a].as_str(), d);
                        let ghost mid = strings_view(next@);
                        next.push(joined);
                        assert(strings_view(next@) =~= mid.push(joined@));
                        assert(apps.take(a + 1) =~= apps.take(a as int).push(apps[a as int]));
                        assert(joined_each(x, apps.take(a + 1), d) =~= joined_each(x, apps.take(a as int), d).push(joined@));
                        a = a + 1;
                    }
                    assert(apps.take(appends@.len() as int) == apps);
                } else {
                    next.push(copy_str(prefix));
                    assert(strings_view(next@) =~= base.push(x));
                    assert(pv.contains(x));
                    assert(base + seq![x] =~= base.push(x));
                }
            } else {
                assert(base + Seq::<Seq<char>>::empty() =~= base);
            }
            p = p + 1;
        }
        assert(pv.take(prefixes@.len() as int) == pv);
        let needs_check = appends.len() > 0;
        proof {
            assert(part@ == (GlobView::Choice { raw: part@->Choice_raw, allowed: av }));
            assert(strings_view(filters@) == filters_of(av, d));
            assert(apps == appends_of(av, d));
            assert(fsrc == regex_so_far@ + seq!['('] + bar_join(filters_of(av, d)) + seq![')']);
            assert(asrc == regex_so_far@ + fragment(part@, d));
        }
        (next, needs_check)
    }
}

proof fn lemma_joined_empty(a: Seq<Seq<char>>, d: char)
    ensures
        joined_each(Seq::<char>::empty(), a, d) == a,
{
    assert forall|i: int| 0 <= i < a.len() implies joined_each(Seq::<char>::empty(), a, d)[i] == a[i] by {
        assert(Seq::<char>::empty() + a[i] =~= a[i]);
    }
    assert(joined_each(Seq::<char>::empty(), a, d) =~= a);
}

proof fn lemma_checked_sound(keys: Set<Seq<char>>, asked: Seq<Seq<char>>, found: Seq<Seq<char>>)
    requires
        check_exact(keys, asked, found),
    ensures
        prefixes_sound(keys, found),
{
    assert forall|i: int| 0 <= i < found.len() implies found[i] == Seq::<char>::empty()
        || has_key_with_prefix(keys, #[trigger] found[i]) by {
        assert(found.contains(found[i]));
    }
}

/// What an exact listing reports begins some key of the store.
proof fn lemma_scan_sound(
    keys: Set<Seq<char>>,
    p: Seq<char>,
    d: char,
    prefixes: Seq<Seq<char>>,
    objects: Seq<Seq<char>>,
)
    requires
        scan_exact(keys, p, d, prefixes, objects),
    ensures
        prefixes_sound(keys, prefixes),
        prefixes_sound(keys, objects),
{
    assert forall|i: int| 0 <= i < prefixes.len() implies prefixes[i] == Seq::<char>::empty()
        || has_key_with_prefix(keys, #[trigger] prefixes[i]) by {
        let x = prefixes[i];
        assert(prefixes.contains(x));
        let key = choose|key: Seq<char>|
            #[trigger] keys.contains(key) && starts_with(key, p) && listing_entry(key, p, d) == (true, x);
        crate::glob::lemma_first_index_bounds(key, d, p.len() as int);
        assert(key.take(x.len() as int) =~= x);
    }
    assert forall|i: int| 0 <= i < objects.len() implies objects[i] == Seq::<char>::empty()
        || has_key_with_prefix(keys, #[trigger] objects[i]) by {
        let x = objects[i];
        assert(objects.contains(x));
        assert(x.take(x.len() as int) =~= x);
    }
}

/// Lists one level below each prefix, in order.
fn scan_each<E: Engine>(
    engine: &mut E,
    prefixes: &Vec<String>,
    delim: &String,
    Ghost(keys): Ghost<Set<Seq<char>>>,
) -> (r: Result<Vec<ScanResult>, StoreError>)
    requires
        old(engine).keys() == keys,
        delim@.len() == 1,
    ensures
        final(engine).keys() == keys,
        final(engine).infallible() == old(engine).infallible(),
        old(engine).infallible() ==> r is Ok,
        final(engine).failures() == if r is Ok { old(engine).failures() } else { old(engine).failures() + 1 },
        r is Ok ==> final(engine).listings() == old(engine).listings() + prefixes@.map_values(
            |p: String| (p@, delim@),
        ),
        r matches Ok(rs) ==> prefixes_sound(keys, listed(rs@)),
        r matches Ok(rs) ==> rs@.len() == prefixes@.len() && forall|i: int|
            0 <= i < rs@.len() ==> scan_exact(
                keys,
                #[trigger] prefixes@[i]@,
                delim@[0],
                strings_view(rs@[i].prefixes@),
                object_keys(rs@[i].objects@),
            ),
{
    let mut out: Vec<ScanResult> = Vec::new();
    let mut i: usize = 0;
    while i < prefixes.len()
        invariant
            0 <= i <= prefixes@.len(),
            engine.infallible() == old(engine).infallible(),
            engine.failures() == old(engine).failures(),
            engine.listings() == old(engine).listings() + prefixes@.take(i as int).map_values(
                |p: String| (p@, delim@),
            ),
            engine.keys() == keys,
            delim@.len() == 1,
            prefixes_sound(keys, listed(out@)),
            out@.len() == i,
            forall|j: int|
                0 <= j < i ==> scan_exact(
                    keys,
                    #[trigger] prefixes@[j]@,
                    delim@[0],
                    strings_view(out@[j].prefixes@),
                    object_keys(out@[j].objects@),
                ),
        decreases prefixes.len() - i,
    {
        let ghost lbefore = engine.listings();
        let found = engine.scan_prefixes(prefixes[i].as_str(), delim.as_str())?;
        assert(prefixes@.take(i + 1).map_values(|p: String| (p@, delim@)) =~= prefixes@.take(i as int).map_values(
            |p: String| (p@, delim@),
        ).push((prefixes@[i as int]@, delim@)));
        proof {
            lemma_scan_sound(keys, prefixes@[i as int]@, delim@[0], strings_view(found.prefixes@), object_keys(found.objects@));
        }
        let ghost before = out@;
        out.push(found);
        proof {
            assert(out@.drop_last() == before);
            lemma_sound_concat(keys, listed(before), strings_view(out@.last().prefixes@));
            lemma_sound_concat(keys, listed(before) + strings_view(out@.last().prefixes@), object_keys(out@.last().objects@));
        }
        i = i + 1;
    }
    assert(prefixes@.take(prefixes@.len() as int) == prefixes@);
    Ok(out)
}

/// A pattern that is empty, opens with `**`, or is a lone `*` or `?` plans
/// to the single empty prefix and asks for no listing.
pub proof fn lemma_plan_trivial(parts: Seq<GlobView>, d: char, keys: Set<Seq<char>>)
    requires
        parts.len() == 0 || parts[0] is Recursive || lone_wildcard(parts, 0),
    ensures
        plan_of(parts, d, keys) == (seq![Seq::<char>::empty()], Seq::<(Seq<char>, Seq<char>)>::empty()),
{
    if parts.len() > 0 && !(parts[0] is Recursive) {
        let e = seq![Seq::<char>::empty()];
        assert(request_of(parts, d, 0, e, seq!['^'], false) == RequestView::Next);
        assert(after_local(parts, d, 0, e, seq!['^'], false) == e);
        assert(plan_run(parts, d, keys, 1, e, seq!['^'] + fragment(parts[0], d), wildcard(parts[0])) == (
            e,
            Seq::<(Seq<char>, Seq<char>)>::empty(),
        ));
    }
}

/// A pattern that opens with a choice segment followed by nothing or `**`
/// plans to exactly those choices under which the store holds keys, in
/// order, and asks for no listing.
pub proof fn lemma_plan_head_choice(parts: Seq<GlobView>, d: char, keys: Set<Seq<char>>)
    requires
        head_choice(parts),
    ensures
        plan_of(parts, d, keys) == (
            parts[0]->Choice_allowed.filter(|p: Seq<char>| has_key_with_prefix(keys, p)),
            Seq::<(Seq<char>, Seq<char>)>::empty(),
        ),
{
    let allowed = parts[0]->Choice_allowed;
    let e = seq![Seq::<char>::empty()];
    lemma_joined_empty(allowed, d);
    assert(choice_candidates(e, false, seq!['^'], parts[0], d) == (allowed, true));
    assert(request_of(parts, d, 0, e, seq!['^'], false) == RequestView::Check(allowed));
    let found = allowed.filter(|p: Seq<char>| has_key_with_prefix(keys, p));
    let r2 = seq!['^'] + fragment(parts[0], d);
    if parts.len() > 1 {
        assert(request_of(parts, d, 1, found, r2, false) == RequestView::Done(found));
    }
    assert(plan_run(parts, d, keys, 1, found, r2, false) == (found, Seq::<(Seq<char>, Seq<char>)>::empty()));
}

/// A pattern without wildcards asks for no listing.
pub proof fn lemma_plan_no_wildcard(
    parts: Seq<GlobView>,
    d: char,
    keys: Set<Seq<char>>,
    next: int,
    ps: Seq<Seq<char>>,
    regex: Seq<char>,
    prev_any: bool,
)
    requires
        forall|i: int| 0 <= i < parts.len() ==> !wildcard(#[trigger] parts[i]),
    ensures
        plan_run(parts, d, keys, next, ps, regex, prev_any).1 == Seq::<(Seq<char>, Seq<char>)>::empty(),
    decreases parts.len() - next,
{
    if 0 <= next < parts.len() {
        let regex2 = regex + fragment(parts[next], d);
        match request_of(parts, d, next, ps, regex, prev_any) {
            RequestView::Next => {
                lemma_plan_no_wildcard(parts, d, keys, next + 1, after_local(parts, d, next, ps, regex, prev_any), regex2, wildcard(parts[next]));
            },
            RequestView::Check(c) => {
                lemma_plan_no_wildcard(parts, d, keys, next + 1, c.filter(|p: Seq<char>| has_key_with_prefix(keys, p)), regex2, false);
            },
            RequestView::Scan(_) => {
                assert(wildcard(parts[next]));
            },
            _ => {},
        }
    }
}

} // verus!
