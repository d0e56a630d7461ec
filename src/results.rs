//! What enumeration emits: objects that match the pattern, and prefixes that
//! a planned lookup could not resolve to an object.

use vstd::prelude::*;
use crate::engine::S3Object;
use crate::matcher::{key_matches, S3GlobMatcher};

verus! {

broadcast use vstd::seq_lib::lemma_seq_contains_after_push;

/// One result of enumeration.
#[derive(Debug)]
pub enum PrefixResult {
    /// An object whose key matches the pattern.
    Object(S3Object),
    /// A planned prefix that is not itself an object.
    Prefix(String),
}

pub open spec fn result_key(r: PrefixResult) -> Seq<char> {
    match r {
        PrefixResult::Object(o) => o.key@,
        PrefixResult::Prefix(p) => p@,
    }
}

impl PrefixResult {
    /// The key of the object, or the prefix.
    pub fn key(&self) -> (r: &str)
        ensures
            r@ == result_key(*self),
    {
        match self {
            PrefixResult::Object(o) => o.key.as_str(),
            PrefixResult::Prefix(p) => p.as_str(),
        }
    }
}

/// The outcome of looking up a planned prefix as an object: the object when
/// the lookup found one (its size and modification time), else the prefix
/// itself.
pub fn head_outcome(prefix: String, head: Option<(i64, String)>) -> (r: PrefixResult)
    ensures
        match head {
            Some((size, modified)) => r matches PrefixResult::Object(o) && o.key@ == prefix@
                && o.size == size && o.last_modified@ == modified@,
            None => r matches PrefixResult::Prefix(p) && p@ == prefix@,
        },
{
    match head {
        Some((size, last_modified)) => PrefixResult::Object(
            S3Object { key: prefix, size, last_modified },
        ),
        None => PrefixResult::Prefix(prefix),
    }
}

pub open spec fn result_keys(v: Seq<PrefixResult>) -> Seq<Seq<char>> {
    v.map_values(|r: PrefixResult| result_key(r))
}

/// The objects of a listed page whose keys match the pattern, in page order.
pub fn matching_objects(matcher: &S3GlobMatcher, objects: Vec<S3Object>) -> (r: Vec<PrefixResult>)
    requires
        matcher.wf(),
    ensures
        forall|i: int| 0 <= i < r@.len() ==> r@[i] is Object,
        result_keys(r@) == objects@.map_values(|o: S3Object| o.key@).filter(
            |k: Seq<char>| key_matches(matcher.parts_view(), matcher.delimiter_view(), k),
        ),
{
    let ghost keys = objects@.map_values(|o: S3Object| o.key@);
    let ghost pred = |k: Seq<char>| key_matches(matcher.parts_view(), matcher.delimiter_view(), k);
    let mut out: Vec<PrefixResult> = Vec::new();
    let mut objects = objects;
    let ghost all = objects@;
    let n = objects.len();
    let mut i: usize = 0;
    while objects.len() > 0
        invariant
            matcher.wf(),
            keys == all.map_values(|o: S3Object| o.key@),
            i + objects@.len() == all.len(),
            all.len() == n,
            pred == (|k: Seq<char>| key_matches(matcher.parts_view(), matcher.delimiter_view(), k)),
            objects@ == all.skip(i as int),
            forall|j: int| 0 <= j < out@.len() ==> out@[j] is Object,
            result_keys(out@) == keys.take(i as int).filter(pred),
        decreases objects.len(),
    {
        let ghost before = objects@;
        let o = objects.remove(0);
        assert(o == all[i as int]) by {
            assert(before[0] == all.skip(i as int)[0]);
        }
        assert(objects@ =~= all.skip(i + 1));
        assert(keys.take(i + 1).drop_last() =~= keys.take(i as int));
        let ghost prev = out@;
        assert(keys[i as int] == o.key@);
        let m = matcher.is_match(o.key.as_str());
        assert(pred(keys[i as int]) == m);
        if m {
            out.push(PrefixResult::Object(o));
            assert(result_keys(out@) =~= result_keys(prev).push(keys[i as int]));
        } else {
            assert(result_keys(out@) == result_keys(prev));
        }
        proof {
            keys.take(i as int).lemma_filter_push(keys[i as int], pred);
            assert(keys.take(i as int).push(keys[i as int]) =~= keys.take(i + 1));
        }
        i = i + 1;
    }
    assert(keys.take(i as int) =~= keys);
    out
}

} // verus!
