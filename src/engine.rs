//! The store interface the planner drives, and an in-memory store.

use vstd::prelude::*;
use crate::glob::{first_index_of, strings_view};
use crate::text::starts_with;

verus! {

/// An object of the store: its key, its size in bytes, and when it was last
/// modified (RFC 3339 text).
#[derive(Debug)]
pub struct S3Object {
    pub key: String,
    pub size: i64,
    pub last_modified: String,
}

/// Why a call to the store failed.
#[derive(Debug)]
pub struct StoreError {
    pub message: String,
}

/// What a delimited listing under one prefix returned.
#[derive(Debug)]
pub struct ScanResult {
    /// Common prefixes: each ends with the delimiter.
    pub prefixes: Vec<String>,
    /// Objects directly under the prefix.
    pub objects: Vec<S3Object>,
}

pub open spec fn object_keys(v: Seq<S3Object>) -> Seq<Seq<char>> {
    v.map_values(|o: S3Object| o.key@)
}

/// Some key of the store begins with `p`.
pub open spec fn has_key_with_prefix(keys: Set<Seq<char>>, p: Seq<char>) -> bool {
    exists|k: Seq<char>| #[trigger] keys.contains(k) && starts_with(k, p)
}

/// Where a delimited listing under `p` puts key `k`: a common prefix (the
/// key up to the first delimiter after `p`, when more follows it), or the
/// object itself.
pub open spec fn listing_entry(k: Seq<char>, p: Seq<char>, d: char) -> (bool, Seq<char>) {
    match first_index_of(k, d, p.len() as int) {
        Some(e) => if e + 1 < k.len() {
            (true, k.take(e + 1))
        } else {
            (false, k)
        },
        None => (false, k),
    }
}

/// `x` is a common prefix that a listing of `keys` under `p` reports.
pub open spec fn lists_prefix(keys: Set<Seq<char>>, p: Seq<char>, d: char, x: Seq<char>) -> bool {
    exists|k: Seq<char>|
        #[trigger] keys.contains(k) && starts_with(k, p) && listing_entry(k, p, d) == (true, x)
}

/// `x` is an object key that a listing of `keys` under `p` reports.
pub open spec fn lists_object(keys: Set<Seq<char>>, p: Seq<char>, d: char, x: Seq<char>) -> bool {
    keys.contains(x) && starts_with(x, p) && listing_entry(x, p, d) == (false, x)
}

/// A listing result is exactly what the store holds under `p`.
pub open spec fn scan_exact(
    keys: Set<Seq<char>>,
    p: Seq<char>,
    d: char,
    prefixes: Seq<Seq<char>>,
    objects: Seq<Seq<char>>,
) -> bool {
    &&& forall|x: Seq<char>| prefixes.contains(x) <==> lists_prefix(keys, p, d, x)
    &&& forall|x: Seq<char>| objects.contains(x) <==> lists_object(keys, p, d, x)
}

/// An existence check returns exactly the given prefixes that some key begins with.
pub open spec fn check_exact(keys: Set<Seq<char>>, asked: Seq<Seq<char>>, found: Seq<Seq<char>>) -> bool {
    forall|x: Seq<char>|
        found.contains(x) <==> (asked.contains(x) && has_key_with_prefix(keys, x))
}

/// An object store offering delimited listings and existence checks.
pub trait Engine {
    /// The keys the store holds.
    spec fn keys(&self) -> Set<Seq<char>>;

    /// The delimited listings asked so far, as pairs of prefix and delimiter.
    spec fn listings(&self) -> Seq<(Seq<char>, Seq<char>)>;

    /// The store answers every call.
    spec fn infallible(&self) -> bool;

    /// How many calls have failed so far.
    spec fn failures(&self) -> nat;

    /// Lists the common prefixes and objects directly under `prefix`.
    fn scan_prefixes(&mut self, prefix: &str, delimiter: &str) -> (r: Result<ScanResult, StoreError>)
        requires
            delimiter@.len() == 1,
        ensures
            final(self).keys() == old(self).keys(),
            final(self).infallible() == old(self).infallible(),
            final(self).listings() == old(self).listings().push((prefix@, delimiter@)),
            old(self).infallible() ==> r is Ok,
            final(self).failures() == if r is Ok { old(self).failures() } else { old(self).failures() + 1 },
            r matches Ok(res) ==> scan_exact(
                old(self).keys(),
                prefix@,
                delimiter@[0],
                strings_view(res.prefixes@),
                object_keys(res.objects@),
            ),
    ;

    /// Keeps those of `prefixes` under which the store holds some key, in
    /// their order.
    fn check_prefixes(&mut self, prefixes: &Vec<String>) -> (r: Result<Vec<String>, StoreError>)
        ensures
            final(self).keys() == old(self).keys(),
            final(self).infallible() == old(self).infallible(),
            final(self).listings() == old(self).listings(),
            old(self).infallible() ==> r is Ok,
            final(self).failures() == if r is Ok { old(self).failures() } else { old(self).failures() + 1 },
            r matches Ok(found) ==> strings_view(found@) == strings_view(prefixes@).filter(
                |p: Seq<char>| has_key_with_prefix(old(self).keys(), p),
            ),
            r matches Ok(found) ==> check_exact(
                old(self).keys(),
                strings_view(prefixes@),
                strings_view(found@),
            ),
    ;
}

impl ScanResult {
    /// The number of prefixes and objects.
    pub fn len(&self) -> (r: usize)
        requires
            self.prefixes@.len() + self.objects@.len() <= usize::MAX,
        ensures
            r == self.prefixes@.len() + self.objects@.len(),
    {
        self.prefixes.len() + self.objects.len()
    }

    /// A result holding the single prefix `prefix` and no objects.
    pub fn for_prefix(prefix: String) -> (r: ScanResult)
        ensures
            strings_view(r.prefixes@) == seq![prefix@],
            r.objects@.len() == 0,
    {
        let mut prefixes: Vec<String> = Vec::new();
        let ghost p = prefix@;
        prefixes.push(prefix);
        assert(strings_view(prefixes@) =~= seq![p]);
        ScanResult { prefixes, objects: Vec::new() }
    }
}

} // verus!
