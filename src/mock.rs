//! A store held in memory, which records the listings asked of it.

use vstd::prelude::*;
use crate::engine::{has_key_with_prefix, listing_entry, lists_object, lists_prefix, object_keys, scan_exact, Engine, S3Object, ScanResult, StoreError};
use crate::glob::{first_index_of, strings_view};
use crate::text::{chars_of, copy_str, has_prefix, same_chars, starts_with, string_of};

verus! {

broadcast use vstd::seq_lib::lemma_seq_contains_after_push;

/// The index of the first `d` in `k` at or after `from`.
fn find_from(k: &Vec<char>, d: char, from: usize) -> (r: Option<usize>)
    requires
        from <= k@.len(),
    ensures
        match r {
            Some(e) => first_index_of(k@, d, from as int) == Some(e as int) && e < k@.len(),
            None => first_index_of(k@, d, from as int) is None,
        },
{
    let mut i: usize = from;
    while i < k.len()
        invariant
            from <= i <= k@.len(),
            first_index_of(k@, d, from as int) == first_index_of(k@, d, i as int),
        decreases k.len() - i,
    {
        if k[i] == d {
            return Some(i);
        }
        i = i + 1;
    }
    None
}

/// A store whose keys are held in memory, recording each listing asked of it
/// as a pair of prefix and delimiter.
#[derive(Debug)]
pub struct MockS3Engine {
    pub paths: Vec<String>,
    pub calls: Vec<(String, String)>,
}

pub open spec fn calls_view(v: Seq<(String, String)>) -> Seq<(Seq<char>, Seq<char>)> {
    v.map_values(|c: (String, String)| (c.0@, c.1@))
}

pub open spec fn expected_view(v: Seq<(&str, &str)>) -> Seq<(Seq<char>, Seq<char>)> {
    v.map_values(|c: (&str, &str)| (c.0@, c.1@))
}

/// A delimited listing of `paths` under `p`, in the order the in-memory
/// store gives it: the entry of each path under `p`, in the order of the
/// paths, repeats included.
pub open spec fn listing_of(paths: Seq<Seq<char>>, p: Seq<char>, d: char) -> (Seq<Seq<char>>, Seq<Seq<char>>)
    decreases paths.len(),
{
    if paths.len() == 0 {
        (seq![], seq![])
    } else {
        let (ps, os) = listing_of(paths.drop_last(), p, d);
        let k = paths.last();
        if !starts_with(k, p) {
            (ps, os)
        } else {
            let (is_prefix, x) = listing_entry(k, p, d);
            if is_prefix {
                (ps.push(x), os)
            } else {
                (ps, os.push(x))
            }
        }
    }
}

/// The keys of a list of paths.
pub open spec fn path_keys(paths: Seq<String>) -> Set<Seq<char>> {
    Set::new(|k: Seq<char>| strings_view(paths).contains(k))
}

impl MockS3Engine {
    /// A store holding `paths`, with no listing asked yet.
    pub fn new(paths: Vec<String>) -> (r: MockS3Engine)
        ensures
            r.paths@ == paths@,
            r.calls@.len() == 0,
    {
        MockS3Engine { paths, calls: Vec::new() }
    }

    /// Whether the listings asked so far are exactly `expected`, in order.
    pub fn assert_calls(&self, expected: &[(&str, &str)]) -> (r: bool)
        ensures
            r == (calls_view(self.calls@) == expected_view(expected@)),
    {
        if self.calls.len() != expected.len() {
            assert(calls_view(self.calls@).len() != expected_view(expected@).len());
            return false;
        }
        let mut i: usize = 0;
        while i < self.calls.len()
            invariant
                self.calls@.len() == expected@.len(),
                0 <= i <= self.calls@.len(),
                forall|j: int| 0 <= j < i ==> calls_view(self.calls@)[j] == expected_view(expected@)[j],
            decreases self.calls.len() - i,
        {
            let a = chars_of(self.calls[i].0.as_str());
            let b = chars_of(expected[i].0);
            let c = chars_of(self.calls[i].1.as_str());
            let d = chars_of(expected[i].1);
            if !same_chars(&a, &b) || !same_chars(&c, &d) {
                assert(calls_view(self.calls@)[i as int] != expected_view(expected@)[i as int]);
                return false;
            }
            assert(calls_view(self.calls@)[i as int] == expected_view(expected@)[i as int]);
            i = i + 1;
        }
        assert(calls_view(self.calls@) =~= expected_view(expected@));
        true
    }

    /// A delimited listing of the held paths under `prefix`, without
    /// recording it: common prefixes and object keys, in the order of the
    /// held paths.
    pub fn scan_prefixes_inner(&self, prefix: &str, delimiter: &str) -> (r: ScanResult)
        requires
            delimiter@.len() == 1,
        ensures
            (strings_view(r.prefixes@), object_keys(r.objects@)) == listing_of(
                strings_view(self.paths@),
                prefix@,
                delimiter@[0],
            ),
            scan_exact(
                path_keys(self.paths@),
                prefix@,
                delimiter@[0],
                strings_view(r.prefixes@),
                object_keys(r.objects@),
            ),
    {
        let q = chars_of(prefix);
        let d = chars_of(delimiter)[0];
        let ghost keys = path_keys(self.paths@);
        let mut prefixes: Vec<String> = Vec::new();
        let mut objs: Vec<String> = Vec::new();
        let mut i: usize = 0;
        while i < self.paths.len()
            invariant
                0 <= i <= self.paths@.len(),
                q@ == prefix@,
                d == delimiter@[0],
                (strings_view(prefixes@), strings_view(objs@)) == listing_of(
                    strings_view(self.paths@.take(i as int)),
                    q@,
                    d,
                ),
                forall|x: Seq<char>|
                    strings_view(prefixes@).contains(x) <==> exists|j: int|
                        0 <= j < i && starts_with(#[trigger] self.paths@[j]@, q@) && listing_entry(
                            self.paths@[j]@,
                            q@,
                            d,
                        ) == (true, x),
                forall|x: Seq<char>|
                    strings_view(objs@).contains(x) <==> exists|j: int|
                        0 <= j < i && starts_with(#[trigger] self.paths@[j]@, q@) && listing_entry(
                            self.paths@[j]@,
                            q@,
                            d,
                        ) == (false, x),
            decreases self.paths.len() - i,
        {
            let k = chars_of(self.paths[i].as_str());
            let ghost kv = k@;
            proof {
                assert(strings_view(self.paths@.take(i + 1)).drop_last() =~= strings_view(self.paths@.take(i as int)));
                assert(strings_view(self.paths@.take(i + 1)).last() == kv);
            }
            if has_prefix(&k, &q) {
                let kl = k.len();
                let cut = find_from(&k, d, q.len());
                let is_prefix = match cut {
                    Some(e) => {
                        e + 1 < kl
                    },
                    None => false,
                };
                if is_prefix {
                    let e = cut.unwrap();
                    let entry = string_of(&k, 0, e + 1);
                    assert(entry@ == kv.take(e + 1));
                    let ghost before = strings_view(prefixes@);
                    prefixes.push(entry);
                    assert(strings_view(prefixes@) =~= before.push(kv.take(e + 1)));
                } else {
                    let entry = string_of(&k, 0, k.len());
                    assert(entry@ =~= kv);
                    let ghost before = strings_view(objs@);
                    objs.push(entry);
                    assert(strings_view(objs@) =~= before.push(kv));
                }
            }
            i = i + 1;
        }
        assert(self.paths@.take(self.paths@.len() as int) == self.paths@);
        let mut objects: Vec<S3Object> = Vec::new();
        let mut j: usize = 0;
        while j < objs.len()
            invariant
                0 <= j <= objs@.len(),
                object_keys(objects@) == strings_view(objs@.take(j as int)),
            decreases objs.len() - j,
        {
            let ghost before = objects@;
            let key = copy_str(objs[j].as_str());
            assert(key@ == objs@[j as int]@);
            objects.push(S3Object { key, size: 0, last_modified: String::new() });
            assert(object_keys(objects@) =~= object_keys(before).push(objs@[j as int]@));
            assert(strings_view(objs@.take(j + 1)) =~= strings_view(objs@.take(j as int)).push(objs@[j as int]@));
            j = j + 1;
        }
        assert(objs@.take(objs@.len() as int) == objs@);
        proof {
            assert forall|x: Seq<char>|
                strings_view(prefixes@).contains(x) <==> lists_prefix(keys, prefix@, d, x) by {
                if strings_view(prefixes@).contains(x) {
                    let j = choose|j: int|
                        0 <= j < self.paths@.len() && starts_with(#[trigger] self.paths@[j]@, q@)
                            && listing_entry(self.paths@[j]@, q@, d) == (true, x);
                    assert(strings_view(self.paths@)[j] == self.paths@[j]@);
                    assert(keys.contains(self.paths@[j]@));
                }
                if lists_prefix(keys, prefix@, d, x) {
                    let k = choose|k: Seq<char>|
                        #[trigger] keys.contains(k) && starts_with(k, prefix@) && listing_entry(
                            k,
                            prefix@,
                            d,
                        ) == (true, x);
                    let j = choose|j: int| 0 <= j < strings_view(self.paths@).len() && strings_view(self.paths@)[j] == k;
                    assert(self.paths@[j]@ == k);
                }
            }
            assert forall|x: Seq<char>|
                object_keys(objects@).contains(x) <==> lists_object(keys, prefix@, d, x) by {
                if object_keys(objects@).contains(x) {
                    assert(strings_view(objs@).contains(x));
                    let j = choose|j: int|
                        0 <= j < self.paths@.len() && starts_with(#[trigger] self.paths@[j]@, q@)
                            && listing_entry(self.paths@[j]@, q@, d) == (false, x);
                    assert(strings_view(self.paths@)[j] == self.paths@[j]@);
                    assert(keys.contains(self.paths@[j]@));
                }
                if lists_object(keys, prefix@, d, x) {
                    let j = choose|j: int| 0 <= j < strings_view(self.paths@).len() && strings_view(self.paths@)[j] == x;
                    assert(self.paths@[j]@ == x);
                    assert(strings_view(objs@).contains(x));
                }
            }
        }
        ScanResult { prefixes, objects }
    }
}

impl MockS3Engine {
    /// Whether some held path begins with `p`.
    fn holds_prefix(&self, p: &str) -> (r: bool)
        ensures
            r == has_key_with_prefix(path_keys(self.paths@), p@),
    {
        let q = chars_of(p);
        let mut i: usize = 0;
        while i < self.paths.len()
            invariant
                0 <= i <= self.paths@.len(),
                q@ == p@,
                forall|j: int| 0 <= j < i ==> !starts_with(#[trigger] self.paths@[j]@, q@),
            decreases self.paths.len() - i,
        {
            let k = chars_of(self.paths[i].as_str());
            if has_prefix(&k, &q) {
                proof {
                    assert(strings_view(self.paths@)[i as int] == self.paths@[i as int]@);
                    assert(path_keys(self.paths@).contains(self.paths@[i as int]@));
                }
                return true;
            }
            i = i + 1;
        }
        proof {
            assert forall|k: Seq<char>| #[trigger] path_keys(self.paths@).contains(k) implies !starts_with(k, p@) by {
                let j = choose|j: int| 0 <= j < strings_view(self.paths@).len() && strings_view(self.paths@)[j] == k;
                assert(self.paths@[j]@ == k);
            }
        }
        false
    }
}

impl Engine for MockS3Engine {
    open spec fn keys(&self) -> Set<Seq<char>> {
        path_keys(self.paths@)
    }

    open spec fn listings(&self) -> Seq<(Seq<char>, Seq<char>)> {
        calls_view(self.calls@)
    }

    open spec fn infallible(&self) -> bool {
        true
    }

    open spec fn failures(&self) -> nat {
        0
    }

    /// Records the listing, then answers it from the held paths.
    fn scan_prefixes(&mut self, prefix: &str, delimiter: &str) -> (r: Result<ScanResult, StoreError>)
        ensures
            r is Ok,
            final(self).paths@ == old(self).paths@,
            calls_view(final(self).calls@) == calls_view(old(self).calls@).push((prefix@, delimiter@)),
    {
        let ghost before = self.calls@;
        self.calls.push((copy_str(prefix), copy_str(delimiter)));
        assert(calls_view(self.calls@) =~= calls_view(before).push((prefix@, delimiter@)));
        Ok(self.scan_prefixes_inner(prefix, delimiter))
    }

    /// Answers from the held paths; existence checks are not recorded.
    fn check_prefixes(&mut self, prefixes: &Vec<String>) -> (r: Result<Vec<String>, StoreError>)
        ensures
            r is Ok,
            final(self).paths@ == old(self).paths@,
            final(self).calls@ == old(self).calls@,
    {
        let mut found: Vec<String> = Vec::new();
        let mut i: usize = 0;
        while i < prefixes.len()
            invariant
                0 <= i <= prefixes@.len(),
                self.paths@ == old(self).paths@,
                self.calls@ == old(self).calls@,
                forall|x: Seq<char>|
                    strings_view(found@).contains(x) <==> (strings_view(prefixes@.take(i as int)).contains(x)
                        && has_key_with_prefix(path_keys(self.paths@), x)),
                strings_view(found@) == strings_view(prefixes@.take(i as int)).filter(
                    |p: Seq<char>| has_key_with_prefix(path_keys(self.paths@), p),
                ),
            decreases prefixes.len() - i,
        {
            let ghost before = found@;
            let ghost pv = prefixes@[i as int]@;
            let ghost pred = |p: Seq<char>| has_key_with_prefix(path_keys(self.paths@), p);
            assert(strings_view(prefixes@.take(i + 1)) =~= strings_view(prefixes@.take(i as int)).push(pv));
            proof {
                strings_view(prefixes@.take(i as int)).lemma_filter_push(pv, pred);
            }
            if self.holds_prefix(prefixes[i].as_str()) {
                found.push(copy_str(prefixes[i].as_str()));
                assert(strings_view(found@) =~= strings_view(before).push(pv));
            }
            i = i + 1;
        }
        assert(prefixes@.take(prefixes@.len() as int) == prefixes@);
        Ok(found)
    }
}

} // verus!
