//! Where a pattern points: `s3://bucket/glob` or `bucket/glob`.

use vstd::prelude::*;
use crate::glob::first_index_of;
use crate::text::{chars_of, has_prefix, starts_with, string_of};

verus! {

/// `s` up to its first line break.
pub open spec fn first_line(s: Seq<char>) -> Seq<char> {
    match first_index_of(s, '\n', 0) {
        Some(k) => s.take(k),
        None => s,
    }
}

/// A non-empty bucket name up to the first `/`, and the first line of what
/// follows it.
pub open spec fn bucket_and_rest(s: Seq<char>) -> Option<(Seq<char>, Seq<char>)> {
    match first_index_of(s, '/', 0) {
        Some(k) => if k > 0 {
            Some((s.take(k), first_line(s.skip(k + 1))))
        } else {
            None
        },
        None => None,
    }
}

pub open spec fn scheme() -> Seq<char> {
    seq!['s', '3', ':', '/', '/']
}

/// The bucket and glob of a pattern, read after an optional `s3://`.
pub open spec fn location_spec(s: Seq<char>) -> Option<(Seq<char>, Seq<char>)> {
    if starts_with(s, scheme()) && bucket_and_rest(s.skip(5)) is Some {
        bucket_and_rest(s.skip(5))
    } else {
        bucket_and_rest(s)
    }
}

fn find_char(s: &Vec<char>, c: char) -> (r: Option<usize>)
    ensures
        match r {
            Some(k) => first_index_of(s@, c, 0) == Some(k as int) && k < s@.len(),
            None => first_index_of(s@, c, 0) is None,
        },
{
    let mut k: usize = 0;
    while k < s.len() && s[k] != c
        invariant
            0 <= k <= s@.len(),
            forall|m: int| 0 <= m < k ==> s@[m] != c,
        decreases s.len() - k,
    {
        k = k + 1;
    }
    proof {
        crate::glob::lemma_first_index(s@, c, 0, k as int);
    }
    if k < s.len() {
        Some(k)
    } else {
        None
    }
}

fn split_chars(s: &Vec<char>) -> (r: Option<(String, String)>)
    ensures
        match r {
            Some((b, g)) => bucket_and_rest(s@) == Some((b@, g@)),
            None => bucket_and_rest(s@) is None,
        },
{
    let n = s.len();
    match find_char(s, '/') {
        Some(k) => {
            if k == 0 {
                return None;
            }
            let bucket = string_of(s, 0, k);
            let rest = crate::text::chars_of(string_of(s, k + 1, n).as_str());
            assert(rest@ =~= s@.skip(k + 1));
            let glob = match find_char(&rest, '\n') {
                Some(j) => string_of(&rest, 0, j),
                None => {
                    assert(rest@.subrange(0, rest@.len() as int) == rest@);
                    string_of(&rest, 0, rest.len())
                },
            };
            Some((bucket, glob))
        },
        None => None,
    }
}

/// Splits `s3://bucket/glob` or `bucket/glob` into bucket and glob; `None`
/// when no non-empty bucket is followed by `/`.
pub fn split_location(pattern: &str) -> (r: Option<(String, String)>)
    ensures
        match r {
            Some((b, g)) => location_spec(pattern@) == Some((b@, g@)),
            None => location_spec(pattern@) is None,
        },
{
    let s = chars_of(pattern);
    let mut sch: Vec<char> = Vec::new();
    sch.push('s');
    sch.push('3');
    sch.push(':');
    sch.push('/');
    sch.push('/');
    assert(sch@ =~= scheme());
    if has_prefix(&s, &sch) {
        let tail = chars_of(string_of(&s, 5, s.len()).as_str());
        assert(tail@ =~= s@.skip(5));
        let r = split_chars(&tail);
        if r.is_some() {
            return r;
        }
    }
    split_chars(&s)
}

} // verus!
