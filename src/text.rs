//! Character-level helpers shared by the parser, the planner and the remapper.

use vstd::prelude::*;
use crate::glob::strings_view;

verus! {

broadcast use vstd::string::group_string_axioms;

/// Relies on `String::push`: appends one character to the end of the string.
pub assume_specification[ String::push ](s: &mut String, ch: char)
    ensures
        final(s)@ == old(s)@.push(ch),
;

/// Relies on `String::push_str`: appends the characters of `t` to the string.
pub assume_specification[ String::push_str ](s: &mut String, t: &str)
    ensures
        final(s)@ == old(s)@ + t@,
;

/// A Unicode scalar value: a code point that is not a surrogate.
pub open spec fn is_scalar(i: int) -> bool {
    (0 <= i <= 0xD7FF) || (0xE000 <= i <= 0x10FFFF)
}

/// Relies on `char::from_u32`: the character with code `i`, where `i` is a
/// Unicode scalar value.
pub assume_specification[ char::from_u32 ](i: u32) -> (r: Option<char>)
    ensures
        r is Some <==> is_scalar(i as int),
        r matches Some(c) ==> c as int == i as int,
;

/// Every character is a scalar value.
pub proof fn lemma_char_is_scalar(c: char)
    ensures
        is_scalar(c as int),
{
}

/// Whether the code of `a` is at most that of `b`.
pub fn char_le(a: char, b: char) -> (r: bool)
    ensures
        r == (a as int <= b as int),
{
    (a as u32) <= (b as u32)
}

/// The characters of `s`, in order.
pub fn chars_of(s: &str) -> (r: Vec<char>)
    ensures
        r@ == s@,
{
    let mut out: Vec<char> = Vec::new();
    for c in it: s.chars()
        invariant
            out@ == it.seq().take(it.index() as int),
    {
        out.push(c);
    }
    out
}

/// Appends `v[lo..hi]` to `s`.
pub fn push_chars(s: &mut String, v: &Vec<char>, lo: usize, hi: usize)
    requires
        lo <= hi <= v@.len(),
    ensures
        final(s)@ == old(s)@ + v@.subrange(lo as int, hi as int),
{
    let mut i: usize = lo;
    while i < hi
        invariant
            lo <= i <= hi <= v@.len(),
            s@ == old(s)@ + v@.subrange(lo as int, i as int),
        decreases hi - i,
    {
        s.push(v[i]);
        i = i + 1;
        assert(v@.subrange(lo as int, i as int) == v@.subrange(lo as int, i - 1).push(v@[i - 1]));
    }
}

/// The string made of `v[lo..hi]`.
pub fn string_of(v: &Vec<char>, lo: usize, hi: usize) -> (r: String)
    requires
        lo <= hi <= v@.len(),
    ensures
        r@ == v@.subrange(lo as int, hi as int),
{
    let mut s = String::new();
    push_chars(&mut s, v, lo, hi);
    s
}

/// A copy of `s`.
pub fn copy_str(s: &str) -> (r: String)
    ensures
        r@ == s@,
{
    let mut r = String::new();
    r.push_str(s);
    r
}

/// `p` is a prefix of `s`.
pub open spec fn starts_with(s: Seq<char>, p: Seq<char>) -> bool {
    p.len() <= s.len() && s.take(p.len() as int) == p
}

/// Whether `s` begins with `p`.
pub fn has_prefix(s: &Vec<char>, p: &Vec<char>) -> (r: bool)
    ensures
        r == starts_with(s@, p@),
{
    if p.len() > s.len() {
        return false;
    }
    let mut i: usize = 0;
    while i < p.len()
        invariant
            p@.len() <= s@.len(),
            0 <= i <= p@.len(),
            forall|j: int| 0 <= j < i ==> s@[j] == p@[j],
        decreases p.len() - i,
    {
        if s[i] != p[i] {
            assert(s@.take(p@.len() as int)[i as int] != p@[i as int]);
            return false;
        }
        i = i + 1;
    }
    assert(s@.take(p@.len() as int) =~= p@);
    true
}

/// The joined form of `a` and `b`: where `a` ends and `b` begins with the
/// delimiter, one of the two delimiters is dropped.
pub open spec fn join_spec(a: Seq<char>, b: Seq<char>, d: char) -> Seq<char> {
    if a.len() > 0 && a.last() == d && b.len() > 0 && b[0] == d {
        a + b.skip(1)
    } else {
        a + b
    }
}

/// Joins `prefix` and `alt`, never doubling the delimiter at the seam.
pub fn prefix_join(prefix: &str, alt: &str, delimiter: char) -> (r: String)
    ensures
        r@ == join_spec(prefix@, alt@, delimiter),
{
    let a = chars_of(prefix);
    let b = chars_of(alt);
    let mut r = String::new();
    push_chars(&mut r, &a, 0, a.len());
    if a.len() > 0 && a[a.len() - 1] == delimiter && b.len() > 0 && b[0] == delimiter {
        push_chars(&mut r, &b, 1, b.len());
        assert(b@.subrange(1, b@.len() as int) == b@.skip(1));
    } else {
        push_chars(&mut r, &b, 0, b.len());
        assert(b@.subrange(0, b@.len() as int) == b@);
    }
    assert(a@.subrange(0, a@.len() as int) == a@);
    r
}

/// Joining never puts two delimiters side by side where the two parts meet,
/// as long as the second part does not itself begin with two of them.
pub proof fn lemma_join_no_double_delimiter(a: Seq<char>, b: Seq<char>, d: char)
    requires
        !(b.len() >= 2 && b[0] == d && b[1] == d),
    ensures
        ({
            let r = join_spec(a, b, d);
            let k = a.len() as int;
            0 < k < r.len() ==> !(r[k - 1] == d && r[k] == d)
        }),
{
}

/// Whether two character sequences are equal.
pub fn same_chars(a: &Vec<char>, b: &Vec<char>) -> (r: bool)
    ensures
        r == (a@ == b@),
{
    if a.len() != b.len() {
        return false;
    }
    let r = has_prefix(a, b);
    proof {
        assert(a@.take(b@.len() as int) =~= a@);
    }
    r
}

/// `a` comes strictly before `b` in code-point order.
pub open spec fn lex_lt(a: Seq<char>, b: Seq<char>) -> bool
    decreases a.len(),
{
    if a.len() == 0 || b.len() == 0 {
        a.len() < b.len()
    } else if a[0] != b[0] {
        (a[0] as int) < (b[0] as int)
    } else {
        lex_lt(a.skip(1), b.skip(1))
    }
}

/// `l` with `x` added, searching from index `j`: unchanged where `x` is met
/// first, else `x` goes before the first element it precedes, or last.
pub open spec fn ins(l: Seq<Seq<char>>, x: Seq<char>, j: int) -> Seq<Seq<char>>
    decreases l.len() - j,
{
    if j < 0 || j >= l.len() {
        l.push(x)
    } else if l[j] == x {
        l
    } else if lex_lt(x, l[j]) {
        l.insert(j, x)
    } else {
        ins(l, x, j + 1)
    }
}

/// Each element comes strictly before the next in code-point order: the list
/// is ordered and holds no repeats.
pub open spec fn sorted_strict(l: Seq<Seq<char>>) -> bool {
    forall|i: int, j: int| 0 <= i < j < l.len() ==> lex_lt(#[trigger] l[i], #[trigger] l[j])
}

/// Code-point order is transitive.
pub proof fn lemma_lex_trans(a: Seq<char>, b: Seq<char>, c: Seq<char>)
    requires
        lex_lt(a, b),
        lex_lt(b, c),
    ensures
        lex_lt(a, c),
    decreases a.len(),
{
    if a.len() > 0 && b.len() > 0 && c.len() > 0 && a[0] == b[0] && b[0] == c[0] {
        lemma_lex_trans(a.skip(1), b.skip(1), c.skip(1));
    }
}

/// Code-point order is total on distinct texts, and never both ways.
pub proof fn lemma_lex_total(a: Seq<char>, b: Seq<char>)
    ensures
        a != b ==> (lex_lt(a, b) || lex_lt(b, a)),
        !(lex_lt(a, b) && lex_lt(b, a)),
        !lex_lt(a, a),
    decreases a.len(),
{
    if a.len() > 0 && b.len() > 0 {
        if a[0] == b[0] {
            lemma_lex_total(a.skip(1), b.skip(1));
            if a.skip(1) == b.skip(1) {
                assert(a =~= seq![a[0]] + a.skip(1));
                assert(b =~= seq![b[0]] + b.skip(1));
            }
        } else {
            assert(a[0] as int != b[0] as int);
        }
    } else if a.len() == 0 && b.len() == 0 {
        assert(a =~= b);
    }
    if a.len() > 0 {
        lemma_lex_total(a.skip(1), a.skip(1));
    }
}

/// Inserting into a strictly ordered list keeps it strictly ordered.
pub proof fn lemma_ins_sorted(l: Seq<Seq<char>>, x: Seq<char>, j: int)
    requires
        sorted_strict(l),
        0 <= j <= l.len(),
        forall|i: int| 0 <= i < j ==> lex_lt(#[trigger] l[i], x),
    ensures
        sorted_strict(ins(l, x, j)),
    decreases l.len() - j,
{
    if j < l.len() {
        lemma_lex_total(x, l[j]);
        if l[j] == x {
        } else if lex_lt(x, l[j]) {
            let n = l.insert(j, x);
            assert forall|a: int, b: int| 0 <= a < b < n.len() implies lex_lt(#[trigger] n[a], #[trigger] n[b]) by {
                if b < j {
                    assert(n[a] == l[a] && n[b] == l[b]);
                } else if b == j {
                    assert(n[a] == l[a]);
                } else if a == j {
                    assert(n[b] == l[b - 1]);
                    if b - 1 > j {
                        lemma_lex_trans(x, l[j], l[b - 1]);
                    }
                } else if a < j {
                    assert(n[a] == l[a] && n[b] == l[b - 1]);
                } else {
                    assert(n[a] == l[a - 1] && n[b] == l[b - 1]);
                }
            }
        } else {
            lemma_ins_sorted(l, x, j + 1);
        }
    } else {
        let n = l.push(x);
        assert forall|a: int, b: int| 0 <= a < b < n.len() implies lex_lt(#[trigger] n[a], #[trigger] n[b]) by {
            if b < l.len() {
                assert(n[a] == l[a] && n[b] == l[b]);
            } else {
                assert(n[a] == l[a]);
            }
        }
    }
}

/// Whether `a` comes strictly before `b` in code-point order.
fn lex_less(a: &Vec<char>, b: &Vec<char>) -> (r: bool)
    ensures
        r == lex_lt(a@, b@),
{
    let mut i: usize = 0;
    assert(a@.skip(0) =~= a@ && b@.skip(0) =~= b@);
    while i < a.len() && i < b.len()
        invariant
            0 <= i <= a@.len(),
            i <= b@.len(),
            lex_lt(a@, b@) == lex_lt(a@.skip(i as int), b@.skip(i as int)),
        decreases a.len() - i,
    {
        if a[i] != b[i] {
            return char_le(a[i], b[i]);
        }
        assert(a@.skip(i as int).skip(1) =~= a@.skip(i + 1));
        assert(b@.skip(i as int).skip(1) =~= b@.skip(i + 1));
        i = i + 1;
    }
    assert(a@.skip(i as int).len() == 0 || b@.skip(i as int).len() == 0);
    a.len() < b.len()
}

/// Adds `s` to the ordered list `v` unless it is already there: before the
/// first element that it precedes in code-point order, or last.
pub fn insert_sorted(v: &mut Vec<String>, s: String)
    ensures
        strings_view(final(v)@) == ins(strings_view(old(v)@), s@, 0),
        sorted_strict(strings_view(old(v)@)) ==> sorted_strict(strings_view(final(v)@)),
        forall|x: Seq<char>|
            strings_view(final(v)@).contains(x) <==> (strings_view(old(v)@).contains(x) || x
                == s@),
{
    let sc = chars_of(s.as_str());
    let ghost o = strings_view(v@);
    let ghost sv = s@;

    let mut i: usize = 0;
    while i < v.len()
        invariant
            0 <= i <= v@.len(),
            v@ == old(v)@,
            o == strings_view(old(v)@),
            sc@ == s@,
            sv == s@,
            ins(o, sv, 0) == ins(o, sv, i as int),
        decreases v.len() - i,
    {
        let vc = chars_of(v[i].as_str());
        assert(o[i as int] == vc@);
        if same_chars(&vc, &sc) {
            assert(o.contains(sv));
            assert(strings_view(v@) == o);
            return;
        }
        if lex_less(&sc, &vc) {
            v.insert(i, s);
            proof {
                assert(strings_view(v@) =~= o.insert(i as int, sv));
                lemma_insert_contains(o, i as int, sv);
                if sorted_strict(o) {
                    lemma_ins_sorted(o, sv, 0);
                }
            }
            return;
        }
        i = i + 1;
    }
    let n = v.len();
    v.insert(n, s);
    proof {
        assert(strings_view(v@) =~= o.push(sv));
        assert(o.push(sv) =~= o.insert(n as int, sv));
        lemma_insert_contains(o, n as int, sv);
        assert(strings_view(v@) == o.insert(n as int, sv));
        assert(ins(o, sv, n as int) == o.push(sv));
        if sorted_strict(o) {
            lemma_ins_sorted(o, sv, 0);
        }
        assert forall|x: Seq<char>| strings_view(v@).contains(x) <==> (o.contains(x) || x == sv) by {
            assert(o.insert(n as int, sv).contains(x) <==> (o.contains(x) || x == sv));
        }
    }
}

pub proof fn lemma_insert_contains(o: Seq<Seq<char>>, i: int, sv: Seq<char>)
    requires
        0 <= i <= o.len(),
    ensures
        forall|x: Seq<char>| o.insert(i, sv).contains(x) <==> (o.contains(x) || x == sv),
{
    let n = o.insert(i, sv);
    assert forall|x: Seq<char>| n.contains(x) <==> (o.contains(x) || x == sv) by {
        if n.contains(x) {
            let j = choose|j: int| 0 <= j < n.len() && n[j] == x;
            if j < i {
                assert(o[j] == x);
            } else if j > i {
                assert(o[j - 1] == x);
            }
        }
        if o.contains(x) {
            let j = choose|j: int| 0 <= j < o.len() && o[j] == x;
            if j < i {
                assert(n[j] == x);
            } else {
                assert(n[j + 1] == x);
            }
        }
        if x == sv {
            assert(n[i] == x);
        }
    }
}

/// The elements of `s` in code-point order without repeats.
pub open spec fn sort_unique_spec(s: Seq<Seq<char>>) -> Seq<Seq<char>>
    decreases s.len(),
{
    if s.len() == 0 {
        seq![]
    } else {
        ins(sort_unique_spec(s.drop_last()), s.last(), 0)
    }
}

/// Inserting adds `x` and nothing else.
pub proof fn lemma_ins_contains(l: Seq<Seq<char>>, x: Seq<char>, j: int)
    requires
        0 <= j,
    ensures
        forall|y: Seq<char>| #[trigger] ins(l, x, j).contains(y) <==> (l.contains(y) || y == x),
    decreases l.len() - j,
{
    if j >= l.len() {
        lemma_insert_contains(l, l.len() as int, x);
        assert(l.insert(l.len() as int, x) =~= l.push(x));
        assert(ins(l, x, j) == l.push(x));
    } else if l[j] == x {
        assert(l.contains(x));
        assert(ins(l, x, j) == l);
    } else if lex_lt(x, l[j]) {
        lemma_insert_contains(l, j, x);
        assert(ins(l, x, j) == l.insert(j, x));
    } else {
        lemma_ins_contains(l, x, j + 1);
        assert(ins(l, x, j) == ins(l, x, j + 1));
    }
}

/// Sorting keeps exactly the elements, ordered without repeats.
pub proof fn lemma_sort_unique(s: Seq<Seq<char>>)
    ensures
        forall|y: Seq<char>| #[trigger] sort_unique_spec(s).contains(y) <==> s.contains(y),
        sorted_strict(sort_unique_spec(s)),
    decreases s.len(),
{
    if s.len() > 0 {
        lemma_sort_unique(s.drop_last());
        lemma_ins_contains(sort_unique_spec(s.drop_last()), s.last(), 0);
        lemma_ins_sorted(sort_unique_spec(s.drop_last()), s.last(), 0);
        assert forall|y: Seq<char>| s.contains(y) <==> (s.drop_last().contains(y) || y == s.last()) by {
            if s.contains(y) {
                let i = choose|i: int| 0 <= i < s.len() && s[i] == y;
                if i < s.len() - 1 {
                    assert(s.drop_last()[i] == y);
                }
            }
            if s.drop_last().contains(y) {
                let i = choose|i: int| 0 <= i < s.drop_last().len() && s.drop_last()[i] == y;
                assert(s[i] == y);
            }
            if y == s.last() {
                assert(s[s.len() - 1] == y);
            }
        }
    } else {
        assert(sort_unique_spec(s) =~= Seq::<Seq<char>>::empty());
    }
}

/// The strings of `v` in code-point order without repeats.
pub fn sort_unique(v: &Vec<String>) -> (r: Vec<String>)
    ensures
        strings_view(r@) == sort_unique_spec(strings_view(v@)),
{
    let mut out: Vec<String> = Vec::new();
    let mut i: usize = 0;
    while i < v.len()
        invariant
            0 <= i <= v@.len(),
            strings_view(out@) == sort_unique_spec(strings_view(v@).take(i as int)),
        decreases v.len() - i,
    {
        insert_sorted(&mut out, copy_str(v[i].as_str()));
        assert(strings_view(v@).take(i + 1).drop_last() =~= strings_view(v@).take(i as int));
        assert(strings_view(v@).take(i + 1).last() == v@[i as int]@);
        i = i + 1;
    }
    assert(strings_view(v@).take(v@.len() as int) =~= strings_view(v@));
    out
}

/// Two strictly ordered lists with the same elements are equal.
pub proof fn lemma_sorted_unique_eq(a: Seq<Seq<char>>, b: Seq<Seq<char>>)
    requires
        sorted_strict(a),
        sorted_strict(b),
        forall|y: Seq<char>| a.contains(y) <==> b.contains(y),
    ensures
        a == b,
    decreases a.len() + b.len(),
{
    if a.len() == 0 {
        if b.len() > 0 {
            assert(b.contains(b[0]));
        }
        assert(a =~= b);
    } else if b.len() == 0 {
        assert(a.contains(a[0]));
    } else {
        assert(a.contains(a[0]));
        assert(b.contains(b[0]));
        let j = choose|j: int| 0 <= j < b.len() && b[j] == a[0];
        let k = choose|k: int| 0 <= k < a.len() && a[k] == b[0];
        if j > 0 {
            assert(lex_lt(b[0], b[j]));
            if k > 0 {
                assert(lex_lt(a[0], a[k]));
                lemma_lex_total(a[0], b[0]);
            } else {
                lemma_lex_total(a[0], a[0]);
            }
        }
        assert(a[0] == b[0]);
        let a1 = a.skip(1);
        let b1 = b.skip(1);
        assert forall|y: Seq<char>| a1.contains(y) <==> b1.contains(y) by {
            if a1.contains(y) {
                let i = choose|i: int| 0 <= i < a1.len() && a1[i] == y;
                assert(a[i + 1] == y);
                assert(lex_lt(a[0], a[i + 1]));
                lemma_lex_total(y, y);
                assert(b.contains(y));
                let m = choose|m: int| 0 <= m < b.len() && b[m] == y;
                if m == 0 {
                    assert(false);
                }
                assert(b1[m - 1] == y);
            }
            if b1.contains(y) {
                let i = choose|i: int| 0 <= i < b1.len() && b1[i] == y;
                assert(b[i + 1] == y);
                assert(lex_lt(b[0], b[i + 1]));
                lemma_lex_total(y, y);
                assert(a.contains(y));
                let m = choose|m: int| 0 <= m < a.len() && a[m] == y;
                if m == 0 {
                    assert(false);
                }
                assert(a1[m - 1] == y);
            }
        }
        assert forall|x: int, z: int| 0 <= x < z < a1.len() implies lex_lt(#[trigger] a1[x], #[trigger] a1[z]) by {
            assert(a1[x] == a[x + 1] && a1[z] == a[z + 1]);
        }
        assert forall|x: int, z: int| 0 <= x < z < b1.len() implies lex_lt(#[trigger] b1[x], #[trigger] b1[z]) by {
            assert(b1[x] == b[x + 1] && b1[z] == b[z + 1]);
        }
        lemma_sorted_unique_eq(a1, b1);
        assert(a =~= seq![a[0]] + a1);
        assert(b =~= seq![b[0]] + b1);
    }
}

} // verus!
