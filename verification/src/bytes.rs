//! Byte-string helpers: case folding, comparison, and path-buffer editing.
use vstd::prelude::*;

verus! {

/// ASCII lower-casing of a single byte.
pub open spec fn spec_lower(c: u8) -> u8 {
    if 65 <= c <= 90 {
        (c + 32) as u8
    } else {
        c
    }
}

/// Equality of two bytes, optionally ignoring ASCII case.
pub open spec fn spec_ieq_byte(a: u8, b: u8, ignore_case: bool) -> bool {
    if ignore_case {
        spec_lower(a) == spec_lower(b)
    } else {
        a == b
    }
}

/// Equality of two byte strings, optionally ignoring ASCII case.
pub open spec fn spec_ieq(a: Seq<u8>, b: Seq<u8>, ignore_case: bool) -> bool {
    &&& a.len() == b.len()
    &&& forall|i: int| 0 <= i < a.len() ==> spec_ieq_byte(a[i], b[i], ignore_case)
}

/// Whether `p` is a prefix of `s`, optionally ignoring ASCII case.
pub open spec fn spec_is_prefix(p: Seq<u8>, s: Seq<u8>, ignore_case: bool) -> bool {
    &&& p.len() <= s.len()
    &&& spec_ieq(p, s.subrange(0, p.len() as int), ignore_case)
}

/// Compare the byte string starting at `a_start` in `a` against all of `b`.
pub fn region_ieq(a: &Vec<u8>, a_start: usize, b: &Vec<u8>, ignore_case: bool) -> (r: bool)
    requires
        a_start <= a@.len(),
    ensures
        r == spec_ieq(a@.subrange(a_start as int, a@.len() as int), b@, ignore_case),
{
    if a.len() - a_start != b.len() {
        return false;
    }
    let n = b.len();
    let a_len = a.len();
    let mut i: usize = 0;
    while i < n
        invariant
            n == b@.len(),
            a_len == a@.len(),
            a_start + n <= a_len,
            i <= n,
            forall|j: int| 0 <= j < i ==> spec_ieq_byte(a@[a_start + j], b@[j], ignore_case),
        decreases n - i,
    {
        let x = a[a_start + i];
        let y = b[i];
        let same = if ignore_case {
            let xl = if 65 <= x && x <= 90 { x + 32 } else { x };
            let yl = if 65 <= y && y <= 90 { y + 32 } else { y };
            xl == yl
        } else {
            x == y
        };
        if !same {
            assert(!spec_ieq_byte(a@[a_start + i], b@[i as int], ignore_case));
            return false;
        }
        i = i + 1;
    }
    true
}

/// Equality of two whole byte strings, optionally ignoring ASCII case.
pub fn bytes_ieq(a: &Vec<u8>, b: &Vec<u8>, ignore_case: bool) -> (r: bool)
    ensures
        r == spec_ieq(a@, b@, ignore_case),
{
    let r = region_ieq(a, 0, b, ignore_case);
    proof {
        assert(a@.subrange(0, a@.len() as int) =~= a@);
    }
    r
}

/// Whether `s` starts with `p`, optionally ignoring ASCII case.
pub fn starts_with_ieq(s: &Vec<u8>, p: &Vec<u8>, ignore_case: bool) -> (r: bool)
    ensures
        r == spec_is_prefix(p@, s@, ignore_case),
{
    if p.len() > s.len() {
        return false;
    }
    let n = p.len();
    let mut i: usize = 0;
    while i < n
        invariant
            n == p@.len(),
            n <= s@.len(),
            i <= n,
            forall|j: int| 0 <= j < i ==> spec_ieq_byte(p@[j], s@[j], ignore_case),
        decreases n - i,
    {
        let x = p[i];
        let y = s[i];
        let same = if ignore_case {
            let xl = if 65 <= x && x <= 90 { x + 32 } else { x };
            let yl = if 65 <= y && y <= 90 { y + 32 } else { y };
            xl == yl
        } else {
            x == y
        };
        if !same {
            assert(!spec_ieq_byte(p@[i as int], s@[i as int], ignore_case));
            assert(!spec_ieq(p@, s@.subrange(0, p@.len() as int), ignore_case));
            return false;
        }
        i = i + 1;
    }
    proof {
        assert forall|j: int| 0 <= j < n implies spec_ieq_byte(
            p@[j],
            s@.subrange(0, p@.len() as int)[j],
            ignore_case,
        ) by {
            assert(s@.subrange(0, p@.len() as int)[j] == s@[j]);
        }
    }
    true
}

/// An exact copy of a byte string.
pub fn clone_bytes(v: &Vec<u8>) -> (r: Vec<u8>)
    ensures
        r@ == v@,
{
    let mut r: Vec<u8> = Vec::new();
    let n = v.len();
    let mut i: usize = 0;
    while i < n
        invariant
            n == v@.len(),
            i <= n,
            r@ == v@.subrange(0, i as int),
        decreases n - i,
    {
        r.push(v[i]);
        proof {
            assert(r@ =~= v@.subrange(0, i + 1));
        }
        i = i + 1;
    }
    proof {
        assert(r@ =~= v@);
    }
    r
}

/// A copy of the bytes of `v` from `start` to `end`.
pub fn copy_range(v: &Vec<u8>, start: usize, end: usize) -> (r: Vec<u8>)
    requires
        start <= end <= v@.len(),
    ensures
        r@ == v@.subrange(start as int, end as int),
{
    let mut r: Vec<u8> = Vec::new();
    let mut i = start;
    proof {
        assert(r@ =~= v@.subrange(start as int, start as int));
    }
    while i < end
        invariant
            start <= i <= end <= v@.len(),
            r@ == v@.subrange(start as int, i as int),
        decreases end - i,
    {
        r.push(v[i]);
        proof {
            assert(r@ =~= v@.subrange(start as int, i + 1));
        }
        i = i + 1;
    }
    r
}

/// Append `tail` to `buf`.
pub fn append_bytes(buf: &mut Vec<u8>, tail: &Vec<u8>)
    ensures
        final(buf)@ == old(buf)@ + tail@,
{
    let n = tail.len();
    proof {
        assert(old(buf)@ + tail@.subrange(0, 0) =~= old(buf)@);
    }
    let mut i: usize = 0;
    while i < n
        invariant
            n == tail@.len(),
            i <= n,
            buf@ == old(buf)@ + tail@.subrange(0, i as int),
        decreases n - i,
    {
        buf.push(tail[i]);
        proof {
            assert(buf@ =~= old(buf)@ + tail@.subrange(0, i + 1));
        }
        i = i + 1;
    }
    proof {
        assert(buf@ =~= old(buf)@ + tail@);
    }
}

/// The byte string `.git`.
pub open spec fn spec_dot_git() -> Seq<u8> {
    seq![46u8, 103u8, 105u8, 116u8]
}

/// Whether the byte string starting at `start` in `rela_path` equals `.git`,
/// optionally ignoring ASCII case.
pub fn is_dot_git(rela_path: &Vec<u8>, start: usize, ignore_case: bool) -> (r: bool)
    requires
        start <= rela_path@.len(),
    ensures
        r == spec_ieq(
            rela_path@.subrange(start as int, rela_path@.len() as int),
            spec_dot_git(),
            ignore_case,
        ),
{
    let mut pat: Vec<u8> = Vec::new();
    pat.push(46);
    pat.push(103);
    pat.push(105);
    pat.push(116);
    proof {
        assert(pat@ =~= spec_dot_git());
    }
    region_ieq(rela_path, start, &pat, ignore_case)
}

} // verus!
