//! Access to the process-wide random source, behind trusted wrappers. The
//! random generators for codes draw single values here and do all further
//! work - uniqueness retries, field assembly - in verified code, which is
//! proved for every value these wrappers may hand back.

use vstd::prelude::*;

verus! {

/// Relies on rand::random for a uniformly distributed byte from the
/// thread-local generator. Nothing can be promised of a random value, so
/// this wrapper has no contract.
#[verifier::external_body]
pub(crate) fn random_u8() -> u8 {
    rand::random()
}

/// Relies on rand::random_range over `0..n` for a uniformly distributed
/// index. The range must not be empty (rand panics on an empty range), and
/// every value it returns lies inside the range.
#[verifier::external_body]
pub(crate) fn random_below(n: usize) -> (r: usize)
    requires
        1 <= n,
    ensures
        r < n,
{
    rand::random_range(0..n)
}

/// Removing an element from a duplicate-free sequence keeps it
/// duplicate-free, keeps only elements of the original, and removes every
/// occurrence of the element taken out.
proof fn lemma_remove_keeps_distinct(s: Seq<u8>, i: int)
    requires
        s.no_duplicates(),
        0 <= i < s.len(),
    ensures
        s.remove(i).no_duplicates(),
        !s.remove(i).contains(s[i]),
        forall|x: u8| s.remove(i).contains(x) ==> s.contains(x),
{
    let t = s.remove(i);
    assert forall|x: u8| t.contains(x) implies s.contains(x) by {
        let j = choose|j: int| 0 <= j < t.len() && t[j] == x;
        if j < i {
            assert(s[j] == x);
        } else {
            assert(s[j + 1] == x);
        }
    };
    if t.contains(s[i]) {
        let j = choose|j: int| 0 <= j < t.len() && t[j] == s[i];
        if j < i {
            assert(s[j] == s[i]);
        } else {
            assert(s[j + 1] == s[i]);
        }
    }
}

/// Draw `count` distinct values below `bound`, uniformly and without
/// replacement: each draw takes one entry out of the remaining candidates.
pub(crate) fn draw_distinct(count: usize, bound: usize) -> (r: Vec<u8>)
    requires
        count <= bound <= 255,
    ensures
        r@.len() == count,
        forall|i: int| 0 <= i < count ==> r@[i] < bound,
        r@.no_duplicates(),
{
    let mut candidates: Vec<u8> = Vec::new();
    let mut v: usize = 0;
    while v < bound
        invariant
            v <= bound <= 255,
            candidates@.len() == v,
            forall|j: int| 0 <= j < v ==> candidates@[j] == j,
        decreases bound - v,
    {
        candidates.push(v as u8);
        v = v + 1;
    }
    assert(candidates@.no_duplicates());
    assert(forall|x: u8| candidates@.contains(x) ==> x < bound);
    let mut result: Vec<u8> = Vec::new();
    let mut k: usize = 0;
    while k < count
        invariant
            k <= count <= bound,
            result@.len() == k,
            candidates@.len() == bound - k,
            candidates@.no_duplicates(),
            forall|x: u8| candidates@.contains(x) ==> x < bound,
            forall|i: int| 0 <= i < k ==> result@[i] < bound,
            forall|i: int| 0 <= i < k ==> !candidates@.contains(result@[i]),
            result@.no_duplicates(),
        decreases count - k,
    {
        let idx = random_below(candidates.len());
        let ghost before = candidates@;
        proof {
            lemma_remove_keeps_distinct(before, idx as int);
            assert(before.contains(before[idx as int]));
        }
        let picked = candidates.remove(idx);
        result.push(picked);
        proof {
            assert(candidates@ == before.remove(idx as int));
            assert forall|x: u8| candidates@.contains(x) implies x < bound by {
                assert(before.contains(x));
            };
            assert(forall|i: int| 0 <= i < k ==> result@[i] != picked);
            assert(result@.no_duplicates());
        }
        k = k + 1;
    }
    result
}

} // verus!
