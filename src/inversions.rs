//! Counting out-of-order pairs in a tile sequence.
use vstd::prelude::*;

verus! {

/// How many values of `s` are strictly smaller than `x`.
pub open spec fn count_smaller(x: i32, s: Seq<i32>) -> nat
    decreases s.len(),
{
    if s.len() == 0 {
        0
    } else {
        count_smaller(x, s.drop_last()) + if s.last() < x {
            1nat
        } else {
            0nat
        }
    }
}

/// Number of index pairs `i < j` of `s` with `s[i] > s[j]`.
pub open spec fn inversions(s: Seq<i32>) -> nat
    decreases s.len(),
{
    if s.len() == 0 {
        0
    } else {
        count_smaller(s[0], s.subrange(1, s.len() as int)) + inversions(
            s.subrange(1, s.len() as int),
        )
    }
}

/// `s` with every occurrence of `marker` taken out, the order of the rest kept.
pub open spec fn without(s: Seq<i32>, marker: i32) -> Seq<i32> {
    s.filter(|x: i32| x != marker)
}

/// Number of inversions of `s` once the empty marker is ignored.
pub open spec fn inversions_without(s: Seq<i32>, marker: i32) -> nat {
    inversions(without(s, marker))
}

proof fn lemma_count_smaller_bound(x: i32, s: Seq<i32>)
    ensures
        count_smaller(x, s) <= s.len(),
    decreases s.len(),
{
    if s.len() > 0 {
        lemma_count_smaller_bound(x, s.drop_last());
    }
}

proof fn lemma_inversions_bound(s: Seq<i32>)
    ensures
        inversions(s) <= s.len() * s.len(),
    decreases s.len(),
{
    if s.len() > 0 {
        let rest = s.subrange(1, s.len() as int);
        lemma_count_smaller_bound(s[0], rest);
        lemma_inversions_bound(rest);
        assert(rest.len() * rest.len() + rest.len() <= s.len() * s.len()) by (nonlinear_arith)
            requires
                rest.len() + 1 == s.len(),
        ;
    }
}

proof fn lemma_count_smaller_prefix(x: i32, s: Seq<i32>, k: int)
    requires
        0 <= k <= s.len(),
    ensures
        count_smaller(x, s.subrange(0, k)) <= count_smaller(x, s),
    decreases s.len() - k,
{
    if k < s.len() {
        assert(s.subrange(0, k + 1).drop_last() =~= s.subrange(0, k));
        lemma_count_smaller_prefix(x, s, k + 1);
    } else {
        assert(s.subrange(0, k) =~= s);
    }
}

proof fn lemma_none_smaller(x: i32, s: Seq<i32>)
    requires
        forall|k: int| 0 <= k < s.len() ==> x <= #[trigger] s[k],
    ensures
        count_smaller(x, s) == 0,
    decreases s.len(),
{
    if s.len() > 0 {
        lemma_none_smaller(x, s.drop_last());
    }
}

/// A strictly increasing sequence has no inversions.
pub proof fn lemma_increasing_no_inversions(s: Seq<i32>)
    requires
        forall|i: int, j: int| 0 <= i < j < s.len() ==> s[i] < s[j],
    ensures
        inversions(s) == 0,
    decreases s.len(),
{
    if s.len() > 0 {
        let rest = s.subrange(1, s.len() as int);
        assert forall|k: int| 0 <= k < rest.len() implies s[0] <= #[trigger] rest[k] by {
            assert(rest[k] == s[k + 1]);
        }
        lemma_none_smaller(s[0], rest);
        assert forall|i: int, j: int| 0 <= i < j < rest.len() implies rest[i] < rest[j] by {
            assert(rest[i] == s[i + 1] && rest[j] == s[j + 1]);
        }
        lemma_increasing_no_inversions(rest);
    }
}

/// Copies `array` leaving out every occurrence of `marker`.
fn remove_marker(array: &Vec<i32>, marker: i32) -> (r: Vec<i32>)
    ensures
        r@ == without(array@, marker),
{
    let mut r: Vec<i32> = Vec::new();
    let mut i: usize = 0;
    while i < array.len()
        invariant
            i <= array.len(),
            r@ == without(array@.subrange(0, i as int), marker),
        decreases array.len() - i,
    {
        let x = array[i];
        proof {
            let pre = array@.subrange(0, i as int + 1);
            assert(pre.drop_last() =~= array@.subrange(0, i as int));
            reveal(Seq::filter);
        }
        if x != marker {
            r.push(x);
        }
        i = i + 1;
    }
    assert(array@.subrange(0, array.len() as int) =~= array@);
    r
}

/// Counts the pairs `i < j` of `array`, the empty marker left out, whose
/// values are out of ascending order.
pub fn count_inversions(array: &Vec<i32>, empty_tile: i32) -> (r: u64)
    requires
        array.len() <= u32::MAX,
    ensures
        r == inversions_without(array@, empty_tile),
{
    let a = remove_marker(array, empty_tile);
    let n = a.len();
    proof {
        lemma_inversions_bound(a@);
        assert(a@.len() <= array@.len()) by {
            a@.lemma_filter_len(|x: i32| x != empty_tile);
        }
        assert(n * n <= u32::MAX * u32::MAX) by (nonlinear_arith)
            requires
                n <= u32::MAX,
        ;
    }
    assert(a@.subrange(0, n as int) =~= a@);
    let mut count: u64 = 0;
    let mut i: usize = 0;
    while i < n
        invariant
            n == a.len(),
            i <= n,
            inversions(a@) <= n * n,
            n * n <= u32::MAX * u32::MAX,
            count + inversions(a@.subrange(i as int, n as int)) == inversions(a@),
        decreases n - i,
    {
        let x = a[i];
        let ghost base = count;
        let ghost tail = a@.subrange(i as int, n as int);
        let ghost rest = a@.subrange(i + 1, n as int);
        assert(tail.subrange(1, tail.len() as int) =~= rest);
        let mut j: usize = i + 1;
        while j < n
            invariant
                n == a.len(),
                i < j <= n,
                x == a@[i as int],
                rest == a@.subrange(i + 1, n as int),
                inversions(a@) <= n * n,
                n * n <= u32::MAX * u32::MAX,
                count == base + count_smaller(x, a@.subrange(i + 1, j as int)),
                base + count_smaller(x, rest) + inversions(rest) == inversions(a@),
            decreases n - j,
        {
            proof {
                assert(a@.subrange(i + 1, j + 1).drop_last() =~= a@.subrange(i + 1, j as int));
                assert(rest.subrange(0, j + 1 - (i + 1)) =~= a@.subrange(i + 1, j + 1));
                lemma_count_smaller_prefix(x, rest, j + 1 - (i + 1));
            }
            if x > a[j] {
                count = count + 1;
            }
            j = j + 1;
        }
        assert(rest.subrange(0, rest.len() as int) =~= a@.subrange(i + 1, j as int));
        i = i + 1;
    }
    assert(a@.subrange(n as int, n as int).len() == 0);
    count
}

} // verus!
