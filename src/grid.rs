//! The 3x3 grid: its permutation invariant, adjacency of positions and the
//! solved order.
use vstd::prelude::*;
use vstd::set_lib::{lemma_int_range, lemma_len_subset, set_int_range};

verus! {

/// Value that marks the open slot of the grid.
pub const EMPTY_TILE: i32 = 8;

/// `s` holds each of the values 0 to 8 exactly once.
pub open spec fn is_permutation(s: Seq<i32>) -> bool {
    &&& s.len() == 9
    &&& forall|i: int| 0 <= i < 9 ==> 0 <= #[trigger] s[i] < 9
    &&& forall|i: int, j: int| 0 <= i < 9 && 0 <= j < 9 && i != j ==> s[i] != s[j]
}

/// Every cell holds its own index: tiles in reading order, the empty
/// marker in the last slot.
pub open spec fn solved(s: Seq<i32>) -> bool {
    &&& s.len() == 9
    &&& forall|i: int| 0 <= i < 9 ==> #[trigger] s[i] == i
}

/// Each value of `s` is no greater than the next one.
pub open spec fn ascending(s: Seq<i32>) -> bool {
    forall|i: int| 0 <= i < s.len() - 1 ==> #[trigger] s[i] <= s[i + 1]
}

/// Positions `a` and `b` share a row and neighbour columns, or share a
/// column and neighbour rows.
pub open spec fn adjacent(a: int, b: int) -> bool {
    let (ra, ca, rb, cb) = (a / 3, a % 3, b / 3, b % 3);
    (ra == rb && (ca - cb == 1 || cb - ca == 1)) || (ca == cb && (ra - rb == 1 || rb - ra == 1))
}

/// `s` with the values at `a` and `b` exchanged.
pub open spec fn swapped(s: Seq<i32>, a: int, b: int) -> Seq<i32> {
    s.update(a, s[b]).update(b, s[a])
}

/// Adjacency is symmetric, and no position is adjacent to itself.
pub proof fn lemma_adjacent_symmetric_irreflexive(a: int, b: int)
    requires
        0 <= a < 9,
        0 <= b < 9,
    ensures
        adjacent(a, b) == adjacent(b, a),
        !adjacent(a, a),
{
}

/// Exchanging two in-range cells of a permutation leaves a permutation.
pub proof fn lemma_swap_keeps_permutation(s: Seq<i32>, a: int, b: int)
    requires
        is_permutation(s),
        0 <= a < 9,
        0 <= b < 9,
    ensures
        is_permutation(swapped(s, a, b)),
{
    let t = swapped(s, a, b);
    assert forall|i: int, j: int| 0 <= i < 9 && 0 <= j < 9 && i != j implies t[i] != t[j] by {
        let si = if i == b { a } else if i == a { b } else { i };
        let sj = if j == b { a } else if j == a { b } else { j };
        assert(t[i] == s[si] && t[j] == s[sj]);
    }
}

/// Each value 0 to 8 stands in some cell of a permutation.
pub proof fn lemma_permutation_has_value(s: Seq<i32>, v: i32)
    requires
        is_permutation(s),
        0 <= v < 9,
    ensures
        exists|i: int| 0 <= i < 9 && #[trigger] s[i] == v,
{
    if forall|i: int| 0 <= i < 9 ==> #[trigger] s[i] != v {
        let t = s.map_values(|x: i32| x as int);
        assert(t.no_duplicates()) by {
            assert forall|i: int, j: int| 0 <= i < t.len() && 0 <= j < t.len() && i != j implies t[i]
                != t[j] by {
                assert(s[i] != s[j]);
            }
        }
        t.unique_seq_to_set();
        let range = set_int_range(0, 9).remove(v as int);
        lemma_int_range(0, 9);
        assert(t.to_set().subset_of(range)) by {
            assert forall|x: int| t.to_set().contains(x) implies range.contains(x) by {
                let i = choose|i: int| 0 <= i < t.len() && t[i] == x;
                assert(s[i] != v);
            }
        }
        lemma_len_subset(t.to_set(), range);
    }
}

/// Decides whether positions `a` and `b` of the grid are neighbours.
pub fn is_adjacent(a: usize, b: usize) -> (r: bool)
    requires
        a < 9,
        b < 9,
    ensures
        r == adjacent(a as int, b as int),
{
    let (ra, ca, rb, cb) = (a / 3, a % 3, b / 3, b % 3);
    (ra == rb && (ca == cb + 1 || cb == ca + 1)) || (ca == cb && (ra == rb + 1 || rb == ra + 1))
}

/// Exchanges the values at `a` and `b`.
pub fn swap_tiles(tiles: &mut [i32; 9], a: usize, b: usize)
    requires
        a < 9,
        b < 9,
    ensures
        final(tiles)@ == swapped(old(tiles)@, a as int, b as int),
{
    let va = tiles[a];
    let vb = tiles[b];
    tiles[a] = vb;
    tiles[b] = va;
}

/// The draws of one Fisher-Yates pass: eight values, the one that serves
/// cell `i` (taken from 8 down to 1) at index `8 - i` and at most `i`.
pub open spec fn draws_in_range(d: Seq<u32>) -> bool {
    d.len() == 8 && forall|k: int| 0 <= k < 8 ==> #[trigger] d[k] <= 8 - k
}

/// `s` after the exchanges of a Fisher-Yates pass for cells `i` down to 1:
/// cell `i` is exchanged with cell `d[8 - i]`, then the pass goes on at
/// `i - 1`.
pub open spec fn fisher_yates(s: Seq<i32>, d: Seq<u32>, i: int) -> Seq<i32>
    decreases i,
{
    if i <= 0 {
        s
    } else {
        fisher_yates(swapped(s, i, d[8 - i] as int), d, i - 1)
    }
}

/// A Fisher-Yates pass over a permutation leaves a permutation.
pub proof fn lemma_fisher_yates_keeps_permutation(s: Seq<i32>, d: Seq<u32>, i: int)
    requires
        is_permutation(s),
        draws_in_range(d),
        i <= 8,
    ensures
        is_permutation(fisher_yates(s, d, i)),
    decreases i,
{
    if i > 0 {
        assert(d[8 - i] <= i);
        lemma_swap_keeps_permutation(s, i, d[8 - i] as int);
        lemma_fisher_yates_keeps_permutation(swapped(s, i, d[8 - i] as int), d, i - 1);
    }
}

/// Applies a Fisher-Yates pass with the given draws: for `i` from 8 down
/// to 1, exchanges cell `i` with cell `draws[8 - i]`.
pub fn fisher_yates_pass(tiles: &mut [i32; 9], draws: &[u32; 8])
    requires
        draws_in_range(draws@),
    ensures
        final(tiles)@ == fisher_yates(old(tiles)@, draws@, 8),
{
    let mut i: usize = 8;
    while i > 0
        invariant
            i <= 8,
            draws_in_range(draws@),
            fisher_yates(old(tiles)@, draws@, 8) == fisher_yates(tiles@, draws@, i as int),
        decreases i,
    {
        let j = draws[8 - i] as usize;
        assert(draws@[8 - i] <= i);
        swap_tiles(tiles, i, j);
        i = i - 1;
    }
}

/// Relies on iterator_sorted::is_sorted: true exactly when no value the
/// iterator yields is greater than the one after it.
#[verifier::external_body]
fn tiles_ascending(tiles: &[i32; 9]) -> (r: bool)
    ensures
        r == ascending(tiles@),
{
    iterator_sorted::is_sorted(tiles.iter())
}

proof fn lemma_increasing_gap(s: Seq<i32>, i: int, j: int)
    requires
        s.len() == 9,
        forall|k: int| 0 <= k < 8 ==> s[k] < #[trigger] s[k + 1],
        0 <= i <= j < 9,
    ensures
        s[j] - s[i] >= j - i,
    decreases j - i,
{
    if i < j {
        let k = j - 1;
        lemma_increasing_gap(s, i, k);
        assert(s[k] < s[k + 1]);
    }
}

proof fn lemma_ascending_permutation_is_solved(s: Seq<i32>)
    requires
        is_permutation(s),
        ascending(s),
    ensures
        solved(s),
{
    assert forall|i: int| 0 <= i < 8 implies s[i] < #[trigger] s[i + 1] by {
        assert(s[i] != s[i + 1]);
    }
    assert forall|i: int| 0 <= i < 9 implies #[trigger] s[i] == i by {
        lemma_increasing_gap(s, 0, i);
        lemma_increasing_gap(s, i, 8);
    }
}

/// Decides whether the grid is in solved order, each cell holding its own index.
pub fn is_won(tiles: &[i32; 9]) -> (r: bool)
    requires
        is_permutation(tiles@),
    ensures
        r == solved(tiles@),
{
    let r = tiles_ascending(tiles);
    proof {
        if r {
            lemma_ascending_permutation_is_solved(tiles@);
        }
    }
    r
}

/// The solved grid is won and every grid one exchange away from it is not.
pub proof fn lemma_won_only_when_solved(s: Seq<i32>, a: int, b: int)
    requires
        solved(s),
        0 <= a < 9,
        0 <= b < 9,
        a != b,
    ensures
        is_permutation(s),
        !solved(swapped(s, a, b)),
{
    assert(swapped(s, a, b)[a] == b);
}

} // verus!
