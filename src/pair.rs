//! Triangular addressing of unordered node pairs.
use vstd::prelude::*;

verus! {

/// Number of unordered pairs of distinct nodes among `n` nodes.
pub open spec fn pair_count(n: int) -> int {
    n * (n - 1) / 2
}

/// `true` when `a` and `b` are two distinct nodes of a graph of `n` nodes.
pub open spec fn valid_pair(a: int, b: int, n: int) -> bool {
    0 <= a < n && 0 <= b < n && a != b
}

/// The dense index of the unordered pair `{a, b}`: the offset of `(min, max)` in
/// the strictly upper triangle of an `n` by `n` matrix, read row by row.
pub open spec fn encode_spec(a: int, b: int, n: int) -> int {
    let l = if a > b { b } else { a };
    let h = if a > b { a } else { b };
    l * n - (l + 1) * l / 2 + (h - l - 1)
}

/// First index of row `l` of the triangle.
pub open spec fn row_start(l: int, n: int) -> int {
    l * n - (l + 1) * l / 2
}

proof fn lemma_row_step(l: int, n: int)
    requires
        0 <= l,
    ensures
        row_start(l + 1, n) == row_start(l, n) + n - l - 1,
{
    assert((l + 2) * (l + 1) == (l + 1) * l + 2 * (l + 1)) by (nonlinear_arith);
    assert((l + 1) * n == l * n + n) by (nonlinear_arith);
}

proof fn lemma_row_start_at_zero(n: int)
    ensures
        row_start(0, n) == 0,
{
}

proof fn lemma_row_monotone(i: int, j: int, n: int)
    requires
        0 <= i <= j <= n,
    ensures
        row_start(i, n) <= row_start(j, n),
    decreases j - i,
{
    if i < j {
        lemma_row_monotone(i, j - 1, n);
        lemma_row_step(j - 1, n);
    }
}

/// The last row ends exactly at `pair_count(n)`.
proof fn lemma_row_end(n: int)
    requires
        n >= 1,
    ensures
        row_start(n - 1, n) + (n - (n - 1) - 1) == pair_count(n),
{
    let k = n / 2;
    let m = n * (n - 1);
    assert(m == (n - 1) * n) by (nonlinear_arith)
        requires
            m == n * (n - 1),
    ;
    if n % 2 == 0 {
        assert(m == 2 * (k * (n - 1))) by (nonlinear_arith)
            requires
                n == 2 * k,
                m == n * (n - 1),
        ;
    } else {
        assert(m == 2 * (n * k)) by (nonlinear_arith)
            requires
                n == 2 * k + 1,
                m == n * (n - 1),
        ;
    }
}

/// The index of a valid pair lies in row `min(a, b)`.
proof fn lemma_encode_row(a: int, b: int, n: int)
    requires
        valid_pair(a, b, n),
    ensures
        ({
            let l = if a > b { b } else { a };
            row_start(l, n) <= encode_spec(a, b, n) < row_start(l + 1, n)
        }),
{
    let l = if a > b { b } else { a };
    lemma_row_step(l, n);
}

/// The index of a valid pair lies in `[0, pair_count(n))`.
pub proof fn lemma_encode_in_range(a: int, b: int, n: int)
    requires
        valid_pair(a, b, n),
    ensures
        0 <= encode_spec(a, b, n) < pair_count(n),
{
    let l = if a > b { b } else { a };
    lemma_encode_row(a, b, n);
    lemma_row_start_at_zero(n);
    lemma_row_monotone(0, l, n);
    lemma_row_monotone(l + 1, n - 1, n);
    lemma_row_step(n - 1, n);
    lemma_row_end(n);
}

/// Swapping the two nodes of a pair does not change its index.
pub proof fn lemma_encode_symmetric(a: int, b: int, n: int)
    requires
        valid_pair(a, b, n),
    ensures
        encode_spec(a, b, n) == encode_spec(b, a, n),
{
}

/// Two valid pairs share an index only when they are the same unordered pair.
pub proof fn lemma_encode_injective(a: int, b: int, c: int, d: int, n: int)
    requires
        valid_pair(a, b, n),
        valid_pair(c, d, n),
        encode_spec(a, b, n) == encode_spec(c, d, n),
    ensures
        (a == c && b == d) || (a == d && b == c),
{
    let l1 = if a > b { b } else { a };
    let l2 = if c > d { d } else { c };
    lemma_encode_row(a, b, n);
    lemma_encode_row(c, d, n);
    if l1 < l2 {
        lemma_row_monotone(l1 + 1, l2, n);
    } else if l2 < l1 {
        lemma_row_monotone(l2 + 1, l1, n);
    }
}

proof fn lemma_encode_onto_from(l: int, k: int, n: int)
    requires
        0 <= l <= n - 2,
        row_start(l, n) <= k < pair_count(n),
    ensures
        exists|a: int, b: int| valid_pair(a, b, n) && encode_spec(a, b, n) == k,
    decreases n - l,
{
    lemma_row_step(l, n);
    if k < row_start(l + 1, n) {
        let b = k - row_start(l, n) + l + 1;
        assert(valid_pair(l, b, n) && encode_spec(l, b, n) == k);
    } else {
        if l + 1 == n - 1 {
            lemma_row_end(n);
        }
        lemma_encode_onto_from(l + 1, k, n);
    }
}

/// Every index in `[0, pair_count(n))` is the index of some pair: together with
/// `lemma_encode_in_range` and `lemma_encode_injective`, the encoding is a
/// bijection from unordered pairs onto `[0, pair_count(n))`.
pub proof fn lemma_encode_onto(k: int, n: int)
    requires
        n >= 2,
        0 <= k < pair_count(n),
    ensures
        exists|a: int, b: int| valid_pair(a, b, n) && encode_spec(a, b, n) == k,
{
    lemma_row_start_at_zero(n);
    lemma_encode_onto_from(0, k, n);
}

/// Number of unordered pairs of distinct nodes among `num_of_nodes` nodes.
pub fn num_pairs(num_of_nodes: i32) -> (r: usize)
    requires
        num_of_nodes >= 1,
        pair_count(num_of_nodes as int) <= usize::MAX,
    ensures
        r == pair_count(num_of_nodes as int),
{
    let n: u64 = num_of_nodes as u64;
    assert(0 <= n * (n - 1) <= 0x4000_0000_0000_0000) by (nonlinear_arith)
        requires
            1 <= n <= 0x8000_0000,
    ;
    (n * (n - 1) / 2) as usize
}

/// The index of the unordered pair `{a, b}` among the `n * (n - 1) / 2` pairs of
/// distinct nodes of a graph of `num_of_nodes` nodes.
pub fn encode(a: i32, b: i32, num_of_nodes: i32) -> (r: usize)
    requires
        valid_pair(a as int, b as int, num_of_nodes as int),
        pair_count(num_of_nodes as int) <= usize::MAX,
    ensures
        r as int == encode_spec(a as int, b as int, num_of_nodes as int),
        r < pair_count(num_of_nodes as int),
{
    proof {
        lemma_encode_in_range(a as int, b as int, num_of_nodes as int);
    }
    let l: i64;
    let h: i64;
    if a > b {
        h = a as i64;
        l = b as i64;
    } else {
        h = b as i64;
        l = a as i64;
    }
    let n: i64 = num_of_nodes as i64;
    assert(0 <= l * n <= 0x4000_0000_0000_0000) by (nonlinear_arith)
        requires
            0 <= l < n <= 0x8000_0000,
    ;
    assert(0 <= (l + 1) * l <= 0x4000_0000_0000_0000) by (nonlinear_arith)
        requires
            0 <= l < n <= 0x8000_0000,
    ;
    let r: i64 = l * n - (l + 1) * l / 2 + (h - l - 1);
    r as usize
}

} // verus!
