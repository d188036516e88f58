use vstd::prelude::*;

verus! {

/// The absolute difference of two features.
pub open spec fn abs_diff(x: i32, y: i32) -> int {
    if x >= y {
        x - y
    } else {
        y - x
    }
}

/// The sum of the absolute differences over the first `n` positions.
pub open spec fn manhattan_prefix(a: Seq<i32>, b: Seq<i32>, n: nat) -> int
    decreases n,
{
    if n == 0 {
        0
    } else {
        manhattan_prefix(a, b, (n - 1) as nat) + abs_diff(a[n - 1], b[n - 1])
    }
}

/// The Manhattan (L1) distance of two feature vectors of equal length.
pub open spec fn manhattan(a: Seq<i32>, b: Seq<i32>) -> int {
    manhattan_prefix(a, b, a.len())
}

/// A dissimilarity measure between two feature vectors of equal length.
pub trait Distance {
    /// The distance that `distance` computes.
    spec fn spec_distance(&self, a: Seq<i32>, b: Seq<i32>) -> int;

    /// Computes the distance between `a` and `b`.
    fn distance(&self, a: &Vec<i32>, b: &Vec<i32>) -> (r: u128)
        requires
            a@.len() == b@.len(),
        ensures
            r as int == self.spec_distance(a@, b@),
    ;
}

/// The Manhattan metric.
#[derive(Clone, Copy, Debug)]
pub struct Manhattan;

impl Distance for Manhattan {
    open spec fn spec_distance(&self, a: Seq<i32>, b: Seq<i32>) -> int {
        manhattan(a, b)
    }

    fn distance(&self, a: &Vec<i32>, b: &Vec<i32>) -> (r: u128) {
        manhattan_distance(a, b)
    }
}

/// Every term of the prefix sum is at most `u32::MAX`.
proof fn lemma_prefix_bounds(a: Seq<i32>, b: Seq<i32>, n: nat)
    requires
        n <= a.len(),
        n <= b.len(),
    ensures
        0 <= manhattan_prefix(a, b, n) <= n * 0xFFFF_FFFF,
    decreases n,
{
    if n > 0 {
        lemma_prefix_bounds(a, b, (n - 1) as nat);
    }
}

/// Computes the Manhattan distance of two feature vectors of equal length.
pub fn manhattan_distance(pixels1: &Vec<i32>, pixels2: &Vec<i32>) -> (r: u128)
    requires
        pixels1@.len() == pixels2@.len(),
    ensures
        r as int == manhattan(pixels1@, pixels2@),
{
    let n = pixels1.len();
    let mut sum: u128 = 0;
    let mut i: usize = 0;
    while i < n
        invariant
            n == pixels1@.len(),
            n == pixels2@.len(),
            i <= n,
            sum as int == manhattan_prefix(pixels1@, pixels2@, i as nat),
        decreases n - i,
    {
        let d: i64 = pixels1[i] as i64 - pixels2[i] as i64;
        let ad: u128 = if d >= 0 {
            d as u128
        } else {
            (-d) as u128
        };
        proof {
            lemma_prefix_bounds(pixels1@, pixels2@, (i + 1) as nat);
            assert((i + 1) * 0xFFFF_FFFFnat <= 0x1_0000_0000_0000_0000nat * 0xFFFF_FFFFnat)
                by (nonlinear_arith)
                requires
                    i + 1 <= 0x1_0000_0000_0000_0000nat,
            ;
        }
        sum = sum + ad;
        i = i + 1;
    }
    sum
}

/// Manhattan distance is symmetric: `manhattan(a, b) == manhattan(b, a)` for
/// vectors of equal length.
pub proof fn lemma_manhattan_symmetric(a: Seq<i32>, b: Seq<i32>)
    requires
        a.len() == b.len(),
    ensures
        manhattan(a, b) == manhattan(b, a),
{
    lemma_prefix_symmetric(a, b, a.len());
}

proof fn lemma_prefix_symmetric(a: Seq<i32>, b: Seq<i32>, n: nat)
    ensures
        manhattan_prefix(a, b, n) == manhattan_prefix(b, a, n),
    decreases n,
{
    if n > 0 {
        lemma_prefix_symmetric(a, b, (n - 1) as nat);
    }
}

/// Manhattan distance is never negative, and is zero exactly when the two
/// vectors of equal length hold the same features.
pub proof fn lemma_manhattan_nonnegative_and_identity(a: Seq<i32>, b: Seq<i32>)
    requires
        a.len() == b.len(),
    ensures
        manhattan(a, b) >= 0,
        manhattan(a, a) == 0,
        manhattan(a, b) == 0 <==> a == b,
{
    lemma_prefix_bounds(a, b, a.len());
    lemma_prefix_zero(a, a, a.len());
    lemma_prefix_zero(a, b, a.len());
    if manhattan(a, b) == 0 {
        assert(a =~= b);
    }
}

/// The prefix sum is zero exactly when the vectors agree on the prefix.
proof fn lemma_prefix_zero(a: Seq<i32>, b: Seq<i32>, n: nat)
    requires
        n <= a.len(),
        n <= b.len(),
    ensures
        manhattan_prefix(a, b, n) == 0 <==> (forall|i: int| 0 <= i < n ==> a[i] == b[i]),
    decreases n,
{
    if n > 0 {
        lemma_prefix_zero(a, b, (n - 1) as nat);
        lemma_prefix_bounds(a, b, (n - 1) as nat);
    }
}

} // verus!
