//! Fixed-length vectors over integer coordinates and their squared Euclidean
//! distance.
//!
//! Coordinates are 32-bit signed integers, so every distance is an exact
//! natural number that fits in 128 bits whatever the dimension. A caller
//! whose data is real-valued scales and rounds it to this lattice first.

use vstd::prelude::*;

verus! {

/// The largest square that the difference of two coordinates can have.
pub const MAX_SQUARED_GAP: u128 = 18446744065119617025u128;

/// Square of the difference of two coordinates.
pub open spec fn squared_gap(a: i32, b: i32) -> nat {
    ((a - b) * (a - b)) as nat
}

/// Sum over the first `n` coordinates of the squared coordinate differences.
pub open spec fn squared_distance_upto(a: Seq<i32>, b: Seq<i32>, n: nat) -> nat
    decreases n,
{
    if n == 0 {
        0
    } else {
        squared_distance_upto(a, b, (n - 1) as nat) + squared_gap(a[n - 1], b[n - 1])
    }
}

/// Squared Euclidean distance between two coordinate sequences of equal
/// length: the sum of the squared coordinate differences.
pub open spec fn squared_distance_spec(a: Seq<i32>, b: Seq<i32>) -> nat {
    squared_distance_upto(a, b, a.len())
}

/// A single squared coordinate difference never exceeds `MAX_SQUARED_GAP`.
pub proof fn lemma_squared_gap_bound(a: i32, b: i32)
    ensures
        squared_gap(a, b) <= MAX_SQUARED_GAP,
        squared_gap(a, b) == squared_gap(b, a),
        squared_gap(a, a) == 0,
{
    let d = a - b;
    assert(-4294967295 <= d <= 4294967295);
    assert(d * d <= 18446744065119617025) by (nonlinear_arith)
        requires
            -4294967295 <= d <= 4294967295,
    ;
    assert(d * d >= 0) by (nonlinear_arith);
    assert((a - b) * (a - b) == (b - a) * (b - a)) by (nonlinear_arith);
}

/// The partial sums are bounded by `n` times the largest squared gap.
pub proof fn lemma_squared_distance_upto_bound(a: Seq<i32>, b: Seq<i32>, n: nat)
    ensures
        squared_distance_upto(a, b, n) <= n * MAX_SQUARED_GAP,
    decreases n,
{
    if n > 0 {
        lemma_squared_distance_upto_bound(a, b, (n - 1) as nat);
        lemma_squared_gap_bound(a[n - 1], b[n - 1]);
    }
}

/// Every squared distance fits in 128 bits, since a sequence held in memory
/// has fewer than 2^64 coordinates.
pub proof fn lemma_squared_distance_fits(a: Seq<i32>, b: Seq<i32>)
    requires
        a.len() <= usize::MAX,
    ensures
        squared_distance_spec(a, b) <= u128::MAX,
{
    lemma_squared_distance_upto_bound(a, b, a.len());
}

/// The squared distance is symmetric and vanishes between a sequence and
/// itself.
pub proof fn lemma_squared_distance_symmetric(a: Seq<i32>, b: Seq<i32>)
    requires
        a.len() == b.len(),
    ensures
        squared_distance_spec(a, b) == squared_distance_spec(b, a),
        squared_distance_spec(a, a) == 0,
{
    lemma_squared_distance_upto_symmetric(a, b, a.len());
}

proof fn lemma_squared_distance_upto_symmetric(a: Seq<i32>, b: Seq<i32>, n: nat)
    ensures
        squared_distance_upto(a, b, n) == squared_distance_upto(b, a, n),
        squared_distance_upto(a, a, n) == 0,
    decreases n,
{
    if n > 0 {
        lemma_squared_distance_upto_symmetric(a, b, (n - 1) as nat);
        lemma_squared_gap_bound(a[n - 1], b[n - 1]);
        lemma_squared_gap_bound(a[n - 1], a[n - 1]);
    }
}

/// An immutable vector of integer coordinates.
#[derive(Debug, Hash)]
pub struct Vector {
    data: Vec<i32>,
}

impl View for Vector {
    type V = Seq<i32>;

    closed spec fn view(&self) -> Seq<i32> {
        self.data@
    }
}

impl Vector {
    /// Wraps the given coordinates.
    pub fn new(data: Vec<i32>) -> (v: Self)
        ensures
            v@ == data@,
    {
        Vector { data }
    }

    /// The coordinates, in order.
    pub fn data(&self) -> (d: &Vec<i32>)
        ensures
            d@ == self@,
    {
        &self.data
    }

    /// A vector held in memory has fewer than 2^64 coordinates.
    pub proof fn lemma_len_fits(&self)
        ensures
            self@.len() <= usize::MAX,
    {
        assert(self.data.len() == self.data@.len());
    }

    /// Number of coordinates.
    pub fn len(&self) -> (n: usize)
        ensures
            n == self@.len(),
    {
        self.data.len()
    }

    /// Squared Euclidean distance to `other`, which must have the same
    /// number of coordinates.
    pub fn squared_distance(&self, other: &Self) -> (d: u128)
        requires
            self@.len() == other@.len(),
        ensures
            d == squared_distance_spec(self@, other@),
    {
        let n = self.data.len();
        let mut sum: u128 = 0;
        let mut i: usize = 0;
        while i < n
            invariant
                i <= n,
                n == self.data@.len(),
                n == other.data@.len(),
                sum == squared_distance_upto(self.data@, other.data@, i as nat),
                sum <= i * MAX_SQUARED_GAP,
            decreases n - i,
        {
            let gap: i64 = self.data[i] as i64 - other.data[i] as i64;
            proof {
                let a = self.data@[i as int];
                let b = other.data@[i as int];
                lemma_squared_gap_bound(a, b);
                assert(gap * gap == (a - b) * (a - b)) by (nonlinear_arith)
                    requires
                        gap == a - b,
                ;
                assert((a - b) * (a - b) >= 0) by (nonlinear_arith);
            }
            let square: u128 = (gap as i128 * gap as i128) as u128;
            sum = sum + square;
            i = i + 1;
        }
        sum
    }
}

impl Vector {
    /// Squared Euclidean distance to `other`, or `None` where the two
    /// vectors differ in their number of coordinates.
    pub fn checked_squared_distance(&self, other: &Self) -> (d: Option<u128>)
        ensures
            d is Some <==> self@.len() == other@.len(),
            d is Some ==> d->Some_0 == squared_distance_spec(self@, other@),
    {
        if self.data.len() == other.data.len() {
            Some(self.squared_distance(other))
        } else {
            None
        }
    }
}

impl PartialEq for Vector {
    /// Two vectors are equal where they have the same coordinates.
    fn eq(&self, other: &Self) -> (equal: bool) {
        if self.data.len() != other.data.len() {
            return false;
        }
        let mut i: usize = 0;
        while i < self.data.len()
            invariant
                i <= self.data@.len(),
                self.data@.len() == other.data@.len(),
                forall|k: int| 0 <= k < i ==> self.data@[k] == other.data@[k],
            decreases self.data@.len() - i,
        {
            if self.data[i] != other.data[i] {
                return false;
            }
            i = i + 1;
        }
        assert(self.data@ =~= other.data@);
        true
    }
}

impl Eq for Vector {

}

impl vstd::std_specs::cmp::PartialEqSpecImpl for Vector {
    open spec fn obeys_eq_spec() -> bool {
        true
    }

    open spec fn eq_spec(&self, other: &Self) -> bool {
        self@ == other@
    }
}

impl Clone for Vector {
    fn clone(&self) -> (v: Self)
        ensures
            v@ == self@,
    {
        let mut data: Vec<i32> = Vec::with_capacity(self.data.len());
        let mut i: usize = 0;
        while i < self.data.len()
            invariant
                i <= self.data@.len(),
                data@ == self.data@.take(i as int),
            decreases self.data@.len() - i,
        {
            data.push(self.data[i]);
            i = i + 1;
            assert(self.data@.take(i as int) == self.data@.take(i - 1).push(self.data@[i - 1]));
        }
        assert(self.data@.take(i as int) == self.data@);
        Vector { data }
    }
}

} // verus!
