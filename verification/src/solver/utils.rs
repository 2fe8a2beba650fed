use vstd::prelude::*;

verus! {

/// Marker for an empty slot in index arrays.
pub const EMPTY: isize = -1;

/// Bytes in one numeric storage unit of the LU factors (a double).
pub const UNIT_BYTES: usize = 8;

/// Negation about -1: maps `i >= 0` to `-i - 2 <= -2` and back.
pub open spec fn spec_flip(x: int) -> int {
    -x - 2
}

/// The marked form of a value: values below -1 are flipped back.
pub open spec fn spec_unflip(x: int) -> int {
    if x < -1 {
        spec_flip(x)
    } else {
        x
    }
}

/// negation about -1, used to mark an integer i that is normally non-negative.
pub fn flip(x: isize) -> (r: isize)
    requires
        isize::MIN < x < isize::MAX,
    ensures
        r == spec_flip(x as int),
{
    -x - 2
}

/// A value is flipped (marked) when it is below -1.
pub fn is_flipped(x: isize) -> (r: bool)
    ensures
        r == (x < -1),
{
    x < -1
}

/// Removes the mark of a flipped value; other values are returned unchanged.
pub fn unflip(x: isize) -> (r: isize)
    requires
        x > isize::MIN,
    ensures
        r == spec_unflip(x as int),
        r >= -1,
{
    if is_flipped(x) {
        flip(x)
    } else {
        x
    }
}

/// Flipping twice gives the value back, flipping marks exactly the
/// non-negative values, and unflipping undoes a flip.
pub proof fn lemma_flip_involution(x: int)
    ensures
        spec_flip(spec_flip(x)) == x,
        x >= 0 <==> spec_flip(x) < -1,
        x >= -1 ==> spec_unflip(spec_flip(x)) == x,
        x >= -1 ==> spec_unflip(x) == x,
{
}

/// KLU's `DUNITS`: the number of storage units (doubles) needed to hold `n`
/// values of type `T`, rounding up; an error when the byte count overflows.
pub fn dunits<T>(n: usize) -> (r: Result<usize, String>)
    ensures
        match r {
            Ok(u) => vstd::layout::size_of::<T>() * n + UNIT_BYTES - 1 <= usize::MAX
                && u == (vstd::layout::size_of::<T>() * n + UNIT_BYTES - 1) / (UNIT_BYTES as int),
            Err(_) => vstd::layout::size_of::<T>() * n + UNIT_BYTES - 1 > usize::MAX,
        },
{
    let type_bytes = core::mem::size_of::<T>();
    // bytes = sizeof(T) * n  (checked to avoid overflow)
    let bytes = match type_bytes.checked_mul(n) {
        Some(b) => b,
        None => {
            proof {
                assert(type_bytes * n + UNIT_BYTES - 1 > usize::MAX) by (nonlinear_arith)
                    requires
                        type_bytes * n > usize::MAX,
                ;
            }
            return Err("overflow computing DUNITS byte count".to_owned());
        },
    };
    // ceil(bytes / unit_bytes)
    match bytes.checked_add(UNIT_BYTES - 1) {
        Some(b) => Ok(b / UNIT_BYTES),
        None => Err("overflow computing DUNITS units".to_owned()),
    }
}

/// `p[0..n]` is a permutation of `0..n`.
pub open spec fn is_permutation(p: Seq<isize>, n: int) -> bool {
    &&& p.len() >= n
    &&& forall|k: int| 0 <= k < n ==> 0 <= #[trigger] p[k] < n
    &&& forall|i: int, j: int| 0 <= i < n && 0 <= j < n && i != j ==> #[trigger] p[i] != #[trigger] p[j]
}

/// Every value below `n` is taken by a permutation of `0..n`.
pub proof fn lemma_permutation_onto(p: Seq<isize>, n: int, j: int)
    requires
        n >= 0,
        is_permutation(p, n),
        0 <= j < n,
    ensures
        exists|k: int| 0 <= k < n && #[trigger] p[k] == j,
{
    let x = vstd::set_lib::set_int_range(0, n);
    let f = |k: int| p[k] as int;
    vstd::set_lib::lemma_int_range(0, n);
    assert(vstd::relations::injective_on(f, x)) by {
        assert forall|a: int, b: int| x.contains(a) && x.contains(b) && #[trigger] f(a) == #[trigger] f(b) implies a == b by {
            if a != b {
                assert(p[a] != p[b]);
            }
        }
    }
    let y = x.map(f);
    vstd::set_lib::lemma_map_size(x, y, f);
    assert(y.subset_of(x)) by {
        assert forall|v: int| y.contains(v) implies x.contains(v) by {
            let k = choose|k: int| x.contains(k) && f(k) == v;
            assert(0 <= p[k] < n);
        }
    }
    vstd::set_lib::lemma_subset_equality(y, x);
    assert(y.contains(j));
    let k = choose|k: int| x.contains(k) && f(k) == j;
    assert(p[k] == j);
}

/// Writes the inverse of the permutation `permutation[0..n]` into `inverse[0..n]`.
pub fn inverse_permutation(n: usize, permutation: &[isize], inverse: &mut [isize])
    requires
        n <= isize::MAX,
        is_permutation(permutation@, n as int),
        old(inverse)@.len() >= n,
    ensures
        final(inverse)@.len() == old(inverse)@.len(),
        forall|k: int| 0 <= k < n ==> #[trigger] final(inverse)@[permutation@[k] as int] == k,
        forall|j: int| 0 <= j < n ==> 0 <= #[trigger] final(inverse)@[j] < n && permutation@[final(inverse)@[j] as int] == j,
        forall|j: int| n <= j < final(inverse)@.len() ==> #[trigger] final(inverse)@[j] == old(inverse)@[j],
{
    let mut k: usize = 0;
    while k < n
        invariant
            k <= n,
            n <= isize::MAX,
            is_permutation(permutation@, n as int),
            inverse@.len() == old(inverse)@.len(),
            inverse@.len() >= n,
            n <= permutation@.len(),
            forall|i: int| 0 <= i < k ==> #[trigger] inverse@[permutation@[i] as int] == i,
            forall|j: int| n <= j < inverse@.len() ==> #[trigger] inverse@[j] == old(inverse)@[j],
        decreases n - k,
    {
        let target = permutation[k] as usize;
        proof {
            assert(0 <= permutation@[k as int] < n);
        }
        inverse[target] = k as isize;
        proof {
            assert forall|i: int| 0 <= i < k + 1 implies #[trigger] inverse@[permutation@[i] as int] == i by {
                if i < k {
                    assert(permutation@[i] != permutation@[k as int]);
                } else {
                    assert(inverse@[permutation@[k as int] as int] == k as isize);
                }
            }
        }
        k = k + 1;
    }
    proof {
        assert forall|j: int| 0 <= j < n implies 0 <= #[trigger] inverse@[j] < n && permutation@[inverse@[j] as int] == j by {
            lemma_permutation_onto(permutation@, n as int, j);
            let i = choose|i: int| 0 <= i < n && #[trigger] permutation@[i] == j;
            assert(inverse@[permutation@[i] as int] == i);
        }
    }
}

} // verus!

verus! {

/// A sequence of distinct indices below `n` has at most `n` elements.
pub proof fn lemma_distinct_indices_bound(s: Seq<usize>, n: int)
    requires
        n >= 0,
        s.no_duplicates(),
        forall|i: int| 0 <= i < s.len() ==> #[trigger] s[i] < n,
    ensures
        s.len() <= n,
{
    let t = s.map_values(|x: usize| x as int);
    assert(t.no_duplicates()) by {
        assert forall|i: int, j: int| 0 <= i < t.len() && 0 <= j < t.len() && i != j implies t[i]
            != t[j] by {
            assert(s[i] != s[j]);
        }
    }
    t.unique_seq_to_set();
    assert(t.len() == s.len());
    {
        vstd::set_lib::lemma_int_range(0, n);
        assert forall|x: int| t.to_set().contains(x) implies vstd::set_lib::set_int_range(0, n).contains(x) by {
            let i = choose|i: int| 0 <= i < t.len() && t[i] == x;
            assert(s[i] < n);
        }
        assert(t.to_set().subset_of(vstd::set_lib::set_int_range(0, n)));
        vstd::set_lib::lemma_len_subset(t.to_set(), vstd::set_lib::set_int_range(0, n));
        assert(t.to_set().len() <= n);
        assert(t.len() == t.to_set().len());
    }
}

} // verus!

verus! {

/// An arithmetic overflow while sizing solver storage, with what was being sized.
#[derive(Debug, Clone, Copy, PartialEq, Eq)]
pub enum SolverOverflowError {
    Overflow { context: &'static str },
}

} // verus!
