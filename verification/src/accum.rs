use vstd::prelude::*;
use crate::errors::EngineError;

verus! {

/// `2^k`.
pub open spec fn pow2(k: nat) -> nat
    decreases k,
{
    if k == 0 {
        1
    } else {
        2 * pow2((k - 1) as nat)
    }
}

/// The number of set bits of `m`.
pub open spec fn popcount(m: nat) -> nat
    decreases m,
{
    if m == 0 {
        0
    } else {
        m % 2 + popcount(m / 2)
    }
}

/// The inclusion-exclusion sign of the subset encoded by `m`: positive for
/// an odd number of members, negative for an even number.
pub open spec fn parity_sign(m: nat) -> int {
    if popcount(m) % 2 == 1 {
        1
    } else {
        -1
    }
}

/// Bit `i` of `mask` is set: the subset encoded by `mask` holds index `i`.
pub open spec fn bit_set(mask: nat, i: nat) -> bool {
    (mask / pow2(i)) % 2 == 1
}

/// The signed sum of the first `t` subset areas: area `mask - 1` of the
/// list carries the area of the subset encoded by `mask`, added with the
/// inclusion-exclusion sign of that subset.
pub open spec fn signed_sum_prefix(areas: Seq<i64>, t: int) -> int
    decreases t,
{
    if t <= 0 {
        0
    } else {
        signed_sum_prefix(areas, t - 1) + parity_sign(t as nat) * areas[t - 1]
    }
}

/// Powers of two are positive.
proof fn lemma_pow2_positive(k: nat)
    ensures
        pow2(k) >= 1,
    decreases k,
{
    if k > 0 {
        lemma_pow2_positive((k - 1) as nat);
    }
}

/// Whether the subset encoded by `mask` has an odd number of members.
pub fn odd_bits(mask: usize) -> (odd: bool)
    ensures
        odd == (popcount(mask as nat) % 2 == 1),
{
    let mut cur: usize = mask;
    let mut odd: bool = false;
    while cur > 0
        invariant
            (popcount(cur as nat) + (if odd {
                1nat
            } else {
                0nat
            })) % 2 == popcount(mask as nat) % 2,
        decreases cur,
    {
        if cur % 2 == 1 {
            odd = !odd;
        }
        cur = cur / 2;
    }
    odd
}

/// The indices below `n` whose bits are set in `mask`, in increasing
/// order: the members of the subset that `mask` encodes.
pub fn subset_members(mask: usize, n: usize) -> (r: Vec<usize>)
    ensures
        forall|k: int| 0 <= k < r@.len() ==> (#[trigger] r@[k]) < n,
        forall|k1: int, k2: int| 0 <= k1 < k2 < r@.len() ==> r@[k1] < r@[k2],
        forall|k: int| 0 <= k < r@.len() ==> bit_set(mask as nat, (#[trigger] r@[k]) as nat),
        forall|b: int|
            0 <= b < n && #[trigger] bit_set(mask as nat, b as nat) ==> exists|k: int|
                0 <= k < r@.len() && r@[k] == b,
{
    let mut r: Vec<usize> = Vec::new();
    let mut cur: usize = mask;
    let mut i: usize = 0;
    proof {
        assert(pow2(0) == 1);
        assert(mask as nat / 1 == mask as nat);
    }
    while i < n
        invariant
            i <= n,
            cur as nat == mask as nat / pow2(i as nat),
            forall|k: int| 0 <= k < r@.len() ==> (#[trigger] r@[k]) < i,
            forall|k1: int, k2: int| 0 <= k1 < k2 < r@.len() ==> r@[k1] < r@[k2],
            forall|k: int| 0 <= k < r@.len() ==> bit_set(mask as nat, (#[trigger] r@[k]) as nat),
            forall|b: int|
                0 <= b < i && #[trigger] bit_set(mask as nat, b as nat) ==> exists|k: int|
                    0 <= k < r@.len() && r@[k] == b,
        decreases n - i,
    {
        let ghost prev = r@;
        if cur % 2 == 1 {
            r.push(i);
            proof {
                assert(r@[r@.len() - 1] == i);
                assert(bit_set(mask as nat, i as nat));
            }
        }
        proof {
            assert forall|b: int|
                0 <= b < i + 1 && #[trigger] bit_set(mask as nat, b as nat) implies exists|k: int|
                    0 <= k < r@.len() && r@[k] == b by {
                if b < i {
                    let k = choose|k: int| 0 <= k < prev.len() && prev[k] == b;
                    assert(r@[k] == b);
                } else {
                    assert(!(cur % 2 == 1) ==> !bit_set(mask as nat, i as nat));
                    assert(r@[r@.len() - 1] == i);
                }
            }
            assert(cur as nat / 2 == mask as nat / pow2(i as nat + 1)) by {
                lemma_pow2_positive(i as nat);
                vstd::arithmetic::div_mod::lemma_div_denominator(
                    mask as int,
                    pow2(i as nat) as int,
                    2,
                );
                assert(pow2(i as nat + 1) == pow2(i as nat) * 2);
            }
        }
        cur = cur / 2;
        i = i + 1;
    }
    r
}

/// Adds the given per-subset intersection areas with inclusion-exclusion
/// signs: area `mask - 1` of the list belongs to the subset that `mask`
/// encodes, and subsets with an odd number of members count positively.
/// With no subsets at all the sum is zero, so a circle with no obstacles
/// shares no area with them.
pub fn signed_subset_sum(areas: &Vec<i64>) -> (total: i128)
    requires
        areas@.len() <= 0x1_0000_0000,
    ensures
        total == signed_sum_prefix(areas@, areas@.len() as int),
        areas@.len() == 0 ==> total == 0,
{
    let mut total: i128 = 0;
    let mut t: usize = 0;
    while t < areas.len()
        invariant
            t <= areas@.len(),
            areas@.len() <= 0x1_0000_0000,
            total == signed_sum_prefix(areas@, t as int),
            -0x8000_0000_0000_0000_0000_0000i128 <= total
                <= 0x8000_0000_0000_0000_0000_0000i128,
        decreases areas@.len() - t,
    {
        proof {
            lemma_signed_sum_prefix_bound(areas@, t as int);
            lemma_signed_sum_prefix_bound(areas@, t as int + 1);
        }
        let a = areas[t] as i128;
        if odd_bits(t + 1) {
            total = total + a;
        } else {
            total = total - a;
        }
        t = t + 1;
    }
    total
}

/// The signed prefix sum of `t` areas of 64 bits each stays within
/// `t * 2^63`.
proof fn lemma_signed_sum_prefix_bound(areas: Seq<i64>, t: int)
    requires
        0 <= t <= areas.len(),
    ensures
        -t * 0x8000_0000_0000_0000 <= signed_sum_prefix(areas, t) <= t * 0x8000_0000_0000_0000,
    decreases t,
{
    if t <= 0 {
    } else {
        lemma_signed_sum_prefix_bound(areas, t - 1);
        assert((t - 1) * 0x8000_0000_0000_0000 == t * 0x8000_0000_0000_0000
            - 0x8000_0000_0000_0000) by (nonlinear_arith);
        let sgn = parity_sign(t as nat);
        let a = areas[t - 1] as int;
        assert(sgn == 1 || sgn == -1);
        if sgn == 1 {
            assert(sgn * a == a) by (nonlinear_arith)
                requires
                    sgn == 1,
            ;
        } else {
            assert(sgn * a == -a) by (nonlinear_arith)
                requires
                    sgn == -1,
            ;
        }
        assert(sgn * a <= 0x8000_0000_0000_0000 && -0x8000_0000_0000_0000 <= sgn * a);
    }
}

/// Checks an accumulated union area against its provable bound: a total
/// intersection is meaningful only between zero and the focal circle's own
/// area.  A value outside that range is a numeric-consistency failure and
/// must not be passed off as a result.
pub fn validate_total(total: i128, focal_area: i128) -> (r: Result<i128, EngineError>)
    ensures
        match r {
            Ok(v) => v == total && 0 <= total <= focal_area,
            Err(e) => e == EngineError::NumericConsistency && !(0 <= total <= focal_area),
        },
{
    if 0 <= total && total <= focal_area {
        Ok(total)
    } else {
        Err(EngineError::NumericConsistency)
    }
}

} // verus!
