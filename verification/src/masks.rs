//! Subsets of a run of places written as bit masks, as the enumeration of
//! both halves of the entries uses them.

use vstd::prelude::*;
use crate::entry::{NumberEntry, Goal};
use crate::paths::{is_path, path_sum, hits, no_hit, lemma_path_sum_push};

verus! {

/// Bit `b` of `mask` is set.
pub open spec fn bit_set(mask: u64, b: int) -> bool {
    mask & (1u64 << (b as u64)) != 0
}

/// The number of subsets of `len` places: two to the power `len`.
pub open spec fn subsets(len: int) -> u64 {
    1u64 << (len as u64)
}

/// The sum of the values at the places `off + b` for the set bits `b` below
/// `len`.
pub open spec fn mask_sum(s: Seq<NumberEntry>, off: int, len: int, mask: u64) -> int
    decreases len,
{
    if len <= 0 {
        0
    } else {
        mask_sum(s, off, len - 1, mask) + if bit_set(mask, len - 1) {
            s[off + len - 1].value as int
        } else {
            0
        }
    }
}

/// The number of set bits below `len`.
pub open spec fn mask_count(len: int, mask: u64) -> int
    decreases len,
{
    if len <= 0 {
        0
    } else {
        mask_count(len - 1, mask) + if bit_set(mask, len - 1) {
            1int
        } else {
            0
        }
    }
}

/// The places `off + b` for the set bits `b` below `len`, in rising order.
pub open spec fn mask_path(off: int, len: int, mask: u64) -> Seq<usize>
    decreases len,
{
    if len <= 0 {
        Seq::empty()
    } else {
        let rest = mask_path(off, len - 1, mask);
        if bit_set(mask, len - 1) {
            rest.push((off + len - 1) as usize)
        } else {
            rest
        }
    }
}

/// The path that a mask for the places below `mid` and a mask for the places
/// from `mid` on select together.
pub open spec fn joined(mid: int, n: int, lmask: u64, rmask: u64) -> Seq<usize> {
    mask_path(0, mid, lmask) + mask_path(mid, n - mid, rmask)
}

/// The two masks together select a path that meets the goal.
pub open spec fn pair_hits(s: Seq<NumberEntry>, g: Goal, mid: int, lmask: u64, rmask: u64) -> bool {
    &&& mask_sum(s, 0, mid, lmask) + mask_sum(s, mid, s.len() - mid, rmask) == g.target
    &&& g.min_count <= mask_count(mid, lmask) + mask_count(s.len() - mid, rmask) <= g.max_count
}

/// Tests bit `bit` of `mask`.
pub fn has_bit(mask: u64, bit: usize) -> (r: bool)
    requires
        bit < 64,
    ensures
        r == bit_set(mask, bit as int),
{
    mask & (1u64 << (bit as u64)) != 0
}

/// The number of subsets of `len` places.
pub fn subset_count(len: usize) -> (r: u64)
    requires
        len < 64,
    ensures
        r == subsets(len as int),
        r > 0,
{
    let k = len as u64;
    assert((1u64 << k) > 0) by (bit_vector)
        requires
            k < 64,
    ;
    1u64 << k
}

/// The sum and the count of what a mask selects grow with the number of
/// places looked at, and the count is at most that number.
pub proof fn lemma_mask_sum_rises(s: Seq<NumberEntry>, off: int, a: int, b: int, mask: u64)
    requires
        a <= b,
    ensures
        0 <= mask_sum(s, off, a, mask) <= mask_sum(s, off, b, mask),
        0 <= mask_count(a, mask) <= mask_count(b, mask),
        mask_count(b, mask) <= if b >= 0 { b } else { 0 },
    decreases b,
{
    if b <= 0 {
    } else if a == b {
        lemma_mask_sum_rises(s, off, a - 1, a - 1, mask);
    } else {
        lemma_mask_sum_rises(s, off, a, b - 1, mask);
    }
}

/// What a mask selects is a path within its run of places, with as many
/// places as the mask has bits set, and it sums to what the mask sums to.
pub proof fn lemma_mask_path(s: Seq<NumberEntry>, off: int, len: int, mask: u64)
    requires
        0 <= off,
        0 <= len,
        off + len <= s.len() <= usize::MAX,
    ensures
        is_path(mask_path(off, len, mask), (off + len) as nat),
        forall|k: int| 0 <= k < mask_path(off, len, mask).len() ==> mask_path(off, len, mask)[k] >= off,
        mask_path(off, len, mask).len() == mask_count(len, mask),
        path_sum(s, mask_path(off, len, mask)) == mask_sum(s, off, len, mask),
    decreases len,
{
    if len > 0 {
        lemma_mask_path(s, off, len - 1, mask);
        let rest = mask_path(off, len - 1, mask);
        if bit_set(mask, len - 1) {
            lemma_path_sum_push(s, rest, (off + len - 1) as usize);
        }
    }
}

/// The sum over a path made of two parts is the sum over the parts.
pub proof fn lemma_path_sum_concat(s: Seq<NumberEntry>, a: Seq<usize>, b: Seq<usize>)
    ensures
        path_sum(s, a + b) == path_sum(s, a) + path_sum(s, b),
    decreases b.len(),
{
    if b.len() == 0 {
        assert(a + b =~= a);
    } else {
        lemma_path_sum_concat(s, a, b.drop_last());
        assert((a + b).drop_last() =~= a + b.drop_last());
    }
}

/// What two masks select together is a path that sums to what the masks sum
/// to and is as long as they have bits set.
pub proof fn lemma_joined(s: Seq<NumberEntry>, mid: int, lmask: u64, rmask: u64)
    requires
        0 <= mid <= s.len() <= usize::MAX,
    ensures
        is_path(joined(mid, s.len() as int, lmask, rmask), s.len()),
        joined(mid, s.len() as int, lmask, rmask).len() == mask_count(mid, lmask) + mask_count(
            s.len() - mid,
            rmask,
        ),
        path_sum(s, joined(mid, s.len() as int, lmask, rmask)) == mask_sum(s, 0, mid, lmask)
            + mask_sum(s, mid, s.len() - mid, rmask),
{
    let a = mask_path(0, mid, lmask);
    let b = mask_path(mid, s.len() - mid, rmask);
    lemma_mask_path(s, 0, mid, lmask);
    lemma_mask_path(s, mid, s.len() - mid, rmask);
    lemma_path_sum_concat(s, a, b);
}

/// Masks that agree on the bits below `len` select the same places.
proof fn lemma_mask_path_low_bits(off: int, len: int, m1: u64, m2: u64)
    requires
        forall|b: int| 0 <= b < len ==> bit_set(m1, b) == bit_set(m2, b),
    ensures
        mask_path(off, len, m1) == mask_path(off, len, m2),
    decreases len,
{
    if len > 0 {
        lemma_mask_path_low_bits(off, len - 1, m1, m2);
    }
}

/// A mask below two to the power `k` has bit `k` clear and is below two to
/// the power `k + 1`.
proof fn lemma_bit_clear(m: u64, k: u64)
    requires
        k < 63,
        m < (1u64 << k),
    ensures
        m & (1u64 << k) == 0,
        m < (1u64 << ((k + 1) as u64)),
{
    assert(m & (1u64 << k) == 0 && m < (1u64 << ((k + 1) as u64))) by (bit_vector)
        requires
            k < 63,
            m < (1u64 << k),
    ;
}

/// Setting bit `k` in a mask below two to the power `k` gives a mask below
/// two to the power `k + 1` with that bit set.
proof fn lemma_bit_add(m: u64, k: u64)
    requires
        k < 63,
        m < (1u64 << k),
    ensures
        (m | (1u64 << k)) & (1u64 << k) != 0,
        (m | (1u64 << k)) < (1u64 << ((k + 1) as u64)),
{
    assert((m | (1u64 << k)) & (1u64 << k) != 0 && (m | (1u64 << k)) < (1u64 << ((k + 1) as u64)))
        by (bit_vector)
        requires
            k < 63,
            m < (1u64 << k),
    ;
}

/// Setting bit `k` leaves the bits below it as they were.
proof fn lemma_bit_keep(m: u64, k: u64, b: u64)
    requires
        b < k < 64,
    ensures
        ((m | (1u64 << k)) & (1u64 << b) != 0) == (m & (1u64 << b) != 0),
{
    assert(((m | (1u64 << k)) & (1u64 << b) != 0) == (m & (1u64 << b) != 0)) by (bit_vector)
        requires
            b < k < 64,
    ;
}

/// Every rising run of places within `len` places from `off` is what some
/// mask below two to the power `len` selects.
pub proof fn lemma_path_has_mask(off: int, len: int, q: Seq<usize>) -> (m: u64)
    requires
        0 <= off,
        0 <= len <= 63,
        off + len <= usize::MAX,
        is_path(q, (off + len) as nat),
        forall|k: int| 0 <= k < q.len() ==> q[k] >= off,
    ensures
        m < subsets(len),
        mask_path(off, len, m) == q,
    decreases len,
{
    if len == 0 {
        assert(1u64 << 0u64 == 1) by (bit_vector);
        if q.len() > 0 {
            assert(q[0] >= off);
        }
        assert(q =~= Seq::empty());
        0
    } else {
        let k = (len - 1) as u64;
        if q.len() > 0 && q.last() == off + len - 1 {
            let q1 = q.drop_last();
            assert(is_path(q1, (off + len - 1) as nat)) by {
                assert forall|j: int| 0 <= j < q1.len() implies (#[trigger] q1[j]) < off + len - 1 by {
                    assert(q[j] < q[q.len() - 1]);
                }
            }
            let m1 = lemma_path_has_mask(off, len - 1, q1);
            let m = m1 | (1u64 << k);
            lemma_bit_add(m1, k);
            assert forall|b: int| 0 <= b < len - 1 implies bit_set(m, b) == bit_set(m1, b) by {
                lemma_bit_keep(m1, k, b as u64);
            }
            lemma_mask_path_low_bits(off, len - 1, m, m1);
            assert(q1.push(q.last()) =~= q);
            m
        } else {
            assert(is_path(q, (off + len - 1) as nat)) by {
                assert forall|j: int| 0 <= j < q.len() implies (#[trigger] q[j]) < off + len - 1 by {
                    assert(q[j] <= q[q.len() - 1]);
                }
            }
            let m1 = lemma_path_has_mask(off, len - 1, q);
            lemma_bit_clear(m1, k);
            m1
        }
    }
}

/// A path splits into its places below `mid` and its places from `mid` on.
pub proof fn lemma_split_path(q: Seq<usize>, n: nat, mid: int) -> (k: int)
    requires
        is_path(q, n),
    ensures
        0 <= k <= q.len(),
        forall|j: int| 0 <= j < k ==> q[j] < mid,
        forall|j: int| k <= j < q.len() ==> q[j] >= mid,
    decreases q.len(),
{
    if q.len() == 0 {
        0
    } else if q.last() < mid {
        assert forall|j: int| 0 <= j < q.len() implies q[j] < mid by {
            assert(q[j] <= q[q.len() - 1]);
        }
        q.len() as int
    } else {
        let q1 = q.drop_last();
        let k = lemma_split_path(q1, n, mid);
        assert forall|j: int| 0 <= j < k implies q[j] < mid by {
            assert(q1[j] == q[j]);
        }
        assert forall|j: int| k <= j < q.len() implies q[j] >= mid by {
            if j < q1.len() {
                assert(q1[j] == q[j]);
            }
        }
        k
    }
}

/// Where no pair of masks selects a path that meets the goal, no path meets
/// it.
pub proof fn lemma_no_pair_no_hit(s: Seq<NumberEntry>, g: Goal, mid: int)
    requires
        0 <= mid <= s.len() <= 63,
        s.len() - mid <= 63,
        forall|lmask: u64, rmask: u64|
            lmask < subsets(mid) && rmask < subsets(s.len() - mid) ==> !pair_hits(
                s,
                g,
                mid,
                lmask,
                rmask,
            ),
    ensures
        no_hit(s, g),
{
    let n = s.len() as int;
    assert forall|q: Seq<usize>| is_path(q, s.len()) implies !hits(s, g, q) by {
        if hits(s, g, q) {
            let k = lemma_split_path(q, s.len(), mid);
            let a = q.take(k);
            let b = q.skip(k);
            assert(a + b =~= q);
            assert(is_path(a, mid as nat));
            assert(is_path(b, s.len()));
            let lmask = lemma_path_has_mask(0, mid, a);
            let rmask = lemma_path_has_mask(mid, n - mid, b);
            lemma_joined(s, mid, lmask, rmask);
            assert(pair_hits(s, g, mid, lmask, rmask));
        }
    }
}

} // verus!
