//! Nine-bit digit masks and their reading as sets of digits.
//!
//! Bit `v - 1` of a mask stands for the digit `v`. The lemmas of this module
//! carry the bitwise operations used on masks over to operations on sets, so
//! that the rest of the crate can reason about sets of digits only.

use vstd::prelude::*;

verus! {

/// The mask in which the bits of all nine digits are set.
pub const ALL_VALUES: usize = 0x1FF;

/// Whether bit `i` of `mask` is set.
pub open spec fn bit(mask: usize, i: usize) -> bool {
    (mask >> i) & 1 == 1
}

/// Whether `mask` holds the digit `v`.
pub open spec fn mask_has(mask: usize, v: int) -> bool {
    1 <= v <= 9 && bit(mask, (v - 1) as usize)
}

/// The digits that `mask` holds.
pub open spec fn mask_values(mask: usize) -> Set<int> {
    Set::new(|v: int| mask_has(mask, v))
}

/// The digits of `mask` that are smaller than `k`.
spec fn mask_values_below(mask: usize, k: int) -> Set<int> {
    Set::new(|v: int| v < k && mask_has(mask, v))
}

/// The digits 1 to 9.
pub open spec fn digits() -> Set<int> {
    Set::new(|v: int| 1 <= v <= 9)
}

/// Bit `i` of `a | b` is set where it is set in `a` or in `b`.
proof fn lemma_bit_or(a: usize, b: usize, i: usize)
    by (bit_vector)
    requires
        i < 9,
    ensures
        bit(a | b, i) == (bit(a, i) || bit(b, i)),
{
}

/// Bit `i` of `a & !m` is set where it is set in `a` and not in `m`.
proof fn lemma_bit_clear(a: usize, m: usize, i: usize)
    by (bit_vector)
    requires
        i < 9,
    ensures
        bit(a & !m, i) == (bit(a, i) && !bit(m, i)),
{
}

/// Bit `i` of `(!a | !b | c) & 0x1FF` is set where it is not set in `a`, or
/// not set in `b`, or set in `c`.
proof fn lemma_bit_outside(a: usize, b: usize, c: usize, i: usize)
    by (bit_vector)
    requires
        i < 9,
    ensures
        bit((!a | !b | c) & 0x1FF, i) == (!bit(a, i) || !bit(b, i) || bit(c, i)),
{
}

/// Of the nine digit bits, `1 << k` has bit `k` set and no other.
proof fn lemma_bit_single(k: usize, i: usize)
    by (bit_vector)
    requires
        k < 9,
        i < 9,
    ensures
        bit(1usize << k, i) == (i == k),
{
}

/// The nine digit bits are all set in `0x1FF`, and none of them in 0.
proof fn lemma_bit_constants(i: usize)
    by (bit_vector)
    requires
        i < 9,
    ensures
        bit(0x1FF, i),
        !bit(0, i),
{
}

/// A shifted and masked bit is either 0 or 1.
proof fn lemma_bit_test(a: usize, i: usize)
    by (bit_vector)
    requires
        i < 9,
    ensures
        ((a >> i) & 1 != 0) == bit(a, i),
{
}

/// Two masks, one of them within the nine digit bits, have a common bit
/// exactly if one of the nine digit bits is set in both.
proof fn lemma_bit_meet(a: usize, m: usize)
    by (bit_vector)
    requires
        m <= 0x1FF,
    ensures
        (a & m != 0) == ((bit(a, 0) && bit(m, 0)) || (bit(a, 1) && bit(m, 1)) || (bit(a, 2) && bit(
            m,
            2,
        )) || (bit(a, 3) && bit(m, 3)) || (bit(a, 4) && bit(m, 4)) || (bit(a, 5) && bit(m, 5)) || (
        bit(a, 6) && bit(m, 6)) || (bit(a, 7) && bit(m, 7)) || (bit(a, 8) && bit(m, 8))),
{
}

/// Two masks within the nine digit bits that agree on these bits are equal.
proof fn lemma_bit_equal(a: usize, b: usize)
    by (bit_vector)
    requires
        a <= 0x1FF,
        b <= 0x1FF,
        bit(a, 0) == bit(b, 0),
        bit(a, 1) == bit(b, 1),
        bit(a, 2) == bit(b, 2),
        bit(a, 3) == bit(b, 3),
        bit(a, 4) == bit(b, 4),
        bit(a, 5) == bit(b, 5),
        bit(a, 6) == bit(b, 6),
        bit(a, 7) == bit(b, 7),
        bit(a, 8) == bit(b, 8),
    ensures
        a == b,
{
}

/// The mask operations of this crate stay within the nine digit bits.
pub proof fn lemma_mask_bounds(a: usize, b: usize, k: usize)
    by (bit_vector)
    ensures
        a & 0x1FF <= 0x1FF,
        a <= 0x1FF ==> a & !b <= 0x1FF,
        a <= 0x1FF && b <= 0x1FF ==> a | b <= 0x1FF,
        k < 9 ==> 1usize << k <= 0x1FF,
{
}

/// Or-ing two masks unites their digits.
pub proof fn lemma_values_or(a: usize, b: usize)
    ensures
        mask_values(a | b) == mask_values(a).union(mask_values(b)),
{
    assert forall|v: int| mask_has(a | b, v) == (mask_has(a, v) || mask_has(b, v)) by {
        if 1 <= v <= 9 {
            lemma_bit_or(a, b, (v - 1) as usize);
        }
    }
    assert(mask_values(a | b) =~= mask_values(a).union(mask_values(b)));
}

/// Clearing the bits of `m` in `a` takes the digits of `m` out of those of `a`.
pub proof fn lemma_values_clear(a: usize, m: usize)
    ensures
        mask_values(a & !m) == mask_values(a).difference(mask_values(m)),
{
    assert forall|v: int| mask_has(a & !m, v) == (mask_has(a, v) && !mask_has(m, v)) by {
        if 1 <= v <= 9 {
            lemma_bit_clear(a, m, (v - 1) as usize);
        }
    }
    assert(mask_values(a & !m) =~= mask_values(a).difference(mask_values(m)));
}

/// The digits of `(!a | !b | c) & ALL_VALUES` are those that `a` lacks, that `b`
/// lacks, or that `c` holds.
pub proof fn lemma_values_outside(a: usize, b: usize, c: usize)
    ensures
        mask_values((!a | !b | c) & ALL_VALUES) == Set::new(
            |v: int|
                1 <= v <= 9 && (!mask_values(a).contains(v) || !mask_values(b).contains(v)
                    || mask_values(c).contains(v)),
        ),
{
    let r = (!a | !b | c) & ALL_VALUES;
    let s = Set::new(
        |v: int|
            1 <= v <= 9 && (!mask_values(a).contains(v) || !mask_values(b).contains(v)
                || mask_values(c).contains(v)),
    );
    assert forall|v: int| mask_values(r).contains(v) == s.contains(v) by {
        if 1 <= v <= 9 {
            lemma_bit_outside(a, b, c, (v - 1) as usize);
        }
    }
    assert(mask_values(r) =~= s);
}

/// The mask `1 << (v - 1)` holds the digit `v` and no other.
pub proof fn lemma_values_single(v: usize)
    requires
        1 <= v <= 9,
    ensures
        mask_values(1usize << ((v - 1) as usize)) == set![v as int],
{
    let m = 1usize << ((v - 1) as usize);
    assert forall|w: int| mask_has(m, w) == (w == v) by {
        if 1 <= w <= 9 {
            lemma_bit_single((v - 1) as usize, (w - 1) as usize);
        }
    }
    assert(mask_values(m) =~= set![v as int]);
}

/// The full mask holds every digit, the zero mask none.
pub proof fn lemma_values_constants()
    ensures
        mask_values(ALL_VALUES) == digits(),
        mask_values(0) == Set::<int>::empty(),
{
    assert forall|v: int| 1 <= v <= 9 implies mask_has(ALL_VALUES, v) && !mask_has(0, v) by {
        lemma_bit_constants((v - 1) as usize);
    }
    assert(mask_values(ALL_VALUES) =~= digits());
    assert(mask_values(0) =~= Set::<int>::empty());
}

/// Two masks have a common bit exactly if they have a common digit, provided
/// one of them stays within the nine digit bits.
pub proof fn lemma_values_meet(a: usize, m: usize)
    requires
        m <= ALL_VALUES,
    ensures
        (a & m != 0) == !mask_values(a).disjoint(mask_values(m)),
{
    lemma_bit_meet(a, m);
    if a & m != 0 {
        let v = if bit(a, 0) && bit(m, 0) {
            1int
        } else if bit(a, 1) && bit(m, 1) {
            2int
        } else if bit(a, 2) && bit(m, 2) {
            3int
        } else if bit(a, 3) && bit(m, 3) {
            4int
        } else if bit(a, 4) && bit(m, 4) {
            5int
        } else if bit(a, 5) && bit(m, 5) {
            6int
        } else if bit(a, 6) && bit(m, 6) {
            7int
        } else if bit(a, 7) && bit(m, 7) {
            8int
        } else {
            9int
        };
        assert(mask_has(a, v) && mask_has(m, v));
        assert(mask_values(a).contains(v) && mask_values(m).contains(v));
    } else {
        assert forall|v: int| !(mask_values(a).contains(v) && mask_values(m).contains(v)) by {
            if mask_has(a, v) && mask_has(m, v) {
                assert(bit(a, (v - 1) as usize) && bit(m, (v - 1) as usize));
            }
        }
    }
}

/// Two masks within the nine digit bits that hold the same digits are equal.
pub proof fn lemma_values_equal(a: usize, b: usize)
    requires
        a <= ALL_VALUES,
        b <= ALL_VALUES,
        mask_values(a) == mask_values(b),
    ensures
        a == b,
{
    assert forall|i: usize| i < 9 implies bit(a, i) == bit(b, i) by {
        let v = i + 1;
        assert((v - 1) as usize == i);
        assert(mask_values(a).contains(v) == mask_has(a, v));
        assert(mask_values(b).contains(v) == mask_has(b, v));
    }
    lemma_bit_equal(a, b);
}

/// Moving the bound past `k` adds the digit `k` if the mask holds it.
proof fn lemma_values_below_step(mask: usize, k: int)
    ensures
        mask_values_below(mask, k + 1) == if mask_has(mask, k) {
            mask_values_below(mask, k).insert(k)
        } else {
            mask_values_below(mask, k)
        },
        !mask_values_below(mask, k).contains(k),
{
    if mask_has(mask, k) {
        assert(mask_values_below(mask, k + 1) =~= mask_values_below(mask, k).insert(k));
    } else {
        assert(mask_values_below(mask, k + 1) =~= mask_values_below(mask, k));
    }
}

/// A mask holds finitely many digits below any bound, at most one for each
/// digit below the bound.
proof fn lemma_values_below_finite(mask: usize, k: int)
    requires
        1 <= k <= 10,
    ensures
        mask_values_below(mask, k).finite(),
        mask_values_below(mask, k).len() <= k - 1,
    decreases k,
{
    if k == 1 {
        assert(mask_values_below(mask, k) =~= Set::<int>::empty());
    } else {
        lemma_values_below_finite(mask, k - 1);
        lemma_values_below_step(mask, k - 1);
    }
}

/// A mask holds finitely many digits, nine at most.
pub proof fn lemma_values_finite(mask: usize)
    ensures
        mask_values(mask).finite(),
        mask_values(mask).len() <= 9,
        mask_values(mask).subset_of(digits()),
{
    lemma_values_below_finite(mask, 10);
    assert(mask_values(mask) =~= mask_values_below(mask, 10));
}

/// There are nine digits.
pub proof fn lemma_digits_len()
    ensures
        digits().finite(),
        digits().len() == 9,
{
    let s = set![1int, 2int, 3int, 4int, 5int, 6int, 7int, 8int, 9int];
    assert(digits() =~= s);
}

/// Whether `mask` holds the digit `v`.
pub fn mask_contains(mask: usize, v: usize) -> (b: bool)
    ensures
        b == mask_values(mask).contains(v as int),
{
    if 1 <= v && v <= 9 {
        proof {
            lemma_bit_test(mask, (v - 1) as usize);
        }
        (mask >> (v - 1)) & 1 != 0
    } else {
        false
    }
}

/// The number of digits that `mask` holds.
pub fn mask_count(mask: usize) -> (n: usize)
    ensures
        n == mask_values(mask).len(),
        n <= 9,
{
    let mut n: usize = 0;
    let mut v: usize = 1;
    proof {
        lemma_values_below_finite(mask, 1);
    }
    while v <= 9
        invariant
            1 <= v <= 10,
            mask_values_below(mask, v as int).finite(),
            n == mask_values_below(mask, v as int).len(),
            n < v,
        decreases 10 - v,
    {
        proof {
            lemma_values_below_step(mask, v as int);
        }
        if mask_contains(mask, v) {
            n += 1;
        }
        v += 1;
    }
    proof {
        assert(mask_values(mask) =~= mask_values_below(mask, 10));
    }
    n
}

/// The digits that `mask` holds, in ascending order.
pub fn mask_list(mask: usize) -> (r: Vec<usize>)
    ensures
        forall|i: int, j: int| 0 <= i < j < r.len() ==> r[i] < r[j],
        forall|i: int| 0 <= i < r.len() ==> mask_values(mask).contains(#[trigger] r[i] as int),
        forall|v: int| mask_values(mask).contains(v) ==> r@.contains(v as usize),
        r.len() == mask_values(mask).len(),
{
    let mut r: Vec<usize> = Vec::new();
    let mut v: usize = 1;
    proof {
        lemma_values_below_finite(mask, 1);
    }
    while v <= 9
        invariant
            1 <= v <= 10,
            forall|i: int, j: int| 0 <= i < j < r.len() ==> r[i] < r[j],
            forall|i: int|
                0 <= i < r.len() ==> r[i] < v && mask_values(mask).contains(#[trigger] r[i] as int),
            forall|w: int| w < v && mask_values(mask).contains(w) ==> r@.contains(w as usize),
            mask_values_below(mask, v as int).finite(),
            r.len() == mask_values_below(mask, v as int).len(),
        decreases 10 - v,
    {
        proof {
            lemma_values_below_step(mask, v as int);
        }
        if mask_contains(mask, v) {
            let ghost before = r@;
            r.push(v);
            proof {
                assert(r@[before.len() as int] == v);
                assert forall|w: int|
                    w < v + 1 && mask_values(mask).contains(w) implies r@.contains(w as usize) by {
                    if w < v {
                        let i = choose|i: int| 0 <= i < before.len() && before[i] == w as usize;
                        assert(r@[i] == w as usize);
                    }
                }
            }
        }
        v += 1;
    }
    proof {
        assert(mask_values(mask) =~= mask_values_below(mask, 10));
    }
    r
}

} // verus!
