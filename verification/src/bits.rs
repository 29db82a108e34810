//! Bit-set primitives over 64-bit boards: membership, subset order,
//! population count, and the count of all subsets of a mask.

use vstd::prelude::*;
use vstd::arithmetic::power2::pow2;
use vstd::set_lib::{lemma_map_size, lemma_set_disjoint_lens};
use vstd::relations::injective_on;
use crate::types::BitBoard;

verus! {

/// True when square `i` is a member of the bit-set `b`.
pub open spec fn bb_has(b: u64, i: int) -> bool {
    0 <= i < 64 && (b >> (i as u64)) & 1u64 == 1u64
}

/// True when every member of `s` is also a member of `m`.
pub open spec fn bb_subset(s: u64, m: u64) -> bool {
    s & m == s
}

/// Number of members of the set `m` (population count), by clearing the
/// lowest member until the set is empty.
pub open spec fn pop_count(m: u64) -> nat
    decreases m,
    via pop_count_decreases
{
    if m == 0 {
        0
    } else {
        (1 + pop_count(m & ((m - 1) as u64))) as nat
    }
}

#[via_fn]
proof fn pop_count_decreases(m: u64) {
    assert(m != 0 ==> m & ((m - 1) as u64) < m) by (bit_vector);
}

/// The empty bit-set has no members.
pub proof fn lemma_bb_empty(i: int)
    ensures
        !bb_has(0u64, i),
{
    if 0 <= i < 64 {
        let j = i as u64;
        assert((0u64 >> j) & 1u64 == 0u64) by (bit_vector);
    }
}

/// Membership in a union is membership in either operand.
pub proof fn lemma_bb_or(a: u64, b: u64, i: int)
    ensures
        bb_has(a | b, i) <==> (bb_has(a, i) || bb_has(b, i)),
{
    if 0 <= i < 64 {
        let j = i as u64;
        assert((((a | b) >> j) & 1u64 == 1u64) <==> ((a >> j) & 1u64 == 1u64 || (b >> j) & 1u64
            == 1u64)) by (bit_vector);
    }
}

/// A one-bit set holds exactly its own square.
pub proof fn lemma_bb_single(j: u64, i: int)
    requires
        j < 64,
    ensures
        bb_has(1u64 << j, i) <==> i == j,
{
    if 0 <= i < 64 {
        let k = i as u64;
        assert((((1u64 << j) >> k) & 1u64 == 1u64) <==> (k == j)) by (bit_vector)
            requires j < 64, k < 64;
    }
}

/// The set of all bit-sets that are subsets of the mask `m`.
pub open spec fn subsets_of(m: u64) -> Set<u64> {
    Set::new(|s: u64| bb_subset(s, m))
}

/// Every mask has exactly `2^pop_count(m)` subsets.
pub proof fn lemma_subset_count(m: u64)
    ensures
        subsets_of(m).finite(),
        subsets_of(m).len() == pow2(pop_count(m)),
    decreases m,
{
    if m == 0 {
        assert(subsets_of(0u64) =~= set![0u64]) by {
            assert(forall|s: u64| (s & 0u64 == s) == (s == 0u64)) by (bit_vector);
        }
        assert(pow2(0) == 1) by { vstd::arithmetic::power::lemma_pow0(2); }
    } else {
        let rest = m & ((m - 1) as u64);
        let low = m ^ rest;
        assert(rest < m && rest & m == rest && low & rest == 0 && low != 0 && (low | rest) == m)
            by (bit_vector)
            requires m != 0, rest == m & ((m - 1) as u64), low == m ^ rest;
        lemma_subset_count(rest);
        let a = subsets_of(rest);
        let f = |s: u64| s | low;
        let b = a.map(f);
        assert(injective_on(f, a)) by {
            assert forall|s1: u64, s2: u64|
                s1 & rest == s1 && s2 & rest == s2 && f(s1) == f(s2) implies s1 == s2 by {
                assert((s1 | low) == (s2 | low) ==> s1 == s2) by (bit_vector)
                    requires
                        s1 & rest == s1,
                        s2 & rest == s2,
                        low & rest == 0;
            }
        }
        a.lemma_map_finite(f);
        lemma_map_size(a, b, f);
        assert(a.disjoint(b)) by {
            assert forall|s: u64| a.contains(s) implies !b.contains(s) by {
                if b.contains(s) {
                    let t = choose|t: u64| a.contains(t) && f(t) == s;
                    assert(!(s & rest == s && t & rest == t && (t | low) == s)) by (bit_vector)
                        requires low & rest == 0, low != 0;
                }
            }
        }
        assert(subsets_of(m) =~= a + b) by {
            assert forall|s: u64| subsets_of(m).contains(s) implies (a + b).contains(s) by {
                if s & low == 0 {
                    assert(s & rest == s) by (bit_vector)
                        requires s & m == s, s & low == 0, (low | rest) == m;
                } else {
                    let t = s & rest;
                    assert(t & rest == t && (t | low) == s) by (bit_vector)
                        requires
                            s & m == s,
                            s & low != 0,
                            (low | rest) == m,
                            low & rest == 0,
                            low == m ^ (m & ((m - 1) as u64)),
                            rest == m & ((m - 1) as u64),
                            t == s & rest;
                    assert(b.contains(s)) by { assert(a.contains(t) && f(t) == s); }
                }
            }
            assert forall|s: u64| (a + b).contains(s) implies subsets_of(m).contains(s) by {
                if a.contains(s) {
                    assert(s & m == s) by (bit_vector)
                        requires s & rest == s, (low | rest) == m;
                } else {
                    let t = choose|t: u64| a.contains(t) && f(t) == s;
                    assert((t | low) & m == (t | low)) by (bit_vector)
                        requires t & rest == t, (low | rest) == m;
                }
            }
        }
        lemma_set_disjoint_lens(a, b);
        assert(pop_count(m) == 1 + pop_count(rest));
        assert(pow2(pop_count(rest) + 1) == 2 * pow2(pop_count(rest))) by {
            vstd::arithmetic::power2::lemma_pow2_unfold(pop_count(rest) + 1);
        }
    }
}

/// Exclusive-or folds below are rearranged with these identities.
pub proof fn lemma_xor_properties(a: u64, b: u64, c: u64)
    ensures
        a ^ b == b ^ a,
        (a ^ b) ^ c == (a ^ c) ^ b,
        a ^ (b ^ c) == (a ^ b) ^ c,
        a ^ 0 == a,
        0 ^ a == a,
        a ^ b ^ b == a,
        a ^ a == 0,
{
    assert(a ^ b == b ^ a && (a ^ b) ^ c == (a ^ c) ^ b && a ^ (b ^ c) == (a ^ b) ^ c && a ^ 0 == a
        && 0 ^ a == a && a ^ b ^ b == a && a ^ a == 0) by (bit_vector);
}

/// Toggling a square that the other set does not hold keeps two disjoint
/// bit-sets disjoint.
pub proof fn lemma_bb_xor_single_disjoint(a: u64, b: u64, j: u64)
    requires
        a & b == 0 || b & a == 0,
        j < 64,
        !bb_has(b, j as int),
    ensures
        (a ^ (1u64 << j)) & b == 0,
        b & (a ^ (1u64 << j)) == 0,
{
    assert((a ^ (1u64 << j)) & b == 0 && b & (a ^ (1u64 << j)) == 0) by (bit_vector)
        requires a & b == 0 || b & a == 0, j < 64, (b >> j) & 1u64 != 1u64;
}

/// Disjoint bit-sets share no member.
pub proof fn lemma_bb_disjoint_member(a: u64, b: u64, i: int)
    requires
        a & b == 0,
    ensures
        !(bb_has(a, i) && bb_has(b, i)),
{
    if 0 <= i < 64 {
        let j = i as u64;
        assert(!((a >> j) & 1u64 == 1u64 && (b >> j) & 1u64 == 1u64)) by (bit_vector)
            requires a & b == 0u64;
    }
}

/// Adding one absent square to a set is an exclusive-or; removing one
/// present square is too.
pub proof fn lemma_bb_flip(x: u64, j: u64)
    requires
        j < 64,
    ensures
        !bb_has(x, j as int) ==> (x | (1u64 << j)) == (x ^ (1u64 << j)),
        bb_has(x, j as int) ==> (x & !(1u64 << j)) == (x ^ (1u64 << j)),
        bb_has(x ^ (1u64 << j), j as int) == !bb_has(x, j as int),
        forall|i: int| 0 <= i < 64 && i != j ==> bb_has(x ^ (1u64 << j), i) == bb_has(x, i),
{
    assert(((x >> j) & 1u64 != 1u64 ==> (x | (1u64 << j)) == (x ^ (1u64 << j))) && ((x >> j) & 1u64
        == 1u64 ==> (x & !(1u64 << j)) == (x ^ (1u64 << j))) && (((x ^ (1u64 << j)) >> j) & 1u64
        == 1u64) == ((x >> j) & 1u64 != 1u64) && (forall|i: u64|
        i < 64 && i != j ==> ((#[trigger] ((x ^ (1u64 << j)) >> i)) & 1u64 == 1u64) == ((x >> i)
            & 1u64 == 1u64))) by (bit_vector)
        requires j < 64;
}

/// Membership in an intersection is membership in both operands, and a
/// complement holds exactly the squares its operand does not.
pub proof fn lemma_bb_and_not(a: u64, b: u64, i: int)
    ensures
        bb_has(a & b, i) <==> (bb_has(a, i) && bb_has(b, i)),
        0 <= i < 64 ==> (bb_has(!a, i) <==> !bb_has(a, i)),
{
    if 0 <= i < 64 {
        let j = i as u64;
        assert((((a & b) >> j) & 1u64 == 1u64) == ((a >> j) & 1u64 == 1u64 && (b >> j) & 1u64
            == 1u64) && (((!a) >> j) & 1u64 == 1u64) == ((a >> j) & 1u64 != 1u64)) by (bit_vector)
            requires j < 64;
    }
}

/// Whether the set has no members.
pub fn bb_is_empty(b: BitBoard) -> (r: bool)
    ensures
        r <==> (b == 0),
        r <==> (forall|i: int| !bb_has(b, i)),
{
    proof {
        if b != 0 {
            vstd::std_specs::bits::axiom_u64_trailing_zeros(b);
            let t = vstd::std_specs::bits::u64_trailing_zeros(b) as int;
            assert(bb_has(b, t));
        } else {
            assert forall|i: int| !bb_has(b, i) by {
                lemma_bb_empty(i);
            }
        }
    }
    b == 0
}

/// The union of two sets.
pub fn bb_union(a: BitBoard, b: BitBoard) -> (r: BitBoard)
    ensures
        r == (a | b),
        forall|i: int| bb_has(r, i) <==> (bb_has(a, i) || bb_has(b, i)),
{
    proof {
        assert forall|i: int| bb_has(a | b, i) <==> (bb_has(a, i) || bb_has(b, i)) by {
            lemma_bb_or(a, b, i);
        }
    }
    a | b
}

/// The intersection of two sets.
pub fn bb_intersect(a: BitBoard, b: BitBoard) -> (r: BitBoard)
    ensures
        r == (a & b),
        forall|i: int| bb_has(r, i) <==> (bb_has(a, i) && bb_has(b, i)),
{
    proof {
        assert forall|i: int| bb_has(a & b, i) <==> (bb_has(a, i) && bb_has(b, i)) by {
            lemma_bb_and_not(a, b, i);
        }
    }
    a & b
}

/// The complement of a set: every square it does not hold.
pub fn bb_complement(b: BitBoard) -> (r: BitBoard)
    ensures
        r == !b,
        forall|i: int| 0 <= i < 64 ==> (bb_has(r, i) <==> !bb_has(b, i)),
{
    proof {
        assert forall|i: int| 0 <= i < 64 implies (bb_has(!b, i) <==> !bb_has(b, i)) by {
            lemma_bb_and_not(b, b, i);
        }
    }
    !b
}

/// The set with the given square added.
pub fn bb_with_bit(b: BitBoard, square: u64) -> (r: BitBoard)
    requires
        square < 64,
    ensures
        r == (b | (1u64 << square)),
        forall|i: int| bb_has(r, i) <==> (bb_has(b, i) || i == square),
{
    proof {
        assert forall|i: int| bb_has(b | (1u64 << square), i) <==> (bb_has(b, i) || i == square) by {
            lemma_bb_or(b, 1u64 << square, i);
            lemma_bb_single(square, i);
        }
    }
    b | (1u64 << square)
}

/// The set with the given square removed.
pub fn bb_without_bit(b: BitBoard, square: u64) -> (r: BitBoard)
    requires
        square < 64,
    ensures
        r == (b & !(1u64 << square)),
        forall|i: int| bb_has(r, i) <==> (bb_has(b, i) && i != square),
{
    proof {
        assert forall|i: int| bb_has(b & !(1u64 << square), i) <==> (bb_has(b, i) && i != square) by {
            lemma_bb_and_not(b, !(1u64 << square), i);
            if 0 <= i < 64 {
                lemma_bb_and_not(1u64 << square, 1u64 << square, i);
                lemma_bb_single(square, i);
            }
        }
    }
    b & !(1u64 << square)
}

/// The lowest member of a non-empty set: every position below it is
/// outside the set.
pub fn lowest_set_square(b: u64) -> (sq: u64)
    requires
        b != 0,
    ensures
        sq < 64,
        bb_has(b, sq as int),
        forall|j: int| 0 <= j < sq ==> !bb_has(b, j),
{
    proof {
        vstd::std_specs::bits::axiom_u64_trailing_zeros(b);
    }
    b.trailing_zeros() as u64
}

/// The set without its lowest member.
pub fn pop_lowest_set_square(b: u64) -> (r: (u64, u64))
    requires
        b != 0,
    ensures
        r.0 < 64,
        bb_has(b, r.0 as int),
        forall|j: int| 0 <= j < r.0 ==> !bb_has(b, j),
        forall|i: int| bb_has(r.1, i) == (bb_has(b, i) && i != r.0),
        r.1 < b,
{
    proof {
        vstd::std_specs::bits::axiom_u64_trailing_zeros(b);
    }
    let sq = b.trailing_zeros() as u64;
    let rest = b & (b - 1);
    proof {
        assert(b << ((64 - sq) as u64) == 0);
        assert(rest < b && forall|i: u64|
            i < 64 ==> ((#[trigger] (rest >> i)) & 1u64 == 1u64) == ((b >> i) & 1u64 == 1u64 && i
                != sq)) by (bit_vector)
            requires
                sq < 64,
                (b >> sq) & 1u64 == 1u64,
                b << ((64 - sq) as u64) == 0u64,
                rest == b & ((b - 1) as u64);
        assert forall|i: int| bb_has(rest, i) == (bb_has(b, i) && i != sq) by {
            if 0 <= i < 64 {
                assert(((rest >> (i as u64)) & 1u64 == 1u64) == ((b >> (i as u64)) & 1u64 == 1u64
                    && i != sq));
            }
        }
        assert forall|j: int| 0 <= j < sq implies !bb_has(b, j) by {
            assert((b >> (j as u64)) & 1u64 == 0u64);
        }
    }
    (sq, rest)
}

/// Two bit-sets with the same members are the same word: were they
/// different, the lowest differing position would be a member of one and
/// not the other.
pub proof fn lemma_bb_ext(a: u64, b: u64)
    requires
        forall|i: int| 0 <= i < 64 ==> bb_has(a, i) == bb_has(b, i),
    ensures
        a == b,
{
    if a != b {
        let d = a ^ b;
        vstd::std_specs::bits::axiom_u64_trailing_zeros(d);
        let t = vstd::std_specs::bits::u64_trailing_zeros(d) as u64;
        assert(d != 0) by (bit_vector)
            requires a != b, d == a ^ b;
        assert((((a >> t) & 1u64) == 1u64) != (((b >> t) & 1u64) == 1u64)) by (bit_vector)
            requires (d >> t) & 1u64 == 1u64, d == a ^ b, t < 64;
        assert(bb_has(a, t as int) != bb_has(b, t as int));
    }
}

/// No 64-bit set has more than 64 members.
pub proof fn lemma_pop_count_le(m: u64)
    ensures
        pop_count(m) <= 64,
{
    lemma_subset_count(m);
    assert forall|s: u64| subsets_of(m).contains(s) implies Set::<u64>::range_inclusive(
        0,
        m,
    ).contains(s) by {
        assert(s & m == s ==> s <= m) by (bit_vector);
    }
    let big = Set::<u64>::range_inclusive(0, m);
    vstd::set_lib::range_set_properties::<u64>(0, m);
    assert(big.len() <= m + 1);
    vstd::set_lib::lemma_len_subset(subsets_of(m), big);
    vstd::arithmetic::power2::lemma2_to64();
    if pop_count(m) > 64 {
        vstd::arithmetic::power2::lemma_pow2_strictly_increases(64, pop_count(m));
    }
}

/// Population count, by clearing the lowest member until the set is
/// empty.
pub fn count_bits(m: u64) -> (n: u8)
    ensures
        n == pop_count(m),
{
    proof {
        lemma_pop_count_le(m);
    }
    let mut rest = m;
    let mut n: u8 = 0;
    while rest != 0
        invariant
            n + pop_count(rest) == pop_count(m),
            pop_count(m) <= 64,
        decreases rest,
    {
        proof {
            assert(rest & ((rest - 1) as u64) < rest) by (bit_vector)
                requires rest != 0;
        }
        rest = rest & (rest - 1);
        n = n + 1;
    }
    n
}

} // verus!
