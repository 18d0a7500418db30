//! Arithmetic on ring cursors.
//!
//! A cursor counts claims (or reads) and is allowed to wrap around the machine
//! word. Only two things are ever asked of it: which slot it names, and how far
//! one cursor is ahead of another. Both survive the wrap because the capacity
//! is a power of two, and so divides the number of values a word can take.

use vstd::arithmetic::power2::{lemma_pow2_pos, lemma_pow2_strictly_increases, lemma_pow2_unfold, pow2};
use vstd::bits::{lemma_usize_low_bits_mask_is_mod, low_bits_mask};
use vstd::prelude::*;

verus! {

/// `n` is one of 1, 2, 4, 8, ...
pub open spec fn is_power_of_two(n: int) -> bool {
    exists|k: nat| n == #[trigger] pow2(k)
}

/// The slot that a cursor names in a ring of `cap` slots.
pub open spec fn slot_of(cursor: usize, cap: usize) -> int {
    cursor as int % cap as int
}

/// How far `head` is ahead of `tail`, counted around the machine word.
pub open spec fn distance(head: usize, tail: usize) -> int {
    (head as int - tail as int) % (usize::MAX as int + 1)
}

/// The cursor after `cursor`, wrapping to zero after the largest word.
pub open spec fn successor(cursor: usize) -> usize {
    if cursor == usize::MAX {
        0
    } else {
        (cursor + 1) as usize
    }
}

/// A power of two is at least one.
pub proof fn lemma_power_of_two_positive(n: usize)
    requires
        is_power_of_two(n as int),
    ensures
        n >= 1,
{
    let k = choose|k: nat| n as int == #[trigger] pow2(k);
    lemma_pow2_pos(k);
}

/// A power of two that fits a word is `pow2(k)` for some `k` below the word's width.
pub proof fn lemma_exponent_in_word(cap: usize) -> (k: nat)
    requires
        is_power_of_two(cap as int),
    ensures
        k < usize::BITS,
        cap == pow2(k),
{
    let k = choose|k: nat| cap as int == #[trigger] pow2(k);
    if k >= usize::BITS {
        let width = usize::BITS as nat;
        assert(pow2(width) == usize::MAX + 1) by {
            vstd::arithmetic::power2::lemma2_to64();
            assert(width == 32 || width == 64);
        }
        if k > width {
            lemma_pow2_strictly_increases(width, k);
        }
        assert(false);
    }
    k
}

/// The cursor word after `n` steps from zero.
pub open spec fn word(n: nat) -> usize {
    (n as int % (usize::MAX as int + 1)) as usize
}

/// The number of values of a word is a multiple of every power of two that
/// fits a word.
pub proof fn lemma_capacity_divides_word(cap: usize) -> (q: nat)
    requires
        is_power_of_two(cap as int),
    ensures
        q > 0,
        cap * q == usize::MAX + 1,
{
    let k = lemma_exponent_in_word(cap);
    let width = usize::BITS as nat;
    let rest = (width - k) as nat;
    vstd::arithmetic::power2::lemma_pow2_adds(k, rest);
    lemma_pow2_pos(rest);
    assert(pow2(width) == usize::MAX + 1) by {
        vstd::arithmetic::power2::lemma2_to64();
        assert(width == 32 || width == 64);
    }
    pow2(rest)
}

/// Wrapping the cursor does not change the slot: the word after `n` steps
/// names the slot `n % cap`.
pub proof fn lemma_slot_of_word(n: nat, cap: usize)
    requires
        is_power_of_two(cap as int),
    ensures
        slot_of(word(n), cap) == n as int % cap as int,
        0 <= slot_of(word(n), cap) < cap,
{
    let q = lemma_capacity_divides_word(cap);
    lemma_power_of_two_positive(cap);
    vstd::arithmetic::div_mod::lemma_mod_mod(n as int, cap as int, q as int);
    vstd::arithmetic::div_mod::lemma_mod_bound(n as int, usize::MAX as int + 1);
    vstd::arithmetic::div_mod::lemma_mod_bound(n as int, cap as int);
}

/// One step of the word is one step of the count.
pub proof fn lemma_successor_of_word(n: nat)
    ensures
        successor(word(n)) == word(n + 1),
{
    let m = usize::MAX as int + 1;
    vstd::arithmetic::div_mod::lemma_mod_bound(n as int, m);
    vstd::arithmetic::div_mod::lemma_fundamental_div_mod(n as int, m);
    let q = n as int / m;
    let r = n as int % m;
    if r == usize::MAX {
        assert(n + 1 == m * (q + 1)) by (nonlinear_arith)
            requires
                n == m * q + r,
                r == m - 1,
        ;
        vstd::arithmetic::div_mod::lemma_mod_multiples_basic(q + 1, m);
        assert((n + 1) as int % m == 0) by {
            assert(m * (q + 1) == (q + 1) * m) by (nonlinear_arith);
        }
    } else {
        vstd::arithmetic::div_mod::lemma_fundamental_div_mod_converse(n as int + 1, m, q, r + 1);
    }
}

/// Two counts less than a ring apart name different slots.
pub proof fn lemma_same_slot(a: int, b: int, cap: int)
    requires
        cap > 0,
        a % cap == b % cap,
        -cap < a - b < cap,
    ensures
        a == b,
{
    vstd::arithmetic::div_mod::lemma_fundamental_div_mod(a, cap);
    vstd::arithmetic::div_mod::lemma_fundamental_div_mod(b, cap);
    let qa = a / cap;
    let qb = b / cap;
    assert(a - b == cap * (qa - qb)) by (nonlinear_arith)
        requires
            a == cap * qa + a % cap,
            b == cap * qb + b % cap,
            a % cap == b % cap,
    ;
    assert(qa == qb) by (nonlinear_arith)
        requires
            a - b == cap * (qa - qb),
            -cap < a - b < cap,
            cap > 0,
    ;
}

/// The distance between two words is the difference of the counts, as long as
/// that is less than the number of values of a word.
pub proof fn lemma_distance_of_words(a: nat, b: nat)
    requires
        b <= a,
        a - b <= usize::MAX,
    ensures
        distance(word(a), word(b)) == a - b,
{
    let m = usize::MAX as int + 1;
    vstd::arithmetic::div_mod::lemma_sub_mod_noop(a as int, b as int, m);
    vstd::arithmetic::div_mod::lemma_small_mod((a - b) as nat, m as nat);
}

/// Tells whether `cap` is a power of two.
pub fn power_of_two(cap: usize) -> (yes: bool)
    ensures
        yes == is_power_of_two(cap as int),
{
    let mut p: usize = 1;
    let ghost mut k: nat = 0;
    proof {
        vstd::arithmetic::power2::lemma2_to64();
    }
    while p < cap && p <= usize::MAX / 2
        invariant
            p >= 1,
            p == pow2(k),
            forall|j: nat| j < k ==> #[trigger] pow2(j) < cap,
        decreases usize::MAX - p,
    {
        proof {
            lemma_pow2_unfold(k + 1);
            assert forall|j: nat| j < k + 1 implies #[trigger] pow2(j) < cap by {
                if j == k {
                } else {
                    assert(j < k);
                }
            }
            k = k + 1;
        }
        p = p * 2;
    }
    proof {
        if p == cap {
            assert(cap as int == pow2(k));
        } else {
            assert forall|j: nat| cap as int != #[trigger] pow2(j) by {
                if j < k {
                } else if j == k {
                } else {
                    lemma_pow2_strictly_increases(k, j);
                    if p < cap {
                        lemma_pow2_unfold(k + 1);
                        if j > k + 1 {
                            lemma_pow2_strictly_increases(k + 1, j);
                        }
                    }
                }
            }
        }
    }
    p == cap
}

/// Maps a cursor to its slot with one `&`, which is the remainder by the
/// capacity when `mask` is the capacity less one.
pub fn slot_index(cursor: usize, mask: usize) -> (pos: usize)
    requires
        mask < usize::MAX,
        is_power_of_two(mask + 1),
    ensures
        pos == slot_of(cursor, (mask + 1) as usize),
        pos <= mask,
{
    proof {
        let cap = (mask + 1) as usize;
        let k = lemma_exponent_in_word(cap);
        lemma_usize_low_bits_mask_is_mod(cursor, k);
        lemma_pow2_pos(k);
        assert(low_bits_mask(k) as usize == mask);
    }
    cursor & mask
}

/// Tells whether `head` is at least `cap` ahead of `tail`: the test by which a
/// producer that met an occupied slot decides that the ring is full.
pub fn lapped(head: usize, tail: usize, cap: usize) -> (full: bool)
    ensures
        full == (distance(head, tail) >= cap),
{
    proof {
        let m = usize::MAX as int + 1;
        let d = head as int - tail as int;
        if d >= 0 {
            vstd::arithmetic::div_mod::lemma_small_mod(d as nat, m as nat);
        } else {
            vstd::arithmetic::div_mod::lemma_mod_add_multiples_vanish(d, m);
            vstd::arithmetic::div_mod::lemma_small_mod((d + m) as nat, m as nat);
        }
    }
    head.wrapping_sub(tail) >= cap
}

/// The cursor that a successful claim moves `head` to.
pub fn next_cursor(cursor: usize) -> (next: usize)
    ensures
        next == successor(cursor),
{
    cursor.wrapping_add(1)
}

} // verus!
