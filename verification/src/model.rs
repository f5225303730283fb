//! The mathematical model of a pattern: what the pulse distribution, the
//! circular rotation and the resize operation produce, stated over `Seq<bool>`,
//! together with the proofs of the laws that relate them.

use vstd::prelude::*;
use vstd::arithmetic::div_mod::{
    lemma_div_by_self, lemma_div_of0, lemma_div_multiples_vanish, lemma_fundamental_div_mod,
    lemma_fundamental_div_mod_converse, lemma_mod_bound, lemma_mod_multiples_basic,
    lemma_mod_twice, lemma_small_mod, lemma_sub_mod_noop,
};

verus! {

/// How many entries of `s` are pulses (`true`).
pub open spec fn count_true(s: Seq<bool>) -> nat
    decreases s.len(),
{
    if s.len() == 0 {
        0
    } else {
        count_true(s.drop_last()) + if s.last() {
            1nat
        } else {
            0nat
        }
    }
}

/// A pulse count never exceeds the pattern length: `pulses` clamped to `length`.
pub open spec fn clamped(length: nat, pulses: nat) -> nat {
    if pulses > length {
        length
    } else {
        pulses
    }
}

/// Whether position `i` of the raw even distribution of `pulses` pulses over
/// `length` steps carries a pulse: the running bucket, which gains `pulses`
/// at every step and loses `length` whenever it reaches it, overflows here.
pub open spec fn pulse_at(length: int, pulses: int, i: int) -> bool {
    (i * pulses) % length + pulses >= length
}

/// The even distribution of `pulses` pulses over `length` steps, before the
/// offset correction that moves the first pulse to index 0.
pub open spec fn euclid_raw(length: nat, pulses: nat) -> Seq<bool> {
    Seq::new(length, |i: int| pulse_at(length as int, pulses as int, i))
}

/// `s` rotated circularly by `r` positions: positive `r` toward higher
/// indices, negative toward lower ones.
pub open spec fn rotated(s: Seq<bool>, r: int) -> Seq<bool> {
    if s.len() == 0 {
        s
    } else {
        Seq::new(s.len(), |j: int| s[(j - r) % (s.len() as int)])
    }
}

/// The right-rotation that places the first pulse of the raw distribution at
/// index 0 (defined for a positive, clamped pulse count).
pub open spec fn euclid_offset(length: nat, pulses: nat) -> int {
    length as int / pulses as int - 1
}

/// The pattern produced by distributing `pulses` pulses (clamped to `length`)
/// as evenly as possible over `length` steps, with the first pulse at index 0.
/// A pulse count of zero leaves every step a rest, with no offset correction.
pub open spec fn euclid(length: nat, pulses: nat) -> Seq<bool> {
    let p = clamped(length, pulses);
    if p == 0 {
        Seq::new(length, |i: int| false)
    } else {
        rotated(euclid_raw(length, p), euclid_offset(length, p))
    }
}

/// `s` resized to `n` steps: truncated, or padded at the end with rests.
pub open spec fn resized(s: Seq<bool>, n: nat) -> Seq<bool> {
    if n <= s.len() {
        s.take(n as int)
    } else {
        s + Seq::new((n - s.len()) as nat, |i: int| false)
    }
}

/// Appending one step adds one pulse to the count exactly when it is a pulse.
pub proof fn lemma_count_true_push(s: Seq<bool>, b: bool)
    ensures
        count_true(s.push(b)) == count_true(s) + if b {
            1nat
        } else {
            0nat
        },
{
    assert(s.push(b).drop_last() =~= s);
}

/// The pulse count distributes over concatenation.
pub proof fn lemma_count_true_concat(a: Seq<bool>, b: Seq<bool>)
    ensures
        count_true(a + b) == count_true(a) + count_true(b),
    decreases b.len(),
{
    if b.len() == 0 {
        assert(a + b =~= a);
    } else {
        lemma_count_true_concat(a, b.drop_last());
        assert((a + b).drop_last() =~= a + b.drop_last());
        assert((a + b).last() == b.last());
    }
}

/// A sequence of rests holds no pulse.
pub proof fn lemma_count_true_all_false(n: nat)
    ensures
        count_true(Seq::new(n, |i: int| false)) == 0,
    decreases n,
{
    if n > 0 {
        lemma_count_true_all_false((n - 1) as nat);
        assert(Seq::new(n, |i: int| false).drop_last() =~= Seq::new(
            (n - 1) as nat,
            |i: int| false,
        ));
    }
}

/// With no pulses to place, the raw distribution is all rests.
pub proof fn lemma_euclid_raw_zero(length: nat)
    ensures
        euclid_raw(length, 0) == Seq::new(length, |i: int| false),
{
    if length > 0 {
        assert forall|j: int| 0 <= j < length implies !pulse_at(length as int, 0, j) by {
            assert(j * 0 == 0) by (nonlinear_arith);
            lemma_small_mod(0nat, length);
        }
    }
    assert(euclid_raw(length, 0) =~= Seq::new(length, |i: int| false));
}

/// One step of the bucket recurrence behind the even distribution: adding the
/// pulse count to the bucket and spilling when it reaches the length is the
/// remainder of `(i + 1) * pulses` by `length`, and a spill is exactly a
/// quotient increment.
pub(crate) proof fn lemma_bucket_step(l: int, p: int, i: int)
    requires
        0 < l,
        0 <= p <= l,
        0 <= i,
    ensures
        (i * p) % l + p >= l ==> ((i + 1) * p) % l == (i * p) % l + p - l && ((i + 1) * p) / l == (
        i * p) / l + 1,
        (i * p) % l + p < l ==> ((i + 1) * p) % l == (i * p) % l + p && ((i + 1) * p) / l == (i
            * p) / l,
{
    let q: int = (i * p) / l;
    let r: int = (i * p) % l;
    lemma_fundamental_div_mod(i * p, l);
    lemma_mod_bound(i * p, l);
    assert((i + 1) * p == i * p + p) by (nonlinear_arith);
    assert(l * q == q * l) by (nonlinear_arith);
    if r + p >= l {
        assert((q + 1) * l == q * l + l) by (nonlinear_arith);
        lemma_fundamental_div_mod_converse((i + 1) * p, l, q + 1, r + p - l);
    } else {
        lemma_fundamental_div_mod_converse((i + 1) * p, l, q, r + p);
    }
}

/// The number of pulses among the first `i` positions of the raw distribution
/// is the quotient `(i * p) / l`: each spill of the bucket is one pulse.
pub(crate) proof fn lemma_count_euclid_raw_prefix(l: int, p: int, i: int)
    requires
        0 < l,
        0 <= p <= l,
        0 <= i <= l,
    ensures
        count_true(Seq::new(i as nat, |j: int| pulse_at(l, p, j))) == (i * p) / l,
    decreases i,
{
    let s = Seq::new(i as nat, |j: int| pulse_at(l, p, j));
    if i == 0 {
        assert(0 * p == 0) by (nonlinear_arith);
        lemma_div_of0(l);
    } else {
        lemma_count_euclid_raw_prefix(l, p, i - 1);
        let s0 = Seq::new((i - 1) as nat, |j: int| pulse_at(l, p, j));
        assert(s =~= s0.push(pulse_at(l, p, i - 1)));
        lemma_count_true_push(s0, pulse_at(l, p, i - 1));
        lemma_mod_bound((i - 1) * p, l);
        lemma_bucket_step(l, p, i - 1);
    }
}

/// A right-rotation by `k` positions, written as the two slices the rotation
/// exchanges, is the circular rotation by `k`.
pub(crate) proof fn lemma_rotate_right_form(s: Seq<bool>, k: int)
    requires
        0 <= k <= s.len(),
        s.len() > 0,
    ensures
        s.subrange(s.len() - k, s.len() as int) + s.subrange(0, s.len() - k) == rotated(s, k),
{
    let l: int = s.len() as int;
    let t = s.subrange(l - k, l) + s.subrange(0, l - k);
    assert forall|j: int| 0 <= j < l implies t[j] == s[(j - k) % l] by {
        if j < k {
            lemma_fundamental_div_mod_converse(j - k, l, -1, j - k + l);
        } else {
            lemma_small_mod((j - k) as nat, l as nat);
        }
    }
    assert(t =~= rotated(s, k));
}

/// A left-rotation by `k` positions, written as the two slices the rotation
/// exchanges, is the circular rotation by `-k`.
pub(crate) proof fn lemma_rotate_left_form(s: Seq<bool>, k: int)
    requires
        0 <= k <= s.len(),
        s.len() > 0,
    ensures
        s.subrange(k, s.len() as int) + s.subrange(0, k) == rotated(s, -k),
{
    let l: int = s.len() as int;
    let t = s.subrange(k, l) + s.subrange(0, k);
    assert forall|j: int| 0 <= j < l implies t[j] == s[(j + k) % l] by {
        if j < l - k {
            lemma_small_mod((j + k) as nat, l as nat);
        } else {
            lemma_fundamental_div_mod_converse(j + k, l, 1, j + k - l);
        }
    }
    assert(t =~= rotated(s, -k));
}

/// Rotations by congruent amounts are the same rotation.
pub(crate) proof fn lemma_rotated_congruent(s: Seq<bool>, r1: int, r2: int)
    requires
        s.len() > 0 ==> r1 % (s.len() as int) == r2 % (s.len() as int),
    ensures
        rotated(s, r1) == rotated(s, r2),
{
    if s.len() > 0 {
        let l: int = s.len() as int;
        assert forall|j: int| 0 <= j < l implies rotated(s, r1)[j] == rotated(s, r2)[j] by {
            lemma_sub_mod_noop(j, r1, l);
            lemma_sub_mod_noop(j, r2, l);
        }
        assert(rotated(s, r1) =~= rotated(s, r2));
    }
}

/// Rotation only moves steps around: the pulse count is unchanged.
pub proof fn lemma_count_true_rotated(s: Seq<bool>, r: int)
    ensures
        count_true(rotated(s, r)) == count_true(s),
{
    if s.len() > 0 {
        let l: int = s.len() as int;
        let k: int = r % l;
        lemma_mod_bound(r, l);
        lemma_mod_twice(r, l);
        lemma_small_mod(k as nat, l as nat);
        lemma_rotated_congruent(s, r, k);
        lemma_rotate_right_form(s, k);
        lemma_count_true_concat(s.subrange(l - k, l), s.subrange(0, l - k));
        lemma_count_true_concat(s.subrange(0, l - k), s.subrange(l - k, l));
        assert(s =~= s.subrange(0, l - k) + s.subrange(l - k, l));
    }
}

/// The even distribution places exactly the clamped number of pulses.
pub proof fn lemma_count_euclid(length: nat, pulses: nat)
    ensures
        count_true(euclid(length, pulses)) == clamped(length, pulses),
{
    let p = clamped(length, pulses);
    if p == 0 {
        lemma_count_true_all_false(length);
    } else {
        let l: int = length as int;
        lemma_count_euclid_raw_prefix(l, p as int, l);
        assert(euclid_raw(length, p) =~= Seq::new(
            length,
            |j: int| pulse_at(l, p as int, j),
        ));
        lemma_div_multiples_vanish(p as int, l);
        lemma_count_true_rotated(euclid_raw(length, p), euclid_offset(length, p));
    }
}

/// A pulse count at or above the length saturates: every step is a pulse.
pub proof fn lemma_euclid_saturated(length: nat, pulses: nat)
    requires
        pulses >= length,
    ensures
        euclid(length, pulses) == Seq::new(length, |i: int| true),
{
    if length > 0 {
        let l: int = length as int;
        assert forall|i: int| 0 <= i < l implies pulse_at(l, l, i) by {
            lemma_mod_multiples_basic(i, l);
        }
        lemma_div_by_self(l);
        let raw = euclid_raw(length, length);
        assert forall|j: int| 0 <= j < l implies rotated(raw, 0)[j] by {
            lemma_small_mod(j as nat, l as nat);
        }
        assert(euclid(length, pulses) =~= Seq::new(length, |i: int| true));
    } else {
        assert(euclid(length, pulses) =~= Seq::new(length, |i: int| true));
    }
}

/// Rotating by `r` and then by `-r` restores the original sequence.
pub proof fn lemma_rotate_round_trip(s: Seq<bool>, r: int)
    ensures
        rotated(rotated(s, r), -r) == s,
{
    if s.len() > 0 {
        let l: int = s.len() as int;
        let t = rotated(s, r);
        assert forall|j: int| 0 <= j < l implies rotated(t, -r)[j] == s[j] by {
            lemma_mod_bound(j + r, l);
            lemma_sub_mod_noop((j + r) % l, r, l);
            lemma_mod_twice(j + r, l);
            lemma_sub_mod_noop(j + r, r, l);
            lemma_small_mod(j as nat, l as nat);
        }
        assert(rotated(rotated(s, r), -r) =~= s);
    }
}

/// Rotating a sequence by its own length restores it.
pub proof fn lemma_rotate_by_length(s: Seq<bool>)
    ensures
        rotated(s, s.len() as int) == s,
{
    if s.len() > 0 {
        let l: int = s.len() as int;
        assert forall|j: int| 0 <= j < l implies rotated(s, l)[j] == s[j] by {
            lemma_fundamental_div_mod_converse(j - l, l, -1, j);
        }
        assert(rotated(s, s.len() as int) =~= s);
    }
}

/// Growing a pattern and then shrinking it back to its original length
/// restores the original content.
pub proof fn lemma_resize_round_trip(s: Seq<bool>, n: nat)
    requires
        n >= s.len(),
    ensures
        resized(resized(s, n), s.len()) == s,
{
    assert(resized(resized(s, n), s.len()) =~= s);
}

} // verus!
