//! Fixed-length binary step sequences ("patterns") for rhythm engines:
//! pulses distributed as evenly as possible across the steps (Euclidean
//! rhythms), circular rotation, and cursor-based traversal.

use vstd::prelude::*;
use vstd::arithmetic::div_mod::{
    lemma_add_mod_noop_right, lemma_div_by_self, lemma_div_is_ordered,
    lemma_div_is_ordered_by_denominator, lemma_mod_bound, lemma_mod_twice, lemma_small_mod,
    lemma_sub_mod_noop, lemma_sub_mod_noop_right,
};

pub mod model;
mod storage;

use crate::model::{
    clamped, count_true, euclid, euclid_offset, euclid_raw, pulse_at, resized, rotated,
};
use crate::model::{
    lemma_bucket_step, lemma_count_euclid, lemma_euclid_raw_zero, lemma_euclid_saturated,
    lemma_rotate_left_form, lemma_rotate_right_form, lemma_rotated_congruent,
};
use crate::storage::{
    steps_of, sv_as_slice, sv_clear, sv_from_slice, sv_get, sv_len, sv_new, sv_push, sv_resize,
    sv_rotate_left, sv_rotate_right, StepVec,
};

verus! {

/// A fixed-length sequence of boolean steps (`true` is a pulse, `false` a
/// rest) with a traversal cursor.
pub struct Pattern {
    steps: StepVec,
    length: usize,
    cursor: usize,
}

impl View for Pattern {
    type V = Seq<bool>;

    /// The steps of the pattern, in temporal order.
    closed spec fn view(&self) -> Seq<bool> {
        steps_of(self.steps)
    }
}

impl Pattern {
    /// The stored length always matches the steps, and the cursor is a valid
    /// index or exactly one past the end.
    pub closed spec fn wf(&self) -> bool {
        steps_of(self.steps).len() == self.length && self.cursor <= self.length
    }

    /// The cursor: the index of the next step a traversal will emit.
    pub closed spec fn cursor_pos(&self) -> int {
        self.cursor as int
    }

    /// Returns a pattern with the given length, number of pulses and rotation.
    ///
    /// Always applies the pulse distribution, including when `pulses` is zero
    /// (leaving every step a rest), and then the rotation.
    pub fn new(length: usize, pulses: usize, rotation: isize) -> (r: Self)
        ensures
            r.wf(),
            r@ == rotated(euclid(length as nat, pulses as nat), rotation as int),
            r@.len() == length,
            r.cursor_pos() == 0,
    {
        let mut pattern = Pattern::with_length(length);
        pattern.pulses(pulses);
        pattern.rotate(rotation);
        pattern
    }

    /// Returns a pattern of `length` rests, with the cursor on the first step.
    pub fn with_length(length: usize) -> (r: Self)
        ensures
            r.wf(),
            r@ == Seq::new(length as nat, |i: int| false),
            r@.len() == length,
            r.cursor_pos() == 0,
    {
        let mut steps = sv_new();
        push_rests(&mut steps, length);
        proof {
            assert(steps_of(steps) =~= Seq::new(length as nat, |i: int| false));
        }
        Self { steps, length, cursor: 0 }
    }

    /// Returns a pattern whose steps are a copy of the slice, with the cursor
    /// on the first step.
    pub fn from_slice(slice: &[bool]) -> (r: Self)
        ensures
            r.wf(),
            r@ == slice@,
            r.cursor_pos() == 0,
    {
        Self { steps: sv_from_slice(slice), length: slice.len(), cursor: 0 }
    }

    /// Regenerates the steps so that `pulses` pulses (clamped to the length)
    /// are spaced as evenly as possible, with the first pulse at index 0.
    pub fn pulses(&mut self, pulses: usize)
        requires
            old(self).wf(),
        ensures
            final(self).wf(),
            final(self)@ == euclid(old(self)@.len(), pulses as nat),
            final(self)@.len() == old(self)@.len(),
            count_true(final(self)@) == clamped(old(self)@.len(), pulses as nat),
            pulses == 0 ==> final(self)@ == Seq::new(old(self)@.len(), |i: int| false),
            pulses >= old(self)@.len() ==> final(self)@ == Seq::new(
                old(self)@.len(),
                |i: int| true,
            ),
            final(self).cursor_pos() == old(self).cursor_pos(),
    {
        let l: usize = self.length;
        let p: usize = if pulses > l {
            l
        } else {
            pulses
        };
        sv_clear(&mut self.steps);
        let mut bucket: usize = 0;
        let mut i: usize = 0;
        proof {
            if l > 0 {
                lemma_small_mod(0nat, l as nat);
            }
        }
        while i < l
            invariant
                i <= l,
                p <= l,
                l == self.length,
                self.cursor == old(self).cursor,
                steps_of(self.steps).len() == i,
                forall|j: int|
                    0 <= j < i ==> #[trigger] steps_of(self.steps)[j] == pulse_at(
                        l as int,
                        p as int,
                        j,
                    ),
                l > 0 ==> bucket == (i as int * p as int) % (l as int),
            decreases l - i,
        {
            proof {
                lemma_mod_bound(i as int * p as int, l as int);
                lemma_bucket_step(l as int, p as int, i as int);
                assert((i as int + 1) * p as int == (i + 1) as int * p as int);
            }
            if bucket >= l - p {
                bucket = bucket - (l - p);
                sv_push(&mut self.steps, true);
            } else {
                bucket = bucket + p;
                sv_push(&mut self.steps, false);
            }
            i = i + 1;
        }
        proof {
            assert(steps_of(self.steps) =~= euclid_raw(l as nat, p as nat));
        }
        if l > 0 && p > 0 {
            proof {
                lemma_div_is_ordered(p as int, l as int, p as int);
                lemma_div_by_self(p as int);
                lemma_div_is_ordered_by_denominator(l as int, 1, p as int);
            }
            let offset: usize = l / p - 1;
            sv_rotate_right(&mut self.steps, offset);
            proof {
                lemma_rotate_right_form(euclid_raw(l as nat, p as nat), offset as int);
            }
        }
        proof {
            if p == 0 {
                lemma_euclid_raw_zero(l as nat);
            }
            assert(clamped(l as nat, pulses as nat) == p as nat);
            lemma_count_euclid(l as nat, pulses as nat);
            if pulses >= l {
                lemma_euclid_saturated(l as nat, pulses as nat);
            }
        }
    }

    /// Rotates the steps circularly by `rotation` positions: positive values
    /// rotate toward higher indices (delay), negative toward lower ones
    /// (advance).  The amount is reduced modulo the length; on an empty
    /// pattern this is a no-op.
    pub fn rotate(&mut self, rotation: isize)
        requires
            old(self).wf(),
        ensures
            final(self).wf(),
            final(self)@ == rotated(old(self)@, rotation as int),
            final(self)@.len() == old(self)@.len(),
            final(self).cursor_pos() == old(self).cursor_pos(),
    {
        if self.length == 0 {
            return;
        }
        let l: usize = self.length;
        let ghost s = self@;
        let ghost li = l as int;
        let ghost rot = rotation as int;
        if rotation >= 0 {
            let k: usize = (rotation as usize) % l;
            proof {
                lemma_mod_bound(rot, li);
                lemma_mod_twice(rot, li);
                lemma_small_mod(k as nat, l as nat);
                lemma_rotated_congruent(s, rot, k as int);
                lemma_rotate_right_form(s, k as int);
            }
            sv_rotate_right(&mut self.steps, k);
        } else {
            // one less than the magnitude: negating rotation itself could
            // overflow at the type's minimum value
            let a: usize = (-(rotation + 1)) as usize;
            let k: usize = (a % l + 1) % l;
            proof {
                lemma_mod_bound(a as int, li);
                lemma_add_mod_noop_right(1, a as int, li);
                lemma_mod_bound(a as int % li + 1, li);
                // k == (a + 1) % l == (-rot) % l; show (-k) % l == rot % l
                lemma_small_mod(k as nat, l as nat);
                lemma_small_mod(0nat, l as nat);
                lemma_sub_mod_noop(0, k as int, li);
                lemma_sub_mod_noop_right(0, -rot, li);
                lemma_rotated_congruent(s, rot, -(k as int));
                lemma_rotate_left_form(s, k as int);
            }
            sv_rotate_left(&mut self.steps, k);
        }
    }

    /// Sets every step to a rest; the length is unchanged.
    pub fn clear(&mut self)
        requires
            old(self).wf(),
        ensures
            final(self).wf(),
            final(self)@ == Seq::new(old(self)@.len(), |i: int| false),
            final(self)@.len() == old(self)@.len(),
            final(self).cursor_pos() == old(self).cursor_pos(),
    {
        sv_clear(&mut self.steps);
        push_rests(&mut self.steps, self.length);
        proof {
            assert(steps_of(self.steps) =~= Seq::new(old(self)@.len(), |i: int| false));
        }
    }

    /// Resizes the pattern: truncates, or pads at the end with rests.  A
    /// cursor beyond the new length is clamped to it (the one-past-the-end
    /// exhausted position).
    pub fn resize(&mut self, length: usize)
        requires
            old(self).wf(),
        ensures
            final(self).wf(),
            final(self)@ == resized(old(self)@, length as nat),
            final(self)@.len() == length,
            final(self).cursor_pos() == if old(self).cursor_pos() <= length as int {
                old(self).cursor_pos()
            } else {
                length as int
            },
    {
        sv_resize(&mut self.steps, length, false);
        self.length = length;
        if self.cursor > length {
            self.cursor = length;
        }
        proof {
            assert(steps_of(self.steps) =~= resized(old(self)@, length as nat));
        }
    }

    /// Moves the cursor to the first step.
    pub fn reset(&mut self)
        requires
            old(self).wf(),
        ensures
            final(self).wf(),
            final(self)@ == old(self)@,
            final(self).cursor_pos() == 0,
    {
        self.move_cursor(0);
    }

    /// Moves the cursor to `step` if it is a valid index; otherwise clamps it
    /// to the last valid index (a no-op on an empty pattern).
    pub fn move_cursor(&mut self, step: usize)
        requires
            old(self).wf(),
        ensures
            final(self).wf(),
            final(self)@ == old(self)@,
            final(self).cursor_pos() == if step < old(self)@.len() {
                step as int
            } else if old(self)@.len() > 0 {
                old(self)@.len() - 1
            } else {
                0
            },
    {
        if self.is_in_range(step) {
            self.cursor = step;
        } else if self.length > 0 {
            self.cursor = self.last_index();
        }
    }

    /// Returns the step at index `step`, or `None` if the index is out of
    /// range.  No side effects.
    pub fn step(&self, step: usize) -> (r: Option<bool>)
        requires
            self.wf(),
        ensures
            r == if step < self@.len() {
                Some(self@[step as int])
            } else {
                None::<bool>
            },
    {
        if self.is_in_range(step) {
            Some(sv_get(&self.steps, step))
        } else {
            None
        }
    }

    /// Returns the number of steps.
    pub fn len(&self) -> (r: usize)
        requires
            self.wf(),
        ensures
            r == self@.len(),
    {
        sv_len(&self.steps)
    }

    /// Returns the steps as a boolean slice.
    pub fn as_slice(&self) -> (r: &[bool])
        ensures
            r@ == self@,
    {
        sv_as_slice(&self.steps)
    }

    /// Finite traversal: returns the step under the cursor and advances the
    /// cursor, or, once the pattern is exhausted, returns `None` and moves
    /// the cursor back to the first step.
    pub fn next(&mut self) -> (r: Option<bool>)
        requires
            old(self).wf(),
        ensures
            final(self).wf(),
            final(self)@ == old(self)@,
            old(self).cursor_pos() < old(self)@.len() ==> r == Some(
                old(self)@[old(self).cursor_pos()],
            ) && final(self).cursor_pos() == old(self).cursor_pos() + 1,
            old(self).cursor_pos() >= old(self)@.len() ==> r == None::<bool>
                && final(self).cursor_pos() == 0,
    {
        if self.is_in_range(self.cursor) {
            let current: usize = self.cursor;
            self.cursor = self.cursor + 1;
            Some(sv_get(&self.steps, current))
        } else {
            self.cursor = 0;
            None
        }
    }

    /// Looping traversal: returns the step under the cursor and advances the
    /// cursor, wrapping to the first step right after the last one, so the
    /// emitted sequence is periodic with the pattern's length.  A cursor left
    /// one past the end by an exhausted finite traversal wraps first.
    pub fn next_looped(&mut self) -> (r: bool)
        requires
            old(self).wf(),
            old(self)@.len() > 0,
        ensures
            final(self).wf(),
            final(self)@ == old(self)@,
            old(self).cursor_pos() < old(self)@.len() ==> r == old(self)@[old(self).cursor_pos()]
                && final(self).cursor_pos() == if old(self).cursor_pos() + 1 == old(self)@.len() {
                0int
            } else {
                old(self).cursor_pos() + 1
            },
            old(self).cursor_pos() >= old(self)@.len() ==> r == old(self)@[0]
                && final(self).cursor_pos() == if old(self)@.len() == 1 {
                0int
            } else {
                1int
            },
    {
        let i: usize = if self.is_in_range(self.cursor) {
            self.cursor
        } else {
            0
        };
        let step: bool = sv_get(&self.steps, i);
        if i + 1 == self.length {
            self.cursor = 0;
        } else {
            self.cursor = i + 1;
        }
        step
    }

    /// Whether `step` is a valid index into the pattern.
    fn is_in_range(&self, step: usize) -> (r: bool)
        requires
            self.wf(),
        ensures
            r == (step < self@.len()),
    {
        step < self.length
    }

    /// The last valid index of a non-empty pattern.
    fn last_index(&self) -> (r: usize)
        requires
            self.wf(),
            self@.len() > 0,
        ensures
            r == self@.len() - 1,
    {
        self.length - 1
    }
}

/// Appends `n` rests to the backing vector.
fn push_rests(v: &mut StepVec, n: usize)
    ensures
        steps_of(*final(v)) == steps_of(*old(v)) + Seq::new(n as nat, |i: int| false),
{
    let mut i: usize = 0;
    proof {
        assert(steps_of(*v) =~= steps_of(*old(v)) + Seq::new(0nat, |j: int| false));
    }
    while i < n
        invariant
            i <= n,
            steps_of(*v) == steps_of(*old(v)) + Seq::new(i as nat, |j: int| false),
        decreases n - i,
    {
        sv_push(v, false);
        proof {
            assert(steps_of(*v) =~= steps_of(*old(v)) + Seq::new((i + 1) as nat, |j: int| false));
        }
        i = i + 1;
    }
    proof {
        assert(steps_of(*v) =~= steps_of(*old(v)) + Seq::new(n as nat, |j: int| false));
    }
}

} // verus!
