//! The reference neuron model: leaky integrate-and-fire over fixed-point
//! integers.
//!
//! The membrane potential decays linearly toward the resting potential at
//! `leak` units per elapsed instant, never crossing it; the two weighted
//! sums are then added with saturation, and the neuron fires — resetting
//! the potential — exactly when the result exceeds the threshold.  All
//! values live on whatever fixed-point scale the caller chose for the
//! network's weights.

use vstd::prelude::*;

use crate::neuron::Neuron;

verus! {

/// Floor of the membrane potential: inhibition saturates here instead of
/// running off toward the edge of the representable range.
pub const V_MEM_FLOOR: i128 = -0x4000_0000_0000_0000_0000_0000_0000_0000i128;

/// Addition of two potentials, saturated at the `i128` range.
pub open spec fn sat_add128(a: int, b: int) -> int {
    if a + b > i128::MAX as int {
        i128::MAX as int
    } else if a + b < i128::MIN as int {
        i128::MIN as int
    } else {
        a + b
    }
}

/// Moves `v` toward `rest` by `amount`, stopping at `rest`.
pub open spec fn decay_toward(v: int, rest: int, amount: int) -> int {
    if v >= rest {
        if v - amount >= rest {
            v - amount
        } else {
            rest
        }
    } else {
        if v + amount <= rest {
            v + amount
        } else {
            rest
        }
    }
}

fn sat_add(a: i128, b: i128) -> (r: i128)
    ensures
        r as int == sat_add128(a as int, b as int),
{
    if b >= 0 {
        if a > i128::MAX - b {
            i128::MAX
        } else {
            a + b
        }
    } else {
        if a < i128::MIN - b {
            i128::MIN
        } else {
            a + b
        }
    }
}

/// A leaky integrate-and-fire neuron on fixed-point integers.
#[derive(Clone, Copy, Debug, PartialEq, Eq, Structural)]
pub struct LifNeuron {
    pub v_th: i64,
    pub v_rest: i64,
    pub v_reset: i64,
    pub leak: i64,
    pub v_mem: i128,
    pub ts: u64,
}

impl LifNeuron {
    /// The instants elapsed since the last update, as this model counts
    /// them.
    pub open spec fn spec_elapsed(self, t: u64) -> int {
        if t >= self.ts {
            t - self.ts
        } else {
            0
        }
    }

    /// How far the potential is pulled toward rest over the gap to `t`.
    /// A negative leak counts as no leak at all.
    pub open spec fn spec_amount(self, t: u64) -> int {
        (if self.leak >= 0 {
            self.leak as int
        } else {
            0
        }) * self.spec_elapsed(t)
    }

    /// The potential after decaying for the gap to `t` and absorbing the
    /// two sums, before the threshold comparison.
    pub open spec fn spec_potential(self, t: u64, extra: int, intra: int) -> int {
        let decayed = decay_toward(self.v_mem as int, self.v_rest as int, self.spec_amount(t));
        sat_add128(sat_add128(decayed, extra), intra)
    }

    /// Builds a neuron with the given threshold, resting potential,
    /// post-fire reset potential, and linear leak per instant.  The neuron
    /// is healthy exactly when `v_rest` and `v_reset` do not exceed the
    /// threshold and the leak is not negative.
    pub fn new(v_th: i64, v_rest: i64, v_reset: i64, leak: i64) -> (r: Self)
        ensures
            r == (LifNeuron { v_th, v_rest, v_reset, leak, v_mem: v_rest as i128, ts: 0u64 }),
            r.inv() <==> (v_rest <= v_th && v_reset <= v_th && leak >= 0),
    {
        Self { v_th, v_rest, v_reset, leak, v_mem: v_rest as i128, ts: 0 }
    }

    /// The firing threshold.
    pub fn get_v_th(&self) -> (r: i64)
        ensures
            r == self.v_th,
    {
        self.v_th
    }

    /// The resting potential.
    pub fn get_v_rest(&self) -> (r: i64)
        ensures
            r == self.v_rest,
    {
        self.v_rest
    }

    /// The potential restored right after a fire.
    pub fn get_v_reset(&self) -> (r: i64)
        ensures
            r == self.v_reset,
    {
        self.v_reset
    }

    /// The linear leak per elapsed instant.
    pub fn get_leak(&self) -> (r: i64)
        ensures
            r == self.leak,
    {
        self.leak
    }

    /// The membrane potential.
    pub fn get_v_mem(&self) -> (r: i128)
        ensures
            r == self.v_mem,
    {
        self.v_mem
    }

    /// The instant of the last update.
    pub fn get_ts(&self) -> (r: u64)
        ensures
            r == self.ts,
    {
        self.ts
    }

}

/// Decay is insensitive to skipped updates: presenting an intermediate
/// instant with no contribution at all, and then the real event, leaves the
/// neuron exactly as the real event alone would have.  A layer may
/// therefore skip quiet instants without corrupting anyone's decay.
pub proof fn lemma_skipped_update(s: LifNeuron, t1: u64, t2: u64, extra: int, intra: int)
    requires
        s.inv(),
        s.ts <= t1 <= t2,
    ensures
        s.spec_next(t1, 0, 0).spec_next(t2, extra, intra) == s.spec_next(t2, extra, intra),
{
    let l = s.leak as int;
    let a = t1 - s.ts;
    let b = t2 - t1;
    assert(l * (a + b) == l * a + l * b) by (nonlinear_arith);
    assert(l * a >= 0 && l * b >= 0) by (nonlinear_arith)
        requires
            l >= 0 && a >= 0 && b >= 0,
    ;
    s.lemma_quiescent(t1);
    let s1 = s.spec_next(t1, 0, 0);
    assert(s1.v_mem as int == decay_toward(s.v_mem as int, s.v_rest as int, l * a));
    assert(decay_toward(decay_toward(s.v_mem as int, s.v_rest as int, l * a), s.v_rest as int, l
        * b) == decay_toward(s.v_mem as int, s.v_rest as int, l * (a + b)));
}

impl Neuron for LifNeuron {
    open spec fn inv(&self) -> bool {
        &&& self.v_rest <= self.v_th
        &&& self.v_reset <= self.v_th
        &&& self.leak >= 0
        &&& self.v_mem <= self.v_th as i128
        &&& self.v_mem >= V_MEM_FLOOR
    }

    open spec fn spec_init(&self) -> Self {
        LifNeuron { v_mem: self.v_rest as i128, ts: 0u64, ..*self }
    }

    open spec fn spec_next(&self, t: u64, extra: int, intra: int) -> Self {
        let v = self.spec_potential(t, extra, intra);
        if v > self.v_th as int {
            LifNeuron { v_mem: self.v_reset as i128, ts: t, ..*self }
        } else {
            LifNeuron {
                v_mem: (if v >= V_MEM_FLOOR as int {
                    v
                } else {
                    V_MEM_FLOOR as int
                }) as i128,
                ts: t,
                ..*self
            }
        }
    }

    open spec fn spec_fires(&self, t: u64, extra: int, intra: int) -> bool {
        self.spec_potential(t, extra, intra) > self.v_th as int
    }

    proof fn lemma_init(&self) {
    }

    proof fn lemma_next(&self, t: u64, extra: int, intra: int) {
    }

    proof fn lemma_quiescent(&self, t: u64) {
    }

    fn is_valid(&self) -> (r: bool) {
        self.v_rest <= self.v_th && self.v_reset <= self.v_th && self.leak >= 0 && self.v_mem
            <= self.v_th as i128 && self.v_mem >= V_MEM_FLOOR
    }

    fn compute_v_mem(&mut self, t: u64, extra_weighted_sum: i128, intra_weighted_sum: i128) -> (
        spike: u8
    ) {
        let elapsed: u64 = if t >= self.ts {
            t - self.ts
        } else {
            0
        };
        let lk: i64 = if self.leak >= 0 {
            self.leak
        } else {
            0
        };
        let amount: i128 = if elapsed > 0 {
            proof {
                assert((lk as i128) * (elapsed as i128) <= 0x8000_0000_0000_0000i128
                    * 0xffff_ffff_ffff_ffffi128) by (nonlinear_arith)
                    requires
                        0 <= lk < 0x8000_0000_0000_0000i128,
                        0 < elapsed <= 0xffff_ffff_ffff_ffffu64,
                ;
                assert((lk as i128) * (elapsed as i128) >= 0) by (nonlinear_arith)
                    requires
                        lk >= 0,
                        elapsed > 0,
                ;
            }
            (lk as i128) * (elapsed as i128)
        } else {
            0
        };
        let rest = self.v_rest as i128;
        let decayed: i128 = if self.v_mem >= rest {
            if self.v_mem - amount >= rest {
                self.v_mem - amount
            } else {
                rest
            }
        } else {
            if self.v_mem + amount <= rest {
                self.v_mem + amount
            } else {
                rest
            }
        };
        let v = sat_add(sat_add(decayed, extra_weighted_sum), intra_weighted_sum);
        self.ts = t;
        if v > self.v_th as i128 {
            self.v_mem = self.v_reset as i128;
            1
        } else {
            self.v_mem = if v >= V_MEM_FLOOR {
                v
            } else {
                V_MEM_FLOOR
            };
            0
        }
    }

    fn initialize(&mut self) {
        self.v_mem = self.v_rest as i128;
        self.ts = 0;
    }
}

} // verus!
