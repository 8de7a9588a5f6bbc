//! The logarithmic market scoring rule over the rescaled decimal domain:
//! `C(b, q) = b * M * ln(sum_i exp(q_i / (b * M)))` with `M` the money
//! supply cap. Rescaling by `b * M` keeps the argument of the decimal
//! exponential small enough not to overflow for realistic state vectors.
use vstd::prelude::*;

use crate::dec::Dec;
use crate::dec::add_of;
use crate::dec::dec_add;
use crate::dec::dec_div;
use crate::dec::dec_exp;
use crate::dec::dec_ln;
use crate::dec::dec_mul;
use crate::dec::dec_zero;
use crate::dec::div_of;
use crate::dec::exp_of;
use crate::dec::ln_of;
use crate::dec::mul_of;
use crate::dec::opt_model;

verus! {

/// The money supply cap, `21_000_000 * 10^8` base units: the rescaling
/// factor of the cost function.
pub const MAX_MONEY_MANTISSA: i128 = 21_000_000_00_000_000i128;

pub fn dec_max_money() -> (r: Dec)
    ensures
        r.wf(),
        r.mantissa == MAX_MONEY_MANTISSA,
        r.scale == 0,
{
    Dec { mantissa: MAX_MONEY_MANTISSA, scale: 0 }
}

/// The running sum of `exp(q_i / scaled_b)` over the state vector, folded
/// front to back from `acc`; `None` as soon as any decimal step fails.
pub open spec fn spec_sum_exp(
    q: Seq<(int, int)>,
    scaled_b: (int, int),
    acc: (int, int),
) -> Option<(int, int)>
    decreases q.len(),
{
    if q.len() == 0 {
        Some(acc)
    } else {
        match div_of(q[0].0, q[0].1, scaled_b.0, scaled_b.1) {
            None => None,
            Some(d) => match exp_of(d.0, d.1) {
                None => None,
                Some(e) => match add_of(acc.0, acc.1, e.0, e.1) {
                    None => None,
                    Some(acc2) => spec_sum_exp(q.drop_first(), scaled_b, acc2),
                },
            },
        }
    }
}

/// The cost of holding state `q` at liquidity `b`, composed exactly as the
/// executable pipeline computes it: scale `b`, sum the exponentials, take
/// the logarithm, and multiply back by `b` and then by the money cap.
pub open spec fn spec_lmsr_cost(b: (int, int), q: Seq<(int, int)>) -> Option<(int, int)> {
    match mul_of(b.0, b.1, MAX_MONEY_MANTISSA as int, 0) {
        None => None,
        Some(sb) => match spec_sum_exp(q, sb, (0int, 0int)) {
            None => None,
            Some(s) => match ln_of(s.0, s.1) {
                None => None,
                Some(l) => match mul_of(l.0, l.1, b.0, b.1) {
                    None => None,
                    Some(p) => mul_of(p.0, p.1, MAX_MONEY_MANTISSA as int, 0),
                },
            },
        },
    }
}

pub open spec fn dec_seq_wf(q: Seq<Dec>) -> bool {
    forall|i: int| 0 <= i < q.len() ==> (#[trigger] q[i]).wf()
}

pub open spec fn dec_models(q: Seq<Dec>) -> Seq<(int, int)> {
    Seq::new(q.len(), |i: int| q[i].model())
}

/// The cost of market state `state` at liquidity `b` under the rescaled
/// rule. `None` where a decimal step leaves the representable domain; the
/// result is a function of `b` and `state` alone, so every node computes
/// the same cost.
pub fn lmsr_cost(b: &Dec, state: &Vec<Dec>) -> (r: Option<Dec>)
    requires
        b.wf(),
        dec_seq_wf(state@),
    ensures
        opt_model(r) == spec_lmsr_cost(b.model(), dec_models(state@)),
        (r matches Some(c) ==> c.wf()),
{
    let ghost q = dec_models(state@);
    let max_money = dec_max_money();
    let scaled_b = match dec_mul(b, &max_money) {
        Some(sb) => sb,
        None => {
            return None;
        },
    };
    let mut acc = dec_zero();
    let mut i: usize = 0;
    proof {
        assert(q.skip(0) =~= q);
    }
    while i < state.len()
        invariant
            b.wf(),
            scaled_b.wf(),
            acc.wf(),
            dec_seq_wf(state@),
            q == dec_models(state@),
            i <= state@.len(),
            Some(scaled_b.model()) == mul_of(b.mantissa as int, b.scale as int,
                MAX_MONEY_MANTISSA as int, 0),
            spec_sum_exp(q, scaled_b.model(), (0int, 0int)) == spec_sum_exp(
                q.skip(i as int),
                scaled_b.model(),
                acc.model(),
            ),
        decreases state@.len() - i,
    {
        proof {
            assert(q.skip(i as int)[0] == state@[i as int].model());
            assert(q.skip(i as int).drop_first() =~= q.skip(i + 1));
        }
        let d = match dec_div(&state[i], &scaled_b) {
            Some(d) => d,
            None => {
                return None;
            },
        };
        let e = match dec_exp(&d) {
            Some(e) => e,
            None => {
                return None;
            },
        };
        acc = match dec_add(&acc, &e) {
            Some(a) => a,
            None => {
                return None;
            },
        };
        i = i + 1;
    }
    proof {
        assert(q.skip(q.len() as int).len() == 0);
    }
    let s = acc;
    let l = match dec_ln(&s) {
        Some(l) => l,
        None => {
            return None;
        },
    };
    let p = match dec_mul(&l, b) {
        Some(p) => p,
        None => {
            return None;
        },
    };
    dec_mul(&p, &max_money)
}

} // verus!
