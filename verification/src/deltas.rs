//! The mixed-radix flat index: a share coordinate over a market's shape is
//! flattened row-major into `[0, size)`, where `size` is the product of the
//! per-axis outcome counts. The flattening is a bijection between the valid
//! coordinates and `[0, size)`.
use vstd::prelude::*;

use crate::content::Market;
use crate::content::MarketV;
use crate::dec::Dec;
use crate::content::OutPoint;
use crate::state::Error;
use crate::state::State;
use crate::table::unique_keys;
use crate::content::FilledTransaction;

verus! {

/// The number of cells of a shape: the product of its axis sizes.
pub open spec fn spec_size(shape: Seq<u32>) -> int
    decreases shape.len(),
{
    if shape.len() == 0 {
        1
    } else {
        shape[0] * spec_size(shape.drop_first())
    }
}

/// The row-major flat index of a coordinate: each axis step weighs as much
/// as the whole sub-grid to its right.
pub open spec fn spec_flat_index(share: Seq<u32>, shape: Seq<u32>) -> int
    decreases share.len(),
{
    if share.len() == 0 {
        0
    } else {
        share[0] * spec_size(shape.drop_first()) + spec_flat_index(
            share.drop_first(),
            shape.drop_first(),
        )
    }
}

/// A coordinate fits a shape: same number of axes, each entry within its
/// axis.
pub open spec fn valid_share(share: Seq<u32>, shape: Seq<u32>) -> bool {
    &&& share.len() == shape.len()
    &&& forall|i: int| 0 <= i < share.len() ==> (#[trigger] share[i]) < shape[i]
}

/// The product of the axis sizes, multiplied front to back with every
/// partial product capped at `u32::MAX`; `None` where a partial product
/// leaves that range.
pub open spec fn spec_size_checked(shape: Seq<u32>) -> Option<int>
    decreases shape.len(),
{
    if shape.len() == 0 {
        Some(1)
    } else {
        match spec_size_checked(shape.drop_last()) {
            Some(p) => if p * shape.last() <= 0xffff_ffff {
                Some(p * shape.last())
            } else {
                None
            },
            None => None,
        }
    }
}

pub proof fn lemma_size_drop_last(shape: Seq<u32>)
    requires
        shape.len() > 0,
    ensures
        spec_size(shape) == spec_size(shape.drop_last()) * shape.last(),
    decreases shape.len(),
{
    if shape.len() == 1 {
        assert(shape.drop_first().len() == 0);
        assert(shape.drop_last().len() == 0);
        assert(spec_size(shape.drop_first()) == 1);
        assert(spec_size(shape.drop_last()) == 1);
        assert(shape.last() == shape[0]);
    } else {
        lemma_size_drop_last(shape.drop_first());
        assert(shape.drop_first().drop_last() =~= shape.drop_last().drop_first());
        assert(shape.drop_first().last() == shape.last());
        let a = shape[0] as int;
        let p = spec_size(shape.drop_last().drop_first());
        let l = shape.last() as int;
        assert(spec_size(shape.drop_first()) == p * l);
        assert(spec_size(shape) == a * (p * l));
        assert(shape.drop_last()[0] == shape[0]);
        assert(spec_size(shape.drop_last()) == a * p);
        assert(a * (p * l) == (a * p) * l) by (nonlinear_arith);
    }
}

/// A checked size is the size, and the size then fits 32 bits.
pub proof fn lemma_size_checked_sound(shape: Seq<u32>)
    ensures
        spec_size_checked(shape) matches Some(v) ==> v == spec_size(shape) && 0 <= v
            <= 0xffff_ffff,
    decreases shape.len(),
{
    if shape.len() > 0 {
        lemma_size_checked_sound(shape.drop_last());
        if spec_size_checked(shape) matches Some(v) {
            lemma_size_drop_last(shape);
            let p = spec_size_checked(shape.drop_last()).unwrap();
            assert(p * shape.last() >= 0) by (nonlinear_arith)
                requires
                    p >= 0,
            ;
        }
    }
}

/// Every axis of a valid coordinate is at least one deep, so the size of a
/// suffix never exceeds the size of the whole shape, and both are positive.
pub proof fn lemma_size_positive(shape: Seq<u32>)
    requires
        forall|i: int| 0 <= i < shape.len() ==> (#[trigger] shape[i]) >= 1,
    ensures
        spec_size(shape) >= 1,
    decreases shape.len(),
{
    if shape.len() > 0 {
        lemma_size_positive(shape.drop_first());
        let a = shape[0] as int;
        let p = spec_size(shape.drop_first());
        assert(a * p >= 1) by (nonlinear_arith)
            requires
                a >= 1,
                p >= 1,
        ;
    }
}

/// The flat index of a valid coordinate lies in `[0, size)`.
pub proof fn lemma_flat_index_range(share: Seq<u32>, shape: Seq<u32>)
    requires
        valid_share(share, shape),
    ensures
        0 <= spec_flat_index(share, shape) < spec_size(shape),
    decreases share.len(),
{
    if share.len() == 0 {
    } else {
        assert(valid_share(share.drop_first(), shape.drop_first())) by {
            assert forall|i: int| 0 <= i < share.drop_first().len() implies (
                #[trigger] share.drop_first()[i]) < shape.drop_first()[i] by {
                assert(share.drop_first()[i] == share[i + 1]);
                assert(shape.drop_first()[i] == shape[i + 1]);
            }
        }
        lemma_flat_index_range(share.drop_first(), shape.drop_first());
        assert forall|i: int| 0 <= i < shape.drop_first().len() implies (
            #[trigger] shape.drop_first()[i]) >= 1 by {
            assert(share.drop_first()[i] < shape.drop_first()[i]);
        }
        lemma_size_positive(shape.drop_first());
        let s0 = share[0] as int;
        let d0 = shape[0] as int;
        let sub = spec_size(shape.drop_first());
        let f = spec_flat_index(share.drop_first(), shape.drop_first());
        assert(s0 * sub + f < d0 * sub) by (nonlinear_arith)
            requires
                s0 < d0,
                0 <= f < sub,
        ;
        assert(s0 * sub >= 0) by (nonlinear_arith)
            requires
                s0 >= 0,
                sub >= 0,
        ;
    }
}

/// Two valid coordinates with the same flat index are the same coordinate.
pub proof fn lemma_flat_index_injective(s1: Seq<u32>, s2: Seq<u32>, shape: Seq<u32>)
    requires
        valid_share(s1, shape),
        valid_share(s2, shape),
        spec_flat_index(s1, shape) == spec_flat_index(s2, shape),
    ensures
        s1 == s2,
    decreases shape.len(),
{
    if shape.len() == 0 {
        assert(s1 =~= s2);
    } else {
        assert(valid_share(s1.drop_first(), shape.drop_first())
            && valid_share(s2.drop_first(), shape.drop_first())) by {
            assert forall|i: int| 0 <= i < shape.drop_first().len() implies (
                #[trigger] s1.drop_first()[i]) < shape.drop_first()[i] && s2.drop_first()[i]
                < shape.drop_first()[i] by {
                assert(s1.drop_first()[i] == s1[i + 1]);
                assert(s2.drop_first()[i] == s2[i + 1]);
                assert(shape.drop_first()[i] == shape[i + 1]);
            }
        }
        lemma_flat_index_range(s1.drop_first(), shape.drop_first());
        lemma_flat_index_range(s2.drop_first(), shape.drop_first());
        let sub = spec_size(shape.drop_first());
        let a1 = s1[0] as int;
        let a2 = s2[0] as int;
        let f1 = spec_flat_index(s1.drop_first(), shape.drop_first());
        let f2 = spec_flat_index(s2.drop_first(), shape.drop_first());
        assert(a1 == a2 && f1 == f2) by (nonlinear_arith)
            requires
                a1 * sub + f1 == a2 * sub + f2,
                0 <= f1 < sub,
                0 <= f2 < sub,
        ;
        lemma_flat_index_injective(s1.drop_first(), s2.drop_first(), shape.drop_first());
        assert forall|i: int| 0 <= i < s1.len() implies s1[i] == s2[i] by {
            if i > 0 {
                assert(s1[i] == s1.drop_first()[i - 1]);
                assert(s2[i] == s2.drop_first()[i - 1]);
            }
        }
        assert(s1 =~= s2);
    }
}

/// The coordinate whose flat index is `i`: the leading axis holds the
/// quotient by the sub-grid size, the rest unflatten the remainder.
pub open spec fn spec_unflatten(i: int, shape: Seq<u32>) -> Seq<u32>
    decreases shape.len(),
{
    if shape.len() == 0 {
        Seq::empty()
    } else {
        let sub = spec_size(shape.drop_first());
        seq![(i / sub) as u32] + spec_unflatten(i % sub, shape.drop_first())
    }
}

/// Every index in `[0, size)` is the flat index of a valid coordinate, so
/// together with the range and injectivity lemmas the flattening is a
/// bijection between the valid coordinates and `[0, size)`.
pub proof fn lemma_flat_index_surjective(i: int, shape: Seq<u32>)
    requires
        0 <= i < spec_size(shape),
        forall|k: int| 0 <= k < shape.len() ==> (#[trigger] shape[k]) >= 1,
    ensures
        valid_share(spec_unflatten(i, shape), shape),
        spec_flat_index(spec_unflatten(i, shape), shape) == i,
    decreases shape.len(),
{
    if shape.len() == 0 {
    } else {
        let sub = spec_size(shape.drop_first());
        assert forall|k: int| 0 <= k < shape.drop_first().len() implies (
            #[trigger] shape.drop_first()[k]) >= 1 by {
            assert(shape.drop_first()[k] == shape[k + 1]);
        }
        lemma_size_positive(shape.drop_first());
        let q = i / sub;
        let r = i % sub;
        vstd::arithmetic::div_mod::lemma_fundamental_div_mod(i, sub);
        vstd::arithmetic::div_mod::lemma_mod_division_less_than_divisor(i, sub);
        assert(0 <= r < sub && i == sub * q + r);
        assert(q >= 0) by (nonlinear_arith)
            requires
                sub >= 1,
                0 <= i,
                i == sub * q + r,
                r < sub,
        ;
        assert(q < shape[0]) by (nonlinear_arith)
            requires
                sub >= 1,
                i < shape[0] * sub,
                i == sub * q + r,
                0 <= r,
        ;
        lemma_flat_index_surjective(r, shape.drop_first());
        let s = spec_unflatten(i, shape);
        assert(s[0] == q as u32);
        assert(s.drop_first() =~= spec_unflatten(r, shape.drop_first()));
        assert(valid_share(s, shape)) by {
            assert forall|k: int| 0 <= k < s.len() implies (#[trigger] s[k]) < shape[k] by {
                if k == 0 {
                } else {
                    assert(s[k] == s.drop_first()[k - 1]);
                    assert(shape[k] == shape.drop_first()[k - 1]);
                }
            }
        }
        assert(s[0] as int == q);
        assert(spec_flat_index(s.drop_first(), shape.drop_first()) == r);
        assert(spec_flat_index(s, shape) == s[0] * sub + spec_flat_index(
            s.drop_first(),
            shape.drop_first(),
        ));
        assert(q * sub + r == i);
    }
}

/// Unflattening a coordinate's flat index gives the coordinate back.
pub proof fn lemma_unflatten_flat_index(share: Seq<u32>, shape: Seq<u32>)
    requires
        valid_share(share, shape),
    ensures
        spec_unflatten(spec_flat_index(share, shape), shape) == share,
    decreases 0int,
{
    assert forall|k: int| 0 <= k < shape.len() implies (#[trigger] shape[k]) >= 1 by {
        assert(share[k] < shape[k]);
    }
    lemma_flat_index_range(share, shape);
    lemma_flat_index_surjective(spec_flat_index(share, shape), shape);
    lemma_flat_index_injective(
        spec_unflatten(spec_flat_index(share, shape), shape),
        share,
        shape,
    );
}

// ---------------------------------------------------------------------------
// Executable size and flat index over the market table
// ---------------------------------------------------------------------------

/// What looking up a market's size yields: the market's record must exist
/// and its outcome space must fit 32 bits.
pub open spec fn spec_get_size(markets: Map<OutPoint, MarketV>, market: OutPoint) -> Result<
    int,
    Error,
> {
    if !markets.dom().contains(market) {
        Err(Error::NoUtxo { outpoint: market })
    } else {
        match spec_size_checked(markets[market].shape) {
            Some(v) => Ok(v),
            None => Err(Error::InvalidOutPoint { outpoint: market }),
        }
    }
}

/// What flattening a share against a market yields: the record must exist,
/// the coordinate must fit its shape, and the outcome space must fit 32
/// bits.
pub open spec fn spec_share_to_flat_index(
    markets: Map<OutPoint, MarketV>,
    market: OutPoint,
    share: Seq<u32>,
) -> Result<int, Error> {
    if !markets.dom().contains(market) {
        Err(Error::NoUtxo { outpoint: market })
    } else if !valid_share(share, markets[market].shape) {
        Err(Error::InvalidOutPoint { outpoint: market })
    } else if spec_size_checked(markets[market].shape) is None {
        Err(Error::InvalidOutPoint { outpoint: market })
    } else {
        Ok(spec_flat_index(share, markets[market].shape))
    }
}

impl State {
    /// The number of cells of a market's outcome grid. Fails with `NoUtxo`
    /// for an unknown market and with `InvalidOutPoint` for a market whose
    /// grid does not fit 32 bits.
    pub fn get_size(&self, market: &OutPoint) -> (r: Result<u32, Error>)
        requires
            self.tables_wf(),
        ensures
            match r {
                Ok(sz) => spec_get_size(self.markets@, *market) == Ok::<int, Error>(sz as int)
                    && sz as int == spec_size(self.markets@[*market].shape),
                Err(e) => spec_get_size(self.markets@, *market) == Err::<int, Error>(e),
            },
    {
        let m = match self.markets.get(market) {
            Some(m) => m,
            None => {
                return Err(Error::NoUtxo { outpoint: *market });
            },
        };
        let ghost shape = m@.shape;
        let mut acc: u32 = 1;
        let mut i: usize = 0;
        while i < m.shape.len()
            invariant
                i <= shape.len(),
                m.shape@ == shape,
                self.markets@.dom().contains(*market),
                self.markets@[*market].shape == shape,
                spec_size_checked(shape.subrange(0, i as int)) == Some(acc as int),
            decreases shape.len() - i,
        {
            proof {
                assert((acc as int) * (m.shape@[i as int] as int) < 0x1_0000_0000_0000_0000)
                    by (nonlinear_arith)
                    requires
                        0 <= acc as int <= 0xffff_ffff,
                        0 <= m.shape@[i as int] as int <= 0xffff_ffff,
                ;
            }
            let wide: u64 = (acc as u64) * (m.shape[i] as u64);
            proof {
                assert(shape.subrange(0, i + 1).drop_last() =~= shape.subrange(0, i as int));
                assert(shape.subrange(0, i + 1).last() == shape[i as int]);
            }
            if wide > 0xffff_ffffu64 {
                proof {
                    assert(wide as int == (acc as int) * (m.shape@[i as int] as int));
                    assert(spec_size_checked(shape.subrange(0, i + 1)) is None);
                    lemma_size_checked_prefix_none(shape, i + 1);
                    assert(spec_size_checked(shape) is None);
                }
                return Err(Error::InvalidOutPoint { outpoint: *market });
            }
            acc = wide as u32;
            i = i + 1;
        }
        proof {
            assert(shape.subrange(0, shape.len() as int) =~= shape);
            lemma_size_checked_sound(shape);
        }
        Ok(acc)
    }

    /// The flat index of a position's share coordinate in its market's
    /// grid.
    pub fn share_to_flat_index(&self, market: &OutPoint, share: &Vec<u32>) -> (r: Result<
        u32,
        Error,
    >)
        requires
            self.tables_wf(),
        ensures
            match r {
                Ok(idx) => spec_share_to_flat_index(self.markets@, *market, share@)
                    == Ok::<int, Error>(idx as int) && (idx as int) < spec_size(
                    self.markets@[*market].shape,
                ),
                Err(e) => spec_share_to_flat_index(self.markets@, *market, share@)
                    == Err::<int, Error>(e),
            },
    {
        let m = match self.markets.get(market) {
            Some(m) => m,
            None => {
                return Err(Error::NoUtxo { outpoint: *market });
            },
        };
        let ghost shape = m@.shape;
        if share.len() != m.shape.len() {
            return Err(Error::InvalidOutPoint { outpoint: *market });
        }
        let mut i: usize = 0;
        while i < share.len()
            invariant
                i <= share@.len(),
                m.shape@ == shape,
                self.markets@.dom().contains(*market),
                self.markets@[*market].shape == shape,
                share@.len() == shape.len(),
                forall|j: int| 0 <= j < i ==> (#[trigger] share@[j]) < shape[j],
            decreases share@.len() - i,
        {
            if share[i] >= m.shape[i] {
                proof {
                    assert(!(share@[i as int] < shape[i as int]));
                    assert(!valid_share(share@, shape));
                }
                return Err(Error::InvalidOutPoint { outpoint: *market });
            }
            i = i + 1;
        }
        assert(valid_share(share@, shape));
        let mut step: u32 = match self.get_size(market) {
            Ok(sz) => sz,
            Err(e) => {
                proof {
                    assert(e == Error::InvalidOutPoint { outpoint: *market });
                }
                return Err(e);
            },
        };
        proof {
            lemma_flat_index_range(share@, shape);
            assert(shape.subrange(0, shape.len() as int) =~= shape);
        }
        let mut flat_index: u32 = 0;
        let mut k: usize = 0;
        proof {
            assert(share@.skip(0) =~= share@);
            assert(shape.skip(0) =~= shape);
        }
        while k < share.len()
            invariant
                self.tables_wf(),
                k <= share@.len(),
                m.shape@ == shape,
                self.markets@.dom().contains(*market),
                self.markets@[*market].shape == shape,
                valid_share(share@, shape),
                step as int == spec_size(shape.skip(k as int)),
                flat_index as int + spec_flat_index(share@.skip(k as int), shape.skip(k as int))
                    == spec_flat_index(share@, shape),
                0 <= spec_flat_index(share@, shape) < spec_size(shape),
                spec_size(shape) <= 0xffff_ffff,
                flat_index as int <= spec_flat_index(share@, shape),
            decreases share@.len() - k,
        {
            proof {
                assert(share@.skip(k as int).drop_first() =~= share@.skip(k + 1));
                assert(shape.skip(k as int).drop_first() =~= shape.skip(k + 1));
                assert(share@.skip(k as int)[0] == share@[k as int]);
                assert(shape.skip(k as int)[0] == shape[k as int]);
                assert(valid_share(share@.skip(k + 1), shape.skip(k + 1))) by {
                    assert forall|j: int| 0 <= j < share@.skip(k + 1).len() implies (
                        #[trigger] share@.skip(k + 1)[j]) < shape.skip(k + 1)[j] by {
                        assert(share@.skip(k + 1)[j] == share@[j + k + 1]);
                        assert(shape.skip(k + 1)[j] == shape[j + k + 1]);
                    }
                }
                lemma_flat_index_range(share@.skip(k + 1), shape.skip(k + 1));
                let d = shape[k as int] as int;
                let sub = spec_size(shape.skip(k + 1));
                assert(spec_size(shape.skip(k as int)) == d * sub);
                assert(sub >= 0 && d >= 1 && (d * sub) / d == sub) by (nonlinear_arith)
                    requires
                        d >= 1,
                        sub >= 0,
                ;
                assert(share@[k as int] * sub <= (d - 1) * sub) by (nonlinear_arith)
                    requires
                        share@[k as int] as int <= d - 1,
                        sub >= 0,
                ;
                assert((d - 1) * sub + sub == d * sub) by (nonlinear_arith);
            }
            step = step / m.shape[k];
            flat_index = flat_index + share[k] * step;
            k = k + 1;
        }
        proof {
            assert(share@.skip(share@.len() as int).len() == 0);
            assert(flat_index as int == spec_flat_index(share@, shape));
        }
        Ok(flat_index)
    }
}

/// If a partial product has left the 32-bit range, the whole checked size
/// is `None`.
pub proof fn lemma_size_checked_prefix_none(shape: Seq<u32>, i: int)
    requires
        0 <= i <= shape.len(),
        spec_size_checked(shape.subrange(0, i)) is None,
    ensures
        spec_size_checked(shape) is None,
    decreases shape.len() - i,
{
    if i == shape.len() {
        assert(shape.subrange(0, i) =~= shape);
    } else {
        assert(shape.subrange(0, i + 1).drop_last() =~= shape.subrange(0, i));
        lemma_size_checked_prefix_none(shape, i + 1);
    }
}

// ---------------------------------------------------------------------------
// The delta accumulator: one walk over a filled transaction's inputs and
// outputs yields the per-market share deltas, the summed input value, and
// the summed output value including the implicit funding charge on newly
// created markets.
// ---------------------------------------------------------------------------

/// The entry sequence of a delta table, in first-touch order; the order is
/// part of the rule, since decimal addition of the per-market costs is not
/// associative.
pub open spec fn delta_entries_view(entries: Seq<(OutPoint, Vec<i128>)>) -> Seq<
    (OutPoint, Seq<i128>),
> {
    Seq::new(entries.len(), |i: int| (entries[i].0, entries[i].1@))
}

pub open spec fn spec_zeros(n: int) -> Seq<i128> {
    Seq::new(n as nat, |i: int| 0i128)
}

/// Every accumulated row belongs to a live market, spans its grid, and
/// stays within the 96-bit decimal mantissa domain.
pub open spec fn delta_rows_ok(
    entries: Seq<(OutPoint, Seq<i128>)>,
    markets: Map<OutPoint, MarketV>,
) -> bool {
    forall|i: int| 0 <= i < entries.len() ==> {
        &&& markets.dom().contains((#[trigger] entries[i]).0)
        &&& entries[i].1.len() == spec_size(markets[entries[i].0].shape)
        &&& forall|j: int| 0 <= j < entries[i].1.len()
            ==> -crate::dec::MAX_DEC_MANTISSA <= (#[trigger] entries[i].1[j])
                <= crate::dec::MAX_DEC_MANTISSA
    }
}

/// One position's contribution: the market's grid size allocates a zero row
/// on first touch, the share coordinate picks the cell, and the position's
/// value is added or subtracted there. Fails as the size or index lookup
/// fails, or with `U64Overflow` when the cell leaves the decimal mantissa
/// domain.
pub open spec fn spec_apply_position(
    markets: Map<OutPoint, MarketV>,
    deltas: Seq<(OutPoint, Seq<i128>)>,
    market: OutPoint,
    share: Seq<u32>,
    value: u64,
    negate: bool,
) -> Result<Seq<(OutPoint, Seq<i128>)>, Error> {
    match spec_get_size(markets, market) {
        Err(e) => Err(e),
        Ok(sz) => {
            let deltas1 = if crate::table::has_key(deltas, market) {
                deltas
            } else {
                deltas.push((market, spec_zeros(sz)))
            };
            match spec_share_to_flat_index(markets, market, share) {
                Err(e) => Err(e),
                Ok(idx) => {
                    let at = crate::table::idx_of(deltas1, market);
                    let row = deltas1[at].1;
                    let x = row[idx] + if negate {
                        -(value as int)
                    } else {
                        value as int
                    };
                    if x < -crate::dec::MAX_DEC_MANTISSA || x > crate::dec::MAX_DEC_MANTISSA {
                        Err(
                            Error::U64Overflow {
                                decimal: (Dec { mantissa: x as i128, scale: 0u32 }),
                            },
                        )
                    } else {
                        Ok(deltas1.update(at, (market, row.update(idx, x as i128))))
                    }
                },
            }
        },
    }
}

/// Walking the spent outputs: face values sum into the input value, and
/// each spent position subtracts its value from its market's row.
pub open spec fn spec_walk_spent(
    markets: Map<OutPoint, MarketV>,
    spent: Seq<crate::content::OutputV>,
    deltas: Seq<(OutPoint, Seq<i128>)>,
    value: int,
) -> Result<(Seq<(OutPoint, Seq<i128>)>, int), Error>
    decreases spent.len(),
{
    if spent.len() == 0 {
        Ok((deltas, value))
    } else {
        let v2 = value + spent[0].content.spec_get_value();
        if v2 > 0xffff_ffff_ffff_ffff {
            Err(Error::U64Overflow { decimal: (Dec { mantissa: v2 as i128, scale: 0u32 }) })
        } else {
            match spent[0].content {
                crate::content::ContentV::Custom(
                    crate::content::HivemindContentV::Position { market, share, value: pv },
                ) => match spec_apply_position(markets, deltas, market, share, pv, true) {
                    Err(e) => Err(e),
                    Ok(d2) => spec_walk_spent(markets, spent.drop_first(), d2, v2),
                },
                _ => spec_walk_spent(markets, spent.drop_first(), deltas, v2),
            }
        }
    }
}

/// The product of the referenced decisions' outcome counts, folded front to
/// back. Fails with `NoUtxo` for a missing decision, `InvalidOutPoint` for
/// a reference that is no decision or a decision with no outcomes, and
/// `U64Overflow` when a partial product leaves 32 bits.
pub open spec fn spec_funding_size(
    utxos: Map<OutPoint, crate::content::OutputV>,
    decisions: Seq<OutPoint>,
    acc: int,
) -> Result<int, Error>
    decreases decisions.len(),
{
    if decisions.len() == 0 {
        Ok(acc)
    } else {
        let d = decisions[0];
        if !utxos.dom().contains(d) {
            Err(Error::NoUtxo { outpoint: d })
        } else {
            match utxos[d].content {
                crate::content::ContentV::Custom(
                    crate::content::HivemindContentV::Decision { size, .. },
                ) => if size == 0 {
                    Err(Error::InvalidOutPoint { outpoint: d })
                } else if acc * size > 0xffff_ffff {
                    Err(
                        Error::U64Overflow {
                            decimal: (Dec { mantissa: (acc * size) as i128, scale: 0u32 }),
                        },
                    )
                } else {
                    spec_funding_size(utxos, decisions.drop_first(), acc * size)
                },
                _ => Err(Error::InvalidOutPoint { outpoint: d }),
            }
        }
    }
}

/// The one-time charge for creating a market: `b * ln(size)`, converted to
/// a 64-bit amount; zero for every other output. Seeding a rule at zero has
/// worst-case payout `b * ln(size)`, and the creator funds that cap.
pub open spec fn spec_funding_cost(
    utxos: Map<OutPoint, crate::content::OutputV>,
    o: crate::content::OutputV,
) -> Result<int, Error> {
    match o.content {
        crate::content::ContentV::Custom(
            crate::content::HivemindContentV::Market { b, decisions },
        ) => match spec_funding_size(utxos, decisions, 1) {
            Err(e) => Err(e),
            Ok(sz) => match crate::dec::ln_of(sz, 0) {
                None => Err(
                    Error::U64Overflow { decimal: (Dec { mantissa: sz as i128, scale: 0u32 }) },
                ),
                Some(l) => match crate::dec::mul_of(b as int, 0, l.0, l.1) {
                    None => Err(
                        Error::U64Overflow {
                            decimal: (Dec { mantissa: b as i128, scale: 0u32 }),
                        },
                    ),
                    Some(c) => match crate::dec::to_u64_of(c.0, c.1) {
                        None => Err(
                            Error::U64Overflow {
                                decimal: (Dec { mantissa: c.0 as i128, scale: c.1 as u32 }),
                            },
                        ),
                        Some(v) => Ok(v),
                    },
                },
            },
        },
        _ => Ok(0),
    }
}

/// Walking the created outputs: face values and market funding charges sum
/// into the output value, and each created position adds its value to its
/// market's row.
pub open spec fn spec_walk_outputs(
    markets: Map<OutPoint, MarketV>,
    utxos: Map<OutPoint, crate::content::OutputV>,
    outputs: Seq<crate::content::OutputV>,
    deltas: Seq<(OutPoint, Seq<i128>)>,
    value: int,
) -> Result<(Seq<(OutPoint, Seq<i128>)>, int), Error>
    decreases outputs.len(),
{
    if outputs.len() == 0 {
        Ok((deltas, value))
    } else {
        let v2 = value + outputs[0].content.spec_get_value();
        if v2 > 0xffff_ffff_ffff_ffff {
            Err(Error::U64Overflow { decimal: (Dec { mantissa: v2 as i128, scale: 0u32 }) })
        } else {
            match spec_funding_cost(utxos, outputs[0]) {
                Err(e) => Err(e),
                Ok(fc) => {
                    let v3 = v2 + fc;
                    if v3 > 0xffff_ffff_ffff_ffff {
                        Err(
                            Error::U64Overflow {
                                decimal: (Dec { mantissa: v3 as i128, scale: 0u32 }),
                            },
                        )
                    } else {
                        match outputs[0].content {
                            crate::content::ContentV::Custom(
                                crate::content::HivemindContentV::Position {
                                    market,
                                    share,
                                    value: pv,
                                },
                            ) => match spec_apply_position(
                                markets,
                                deltas,
                                market,
                                share,
                                pv,
                                false,
                            ) {
                                Err(e) => Err(e),
                                Ok(d2) => spec_walk_outputs(
                                    markets,
                                    utxos,
                                    outputs.drop_first(),
                                    d2,
                                    v3,
                                ),
                            },
                            _ => spec_walk_outputs(
                                markets,
                                utxos,
                                outputs.drop_first(),
                                deltas,
                                v3,
                            ),
                        }
                    }
                },
            }
        }
    }
}

/// A delta table whose rows all fit their markets, with distinct keys.
pub open spec fn delta_table_ok(
    t: crate::table::Table<Vec<i128>>,
    markets: Map<OutPoint, MarketV>,
) -> bool {
    &&& t.wf()
    &&& delta_rows_ok(delta_entries_view(t.entries@), markets)
}

impl State {
    /// The implicit output-side charge of an output: the market funding
    /// cost for a market output, zero for everything else.
    pub fn get_market_funding_cost(&self, output: &crate::content::Output) -> (r: Result<
        u64,
        Error,
    >)
        requires
            self.tables_wf(),
        ensures
            match r {
                Ok(v) => spec_funding_cost(self.utxos@, output@) == Ok::<int, Error>(v as int),
                Err(e) => spec_funding_cost(self.utxos@, output@) == Err::<int, Error>(e),
            },
    {
        let (b, decisions) = match &output.content {
            crate::content::Content::Custom(
                crate::content::HivemindContent::Market { b, decisions },
            ) => (*b, decisions),
            _ => {
                return Ok(0);
            },
        };
        let ghost dseq = decisions@;
        let mut acc: u32 = 1;
        let mut i: usize = 0;
        proof {
            assert(dseq.skip(0) =~= dseq);
        }
        while i < decisions.len()
            invariant
                self.tables_wf(),
                i <= dseq.len(),
                decisions@ == dseq,
                output@.content == crate::content::ContentV::Custom(
                    crate::content::HivemindContentV::Market { b, decisions: dseq },
                ),
                spec_funding_size(self.utxos@, dseq, 1) == spec_funding_size(
                    self.utxos@,
                    dseq.skip(i as int),
                    acc as int,
                ),
            decreases dseq.len() - i,
        {
            proof {
                assert(dseq.skip(i as int)[0] == dseq[i as int]);
                assert(dseq.skip(i as int).drop_first() =~= dseq.skip(i + 1));
            }
            let d = decisions[i];
            let size = match self.utxos.get(&d) {
                None => {
                    return Err(Error::NoUtxo { outpoint: d });
                },
                Some(o) => match &o.content {
                    crate::content::Content::Custom(
                        crate::content::HivemindContent::Decision { size, .. },
                    ) => *size,
                    _ => {
                        return Err(Error::InvalidOutPoint { outpoint: d });
                    },
                },
            };
            if size == 0 {
                return Err(Error::InvalidOutPoint { outpoint: d });
            }
            proof {
                assert((acc as int) * (size as int) < 0x1_0000_0000_0000_0000)
                    by (nonlinear_arith)
                    requires
                        0 <= acc as int <= 0xffff_ffff,
                        0 <= size as int <= 0xffff_ffff,
                ;
            }
            let wide: u64 = (acc as u64) * (size as u64);
            if wide > 0xffff_ffffu64 {
                return Err(
                    Error::U64Overflow {
                        decimal: Dec { mantissa: wide as i128, scale: 0 },
                    },
                );
            }
            acc = wide as u32;
            i = i + 1;
        }
        proof {
            assert(dseq.skip(dseq.len() as int).len() == 0);
        }
        let sz_dec = Dec { mantissa: acc as i128, scale: 0 };
        let l = match crate::dec::dec_ln(&sz_dec) {
            Some(l) => l,
            None => {
                return Err(Error::U64Overflow { decimal: sz_dec });
            },
        };
        let b_dec = crate::dec::dec_from_u64(b);
        let c = match crate::dec::dec_mul(&b_dec, &l) {
            Some(c) => c,
            None => {
                return Err(Error::U64Overflow { decimal: b_dec });
            },
        };
        match crate::dec::dec_to_u64(&c) {
            Some(v) => Ok(v),
            None => Err(Error::U64Overflow { decimal: c }),
        }
    }

    /// Adds or subtracts one position's value in its market's delta row,
    /// allocating a zero row on the market's first touch.
    fn apply_position_delta(
        &self,
        deltas: &mut crate::table::Table<Vec<i128>>,
        market: &OutPoint,
        share: &Vec<u32>,
        value: u64,
        negate: bool,
    ) -> (r: Result<(), Error>)
        requires
            self.tables_wf(),
            delta_table_ok(*old(deltas), self.markets@),
        ensures
            match r {
                Ok(_) => spec_apply_position(
                    self.markets@,
                    delta_entries_view(old(deltas).entries@),
                    *market,
                    share@,
                    value,
                    negate,
                ) == Ok::<_, Error>(delta_entries_view(final(deltas).entries@))
                    && delta_table_ok(*final(deltas), self.markets@),
                Err(e) => spec_apply_position(
                    self.markets@,
                    delta_entries_view(old(deltas).entries@),
                    *market,
                    share@,
                    value,
                    negate,
                ) == Err::<Seq<(OutPoint, Seq<i128>)>, Error>(e),
            },
    {
        let ghost v0 = delta_entries_view(old(deltas).entries@);
        let sz = match self.get_size(market) {
            Ok(s) => s,
            Err(e) => {
                return Err(e);
            },
        };
        let at: usize = match deltas.find(market) {
            Some(i) => {
                proof {
                    crate::table::lemma_idx_of_unique(deltas.entries@, i as int);
                    assert(crate::table::has_key(v0, *market)) by {
                        assert(v0[i as int].0 == *market);
                    }
                    assert(crate::table::idx_of(v0, *market) == i as int) by {
                        assert(unique_keys(v0)) by {
                            assert forall|a: int, b: int| 0 <= a < b < v0.len() implies (
                                #[trigger] v0[a]).0 != (#[trigger] v0[b]).0 by {
                                assert(v0[a].0 == deltas.entries@[a].0);
                                assert(v0[b].0 == deltas.entries@[b].0);
                            }
                        }
                        crate::table::lemma_idx_of_unique(v0, i as int);
                    }
                }
                i
            },
            None => {
                let mut row: Vec<i128> = Vec::new();
                let sz_us = sz as usize;
                let mut j: usize = 0;
                while j < sz_us
                    invariant
                        sz_us == sz as usize,
                        j <= sz_us,
                        row@.len() == j,
                        forall|q: int| 0 <= q < j ==> (#[trigger] row@[q]) == 0i128,
                    decreases sz_us - j,
                {
                    row.push(0i128);
                    j = j + 1;
                }
                proof {
                    assert(row@ =~= spec_zeros(sz as int));
                }
                let at = deltas.entries.len();
                deltas.entries.push((*market, row));
                proof {
                    let s1 = deltas.entries@;
                    assert forall|a: int, b: int| 0 <= a < b < s1.len() implies (
                        #[trigger] s1[a]).0 != (#[trigger] s1[b]).0 by {
                        if b < s1.len() - 1 {
                        } else {
                            assert(s1[b].0 == *market);
                            assert(s1[a].0 == old(deltas).entries@[a].0);
                            if s1[a].0 == *market {
                                assert(crate::table::has_key(old(deltas).entries@, *market));
                            }
                        }
                    }
                    assert(delta_entries_view(s1) =~= v0.push((*market, spec_zeros(sz as int))));
                    assert(!crate::table::has_key(v0, *market)) by {
                        if crate::table::has_key(v0, *market) {
                            let q = crate::table::idx_of(v0, *market);
                            assert(old(deltas).entries@[q].0 == *market);
                            assert(crate::table::has_key(old(deltas).entries@, *market));
                        }
                    }
                    crate::table::lemma_idx_of_unique(delta_entries_view(s1), at as int);
                }
                at
            },
        };
        let ghost v1 = delta_entries_view(deltas.entries@);
        proof {
            assert(v1[at as int].0 == *market);
            assert(crate::table::idx_of(v1, *market) == at as int);
            assert(v1[at as int].1.len() == sz as int);
        }
        let fi = match self.share_to_flat_index(market, share) {
            Ok(f) => f,
            Err(e) => {
                return Err(e);
            },
        };
        let mut row = crate::state::copy_i128s(&deltas.entries[at].1);
        let signed: i128 = if negate {
            -(value as i128)
        } else {
            value as i128
        };
        let x: i128 = row[fi as usize] + signed;
        if x < -crate::dec::MAX_DEC_MANTISSA || x > crate::dec::MAX_DEC_MANTISSA {
            return Err(Error::U64Overflow { decimal: Dec { mantissa: x, scale: 0 } });
        }
        row[fi as usize] = x;
        let key = *market;
        deltas.entries[at] = (key, row);
        proof {
            let v2 = delta_entries_view(deltas.entries@);
            assert(v2 =~= v1.update(
                at as int,
                (*market, v1[at as int].1.update(fi as int, x)),
            ));
            assert(deltas.wf()) by {
                assert forall|a: int, b: int| 0 <= a < b < deltas.entries@.len() implies (
                    #[trigger] deltas.entries@[a]).0 != (#[trigger] deltas.entries@[b]).0 by {
                    assert(v2[a].0 != v2[b].0);
                }
            }
            assert(delta_rows_ok(v2, self.markets@)) by {
                assert forall|i: int| 0 <= i < v2.len() implies {
                    &&& self.markets@.dom().contains((#[trigger] v2[i]).0)
                    &&& v2[i].1.len() == spec_size(self.markets@[v2[i].0].shape)
                    &&& forall|j: int| 0 <= j < v2[i].1.len()
                        ==> -crate::dec::MAX_DEC_MANTISSA <= (#[trigger] v2[i].1[j])
                            <= crate::dec::MAX_DEC_MANTISSA
                } by {
                    if i != at as int {
                        assert(v2[i] == v1[i]);
                    }
                }
            }
        }
        Ok(())
    }

    /// One walk over the filled transaction: the per-market share deltas,
    /// the summed input value, and the summed output value including the
    /// funding charge of each created market.
    pub fn get_deltas_and_values(&self, transaction: &FilledTransaction) -> (r: Result<
        (crate::table::Table<Vec<i128>>, u64, u64),
        Error,
    >)
        requires
            self.tables_wf(),
        ensures
            match r {
                Ok(t) => spec_deltas_and_values(self.markets@, self.utxos@, transaction@)
                    == Ok::<_, Error>(
                    (delta_entries_view(t.0.entries@), t.1 as int, t.2 as int),
                ) && delta_table_ok(t.0, self.markets@),
                Err(e) => spec_deltas_and_values(self.markets@, self.utxos@, transaction@)
                    == Err::<(Seq<(OutPoint, Seq<i128>)>, int, int), Error>(e),
            },
    {
        let ghost spent_v = transaction@.spent_utxos;
        let ghost outputs_v = transaction@.transaction.outputs;
        let mut deltas: crate::table::Table<Vec<i128>> = crate::table::Table::new();
        proof {
            assert(delta_entries_view(deltas.entries@) =~= Seq::<(OutPoint, Seq<i128>)>::empty());
            assert(spent_v.skip(0) =~= spent_v);
        }
        let mut input_value: u64 = 0;
        let mut i: usize = 0;
        while i < transaction.spent_utxos.len()
            invariant
                self.tables_wf(),
                i <= spent_v.len(),
                transaction.spent_utxos@.len() == spent_v.len(),
                spent_v == transaction@.spent_utxos,
                delta_table_ok(deltas, self.markets@),
                spec_walk_spent(self.markets@, spent_v, Seq::empty(), 0)
                    == spec_walk_spent(
                    self.markets@,
                    spent_v.skip(i as int),
                    delta_entries_view(deltas.entries@),
                    input_value as int,
                ),
            decreases spent_v.len() - i,
        {
            proof {
                assert(spent_v.skip(i as int)[0] == transaction.spent_utxos@[i as int]@);
                assert(spent_v.skip(i as int).drop_first() =~= spent_v.skip(i + 1));
            }
            let o = &transaction.spent_utxos[i];
            let val = o.get_value();
            if val > 0xffff_ffff_ffff_ffffu64 - input_value {
                return Err(
                    Error::U64Overflow {
                        decimal: Dec {
                            mantissa: input_value as i128 + val as i128,
                            scale: 0,
                        },
                    },
                );
            }
            input_value = input_value + val;
            match &o.content {
                crate::content::Content::Custom(
                    crate::content::HivemindContent::Position { market, share, value },
                ) => {
                    match self.apply_position_delta(&mut deltas, market, share, *value, true) {
                        Ok(_) => {},
                        Err(e) => {
                            return Err(e);
                        },
                    }
                },
                _ => {},
            }
            i = i + 1;
        }
        proof {
            assert(spent_v.skip(spent_v.len() as int).len() == 0);
            assert(outputs_v.skip(0) =~= outputs_v);
        }
        let ghost delta_state_0 = delta_entries_view(deltas.entries@);
        let mut output_value: u64 = 0;
        let mut k: usize = 0;
        while k < transaction.transaction.outputs.len()
            invariant
                self.tables_wf(),
                k <= outputs_v.len(),
                transaction.transaction.outputs@.len() == outputs_v.len(),
                outputs_v == transaction@.transaction.outputs,
                spent_v == transaction@.spent_utxos,
                delta_table_ok(deltas, self.markets@),
                spec_walk_spent(self.markets@, spent_v, Seq::empty(), 0) == Ok::<
                    (Seq<(OutPoint, Seq<i128>)>, int),
                    Error,
                >((delta_state_0, input_value as int)),
                spec_walk_outputs(self.markets@, self.utxos@, outputs_v, delta_state_0, 0)
                    == spec_walk_outputs(
                    self.markets@,
                    self.utxos@,
                    outputs_v.skip(k as int),
                    delta_entries_view(deltas.entries@),
                    output_value as int,
                ),
            decreases outputs_v.len() - k,
        {
            proof {
                assert(outputs_v.skip(k as int)[0]
                    == transaction.transaction.outputs@[k as int]@);
                assert(outputs_v.skip(k as int).drop_first() =~= outputs_v.skip(k + 1));
            }
            let o = &transaction.transaction.outputs[k];
            let val = o.get_value();
            if val > 0xffff_ffff_ffff_ffffu64 - output_value {
                return Err(
                    Error::U64Overflow {
                        decimal: Dec {
                            mantissa: output_value as i128 + val as i128,
                            scale: 0,
                        },
                    },
                );
            }
            let v2 = output_value + val;
            let fc = match self.get_market_funding_cost(o) {
                Ok(fc) => fc,
                Err(e) => {
                    return Err(e);
                },
            };
            if fc > 0xffff_ffff_ffff_ffffu64 - v2 {
                return Err(
                    Error::U64Overflow {
                        decimal: Dec { mantissa: v2 as i128 + fc as i128, scale: 0 },
                    },
                );
            }
            output_value = v2 + fc;
            match &o.content {
                crate::content::Content::Custom(
                    crate::content::HivemindContent::Position { market, share, value },
                ) => {
                    match self.apply_position_delta(&mut deltas, market, share, *value, false) {
                        Ok(_) => {},
                        Err(e) => {
                            return Err(e);
                        },
                    }
                },
                _ => {},
            }
            k = k + 1;
        }
        proof {
            assert(outputs_v.skip(outputs_v.len() as int).len() == 0);
        }
        Ok((deltas, input_value, output_value))
    }
}

/// The whole accumulation over a filled transaction: inputs first, then
/// outputs.
pub open spec fn spec_deltas_and_values(
    markets: Map<OutPoint, MarketV>,
    utxos: Map<OutPoint, crate::content::OutputV>,
    ft: crate::content::FilledTransactionV,
) -> Result<(Seq<(OutPoint, Seq<i128>)>, int, int), Error> {
    match spec_walk_spent(markets, ft.spent_utxos, Seq::empty(), 0) {
        Err(e) => Err(e),
        Ok((d1, iv)) => match spec_walk_outputs(
            markets,
            utxos,
            ft.transaction.outputs,
            d1,
            0,
        ) {
            Err(e) => Err(e),
            Ok((d2, ov)) => Ok((d2, iv, ov)),
        },
    }
}

} // verus!
