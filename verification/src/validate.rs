//! The per-transaction and per-block rule set: decision lifecycle, markets
//! over resolvable decisions, value conservation under the scoring rule,
//! the transaction fee, the block-level double-spend check, and the
//! coinbase cap.
use vstd::prelude::*;

use crate::content::Body;
use crate::content::Content;
use crate::content::ContentV;
use crate::content::FilledTransaction;
use crate::content::FilledTransactionV;
use crate::content::HivemindContent;
use crate::content::HivemindContentV;
use crate::content::MarketV;
use crate::content::OutPoint;
use crate::content::OutputV;
use crate::dec::Dec;
use crate::dec::add_of;
use crate::dec::dec_add;
use crate::dec::dec_gt;
use crate::dec::dec_sub;
use crate::dec::dec_to_u64;
use crate::dec::pow10;
use crate::dec::sub_of;
use crate::dec::to_u64_of;
use crate::deltas::delta_entries_view;
use crate::deltas::spec_deltas_and_values;
use crate::lmsr::dec_models;
use crate::lmsr::dec_seq_wf;
use crate::lmsr::lmsr_cost;
use crate::lmsr::spec_lmsr_cost;
use crate::state::Error;
use crate::state::State;

verus! {

// ---------------------------------------------------------------------------
// Decision lifecycle
// ---------------------------------------------------------------------------

/// Checks every decision a market rests on: each must exist, be a decision,
/// and not yet have passed its resolvable height.
pub open spec fn spec_market_decisions_check(
    utxos: Map<OutPoint, OutputV>,
    decisions: Seq<OutPoint>,
    height: u32,
) -> Result<(), Error>
    decreases decisions.len(),
{
    if decisions.len() == 0 {
        Ok(())
    } else {
        let d = decisions[0];
        if !utxos.dom().contains(d) {
            Err(Error::NoUtxo { outpoint: d })
        } else {
            match utxos[d].content {
                ContentV::Custom(HivemindContentV::Decision { resolvable_height, .. }) => {
                    if height > resolvable_height {
                        Err(Error::MarketUsingResolvableDecision)
                    } else {
                        spec_market_decisions_check(utxos, decisions.drop_first(), height)
                    }
                },
                _ => Err(Error::InvalidOutPoint { outpoint: d }),
            }
        }
    }
}

/// The classification of the spent outputs, walked in input order alongside
/// the inputs that spent them: decisions must not be spent before their
/// resolvable height and are recorded, resolutions record their decision,
/// and a spent market must not rest on a decision that is already
/// resolvable. Spending a live market's UTXO is permitted under that rule
/// and touches nothing else: the market's record, vector and positions
/// index live on, pricing reads the record, and resolution remains the one
/// pathway that retires them. That retention is the locked rule here.
pub open spec fn spec_scan_inputs(
    utxos: Map<OutPoint, OutputV>,
    inputs: Seq<OutPoint>,
    spent: Seq<OutputV>,
    height: u32,
    spent_decisions: Seq<OutPoint>,
    resolved: Seq<OutPoint>,
) -> Result<(Seq<OutPoint>, Seq<OutPoint>), Error>
    decreases spent.len(),
{
    if spent.len() == 0 || inputs.len() == 0 {
        Ok((spent_decisions, resolved))
    } else {
        let o = spent[0];
        let op = inputs[0];
        match o.content {
            ContentV::Custom(HivemindContentV::Decision { resolvable_height, .. }) => {
                if height < resolvable_height {
                    Err(Error::DecisionSpentEarly)
                } else {
                    spec_scan_inputs(
                        utxos,
                        inputs.drop_first(),
                        spent.drop_first(),
                        height,
                        spent_decisions.push(op),
                        resolved,
                    )
                }
            },
            ContentV::Custom(HivemindContentV::Resolution { decision, .. }) => {
                spec_scan_inputs(
                    utxos,
                    inputs.drop_first(),
                    spent.drop_first(),
                    height,
                    spent_decisions,
                    resolved.push(decision),
                )
            },
            ContentV::Custom(HivemindContentV::Market { decisions, .. }) => {
                match spec_market_decisions_check(utxos, decisions, height) {
                    Err(e) => Err(e),
                    Ok(_) => spec_scan_inputs(
                        utxos,
                        inputs.drop_first(),
                        spent.drop_first(),
                        height,
                        spent_decisions,
                        resolved,
                    ),
                }
            },
            _ => spec_scan_inputs(
                utxos,
                inputs.drop_first(),
                spent.drop_first(),
                height,
                spent_decisions,
                resolved,
            ),
        }
    }
}

/// The same resolvable-height rule at market creation: every market output
/// is checked against the decisions it is being created over.
pub open spec fn spec_scan_created_markets(
    utxos: Map<OutPoint, OutputV>,
    outputs: Seq<OutputV>,
    height: u32,
) -> Result<(), Error>
    decreases outputs.len(),
{
    if outputs.len() == 0 {
        Ok(())
    } else {
        match outputs[0].content {
            ContentV::Custom(HivemindContentV::Market { decisions, .. }) => {
                match spec_market_decisions_check(utxos, decisions, height) {
                    Err(e) => Err(e),
                    Ok(_) => spec_scan_created_markets(utxos, outputs.drop_first(), height),
                }
            },
            _ => spec_scan_created_markets(utxos, outputs.drop_first(), height),
        }
    }
}

// ---------------------------------------------------------------------------
// Cost over the touched markets
// ---------------------------------------------------------------------------

/// Adding a delta row onto a market's stored state, cell by cell; fails
/// with the first cell that leaves the decimal mantissa domain.
pub open spec fn spec_add_rows(a: Seq<i128>, b: Seq<i128>) -> Result<Seq<i128>, Error>
    decreases a.len(),
{
    if a.len() == 0 {
        Ok(Seq::empty())
    } else {
        let x = a[0] + b[0];
        if x < -crate::dec::MAX_DEC_MANTISSA || x > crate::dec::MAX_DEC_MANTISSA {
            Err(Error::U64Overflow { decimal: (Dec { mantissa: x as i128, scale: 0u32 }) })
        } else {
            match spec_add_rows(a.drop_first(), b.drop_first()) {
                Err(e) => Err(e),
                Ok(rest) => Ok(seq![x as i128] + rest),
            }
        }
    }
}

pub open spec fn row_models(s: Seq<i128>) -> Seq<(int, int)> {
    Seq::new(s.len(), |i: int| (s[i] as int, 0int))
}

/// The summed marginal cost over the touched markets, folded in first-touch
/// order from `acc`: for each market, the cost of the state moved by the
/// delta minus the cost of the state as stored. The liquidity parameter
/// comes from the market's record, which outlives the market's own UTXO:
/// markets stay priceable after that output is spent.
pub open spec fn spec_get_cost(
    markets: Map<OutPoint, MarketV>,
    vectors: Map<OutPoint, Seq<i128>>,
    entries: Seq<(OutPoint, Seq<i128>)>,
    acc: (int, int),
) -> Result<(int, int), Error>
    decreases entries.len(),
{
    if entries.len() == 0 {
        Ok(acc)
    } else {
        let m = entries[0].0;
        let d = entries[0].1;
        if !vectors.dom().contains(m) {
            Err(Error::NoUtxo { outpoint: m })
        } else if !markets.dom().contains(m) {
            Err(Error::NoUtxo { outpoint: m })
        } else {
            {
                {
                    let b = markets[m].b;
                    let s = vectors[m];
                    match spec_add_rows(s, d) {
                        Err(e) => Err(e),
                        Ok(moved) => match spec_lmsr_cost((b as int, 0int), row_models(moved)) {
                            None => Err(
                                Error::U64Overflow {
                                    decimal: (Dec { mantissa: b as i128, scale: 0u32 }),
                                },
                            ),
                            Some(c_new) => match spec_lmsr_cost(
                                (b as int, 0int),
                                row_models(s),
                            ) {
                                None => Err(
                                    Error::U64Overflow {
                                        decimal: (Dec { mantissa: b as i128, scale: 0u32 }),
                                    },
                                ),
                                Some(c_old) => match sub_of(c_new.0, c_new.1, c_old.0, c_old.1) {
                                    None => Err(
                                        Error::U64Overflow {
                                            decimal: (Dec {
                                                mantissa: c_new.0 as i128,
                                                scale: c_new.1 as u32,
                                            }),
                                        },
                                    ),
                                    Some(cost) => match add_of(acc.0, acc.1, cost.0, cost.1) {
                                        None => Err(
                                            Error::U64Overflow {
                                                decimal: (Dec {
                                                    mantissa: acc.0 as i128,
                                                    scale: acc.1 as u32,
                                                }),
                                            },
                                        ),
                                        Some(acc2) => spec_get_cost(
                                            markets,
                                            vectors,
                                            entries.drop_first(),
                                            acc2,
                                        ),
                                    },
                                },
                            },
                        },
                    }
                }
            }
        }
    }
}

/// A delta table whose rows are all zero: the self-cancelling case.
pub open spec fn all_rows_zero(entries: Seq<(OutPoint, Seq<i128>)>) -> bool {
    forall|i: int| 0 <= i < entries.len() ==> forall|j: int|
        0 <= j < (#[trigger] entries[i]).1.len() ==> (#[trigger] entries[i].1[j]) == 0i128
}

impl State {
    /// The summed marginal cost of a transaction's deltas. When every delta
    /// row is zero — a trade that cancels itself — the cost that comes back
    /// is exactly zero.
    pub fn get_cost(&self, deltas: &crate::table::Table<Vec<i128>>) -> (r: Result<Dec, Error>)
        requires
            self.tables_wf(),
            self.vectors_in_range(),
            self.vectors_sized(),
            crate::deltas::delta_table_ok(*deltas, self.markets@),
            self.domains_agree(),
        ensures
            match r {
                Ok(c) => spec_get_cost(
                    self.markets@,
                    self.vectors@,
                    delta_entries_view(deltas.entries@),
                    (0int, 0int),
                ) == Ok::<(int, int), Error>(c.model()) && c.wf() && (all_rows_zero(
                    delta_entries_view(deltas.entries@),
                ) ==> c.mantissa == 0),
                Err(e) => spec_get_cost(
                    self.markets@,
                    self.vectors@,
                    delta_entries_view(deltas.entries@),
                    (0int, 0int),
                ) == Err::<(int, int), Error>(e),
            },
    {
        let ghost entries0 = delta_entries_view(deltas.entries@);
        let mut total = crate::dec::dec_zero();
        let mut i: usize = 0;
        proof {
            assert(entries0.skip(0) =~= entries0);
        }
        while i < deltas.entries.len()
            invariant
                self.tables_wf(),
                self.vectors_in_range(),
                self.vectors_sized(),
                self.domains_agree(),
                crate::deltas::delta_table_ok(*deltas, self.markets@),
                i <= deltas.entries@.len(),
                entries0 == delta_entries_view(deltas.entries@),
                total.wf(),
                spec_get_cost(self.markets@, self.vectors@, entries0, (0int, 0int))
                    == spec_get_cost(
                    self.markets@,
                    self.vectors@,
                    entries0.skip(i as int),
                    total.model(),
                ),
                all_rows_zero(entries0.subrange(0, i as int)) ==> total.mantissa == 0,
            decreases deltas.entries@.len() - i,
        {
            proof {
                assert(entries0.skip(i as int)[0] == entries0[i as int]);
                assert(entries0.skip(i as int).drop_first() =~= entries0.skip(i + 1));
            }
            let market = deltas.entries[i].0;
            let state_vec = match self.vectors.get(&market) {
                Some(v) => v,
                None => {
                    return Err(Error::NoUtxo { outpoint: market });
                },
            };
            let b: u64 = match self.markets.get(&market) {
                None => {
                    return Err(Error::NoUtxo { outpoint: market });
                },
                Some(rec) => rec.b,
            };
            let ghost srow = self.vectors@[market];
            let ghost drow = entries0[i as int].1;
            // Move the stored state by the delta, cell by cell.
            let delta_row = &deltas.entries[i].1;
            let mut moved: Vec<Dec> = Vec::new();
            let mut stored: Vec<Dec> = Vec::new();
            let mut j: usize = 0;
            while j < state_vec.len()
                invariant
                    j <= srow.len(),
                    state_vec@ == srow,
                    delta_row@ == drow,
                    srow.len() == drow.len(),
                    total.wf(),
                    0 <= i < entries0.len(),
                    entries0 == delta_entries_view(deltas.entries@),
                    entries0.skip(i as int)[0] == (market, drow),
                    self.vectors@.dom().contains(market),
                    self.vectors@[market] == srow,
                    self.markets@.dom().contains(market),
                    self.markets@[market].b == b,
                    spec_get_cost(self.markets@, self.vectors@, entries0, (0int, 0int))
                        == spec_get_cost(
                        self.markets@,
                        self.vectors@,
                        entries0.skip(i as int),
                        total.model(),
                    ),
                    forall|q: int| 0 <= q < srow.len()
                        ==> -crate::dec::MAX_DEC_MANTISSA <= (#[trigger] srow[q])
                            <= crate::dec::MAX_DEC_MANTISSA,
                    forall|q: int| 0 <= q < drow.len()
                        ==> -crate::dec::MAX_DEC_MANTISSA <= (#[trigger] drow[q])
                            <= crate::dec::MAX_DEC_MANTISSA,
                    moved@.len() == j,
                    stored@.len() == j,
                    forall|q: int| 0 <= q < j
                        ==> (#[trigger] moved@[q]).mantissa == srow[q] + drow[q]
                            && moved@[q].scale == 0,
                    forall|q: int| 0 <= q < j
                        ==> (#[trigger] stored@[q]).mantissa == srow[q]
                            && stored@[q].scale == 0,
                    forall|q: int| 0 <= q < j
                        ==> -crate::dec::MAX_DEC_MANTISSA <= (#[trigger] srow[q]) + drow[q]
                            <= crate::dec::MAX_DEC_MANTISSA,
                decreases srow.len() - j,
            {
                let x: i128 = state_vec[j] + delta_row[j];
                if x < -crate::dec::MAX_DEC_MANTISSA || x > crate::dec::MAX_DEC_MANTISSA {
                    proof {
                        lemma_add_rows_err(srow, drow, j as int);
                    }
                    return Err(Error::U64Overflow { decimal: Dec { mantissa: x, scale: 0 } });
                }
                moved.push(Dec { mantissa: x, scale: 0 });
                stored.push(Dec { mantissa: state_vec[j], scale: 0 });
                j = j + 1;
            }
            proof {
                lemma_add_rows_ok(srow, drow);
                let mseq = spec_add_rows(srow, drow).unwrap();
                assert(dec_models(moved@) =~= row_models(mseq));
                assert(dec_models(stored@) =~= row_models(srow));
                assert(dec_seq_wf(moved@));
                assert(dec_seq_wf(stored@));
            }
            let b_dec = crate::dec::dec_from_u64(b);
            let c_new = match lmsr_cost(&b_dec, &moved) {
                Some(c) => c,
                None => {
                    return Err(Error::U64Overflow { decimal: b_dec });
                },
            };
            let c_old = match lmsr_cost(&b_dec, &stored) {
                Some(c) => c,
                None => {
                    return Err(Error::U64Overflow { decimal: b_dec });
                },
            };
            let cost = match dec_sub(&c_new, &c_old) {
                Some(c) => c,
                None => {
                    return Err(Error::U64Overflow { decimal: c_new });
                },
            };
            let new_total = match dec_add(&total, &cost) {
                Some(t) => t,
                None => {
                    return Err(Error::U64Overflow { decimal: total });
                },
            };
            proof {
                if all_rows_zero(entries0.subrange(0, i + 1)) {
                    assert(all_rows_zero(entries0.subrange(0, i as int))) by {
                        assert forall|a: int| 0 <= a < i implies forall|q: int|
                            0 <= q < (#[trigger] entries0.subrange(0, i as int)[a]).1.len()
                                ==> entries0.subrange(0, i as int)[a].1[q] == 0i128 by {
                            assert(entries0.subrange(0, i as int)[a] == entries0.subrange(
                                0,
                                i + 1,
                            )[a]);
                        }
                    }
                    assert(entries0.subrange(0, i + 1)[i as int] == entries0[i as int]);
                    assert(forall|q: int| 0 <= q < drow.len() ==> (#[trigger] drow[q]) == 0i128);
                    assert(moved@ =~= stored@) by {
                        assert forall|q: int| 0 <= q < moved@.len() implies moved@[q]
                            == stored@[q] by {
                            assert(drow[q] == 0i128);
                            assert(moved@[q].mantissa == srow[q] + 0);
                        }
                    }
                    assert(c_new == c_old);
                    assert(cost.mantissa == 0);
                    assert(new_total.mantissa == 0);
                }
            }
            total = new_total;
            i = i + 1;
        }
        proof {
            assert(entries0.skip(entries0.len() as int).len() == 0);
            assert(entries0.subrange(0, entries0.len() as int) =~= entries0);
        }
        Ok(total)
    }
}

// ---------------------------------------------------------------------------
// The per-transaction rule set
// ---------------------------------------------------------------------------

/// Whether some spent decision found no matching resolution in the same
/// transaction.
pub open spec fn has_unmatched_decision(sd: Seq<OutPoint>, rs: Seq<OutPoint>) -> bool {
    exists|i: int| 0 <= i < sd.len() && !rs.contains(sd[i])
}

/// What validating one filled transaction yields at a given height: the
/// lifecycle rules in input order, the matching of spent decisions with
/// resolutions, the resolvable-height rule on created markets, the deltas
/// and value sums, the summed cost, the conservation rule `cost +
/// output_value <= input_value` compared in decimals, and then the fee
/// `input_value - to_u64(cost) + output_value`. The fee formula is part of
/// the pinned rule.
pub open spec fn spec_validate_transaction(
    utxos: Map<OutPoint, OutputV>,
    vectors: Map<OutPoint, Seq<i128>>,
    markets: Map<OutPoint, MarketV>,
    ft: FilledTransactionV,
    height: u32,
) -> Result<int, Error> {
    match spec_scan_inputs(
        utxos,
        ft.transaction.inputs,
        ft.spent_utxos,
        height,
        Seq::empty(),
        Seq::empty(),
    ) {
        Err(e) => Err(e),
        Ok((sd, rs)) => {
            if has_unmatched_decision(sd, rs) {
                Err(Error::DecisionSpentWithoutResolution)
            } else {
                match spec_scan_created_markets(utxos, ft.transaction.outputs, height) {
                    Err(e) => Err(e),
                    Ok(_) => match spec_deltas_and_values(markets, utxos, ft) {
                        Err(e) => Err(e),
                        Ok(t) => match spec_get_cost(markets, vectors, t.0, (0int, 0int)) {
                            Err(e) => Err(e),
                            Ok(cost) => match add_of(cost.0, cost.1, t.2, 0) {
                                None => Err(
                                    Error::U64Overflow {
                                        decimal: (Dec {
                                            mantissa: cost.0 as i128,
                                            scale: cost.1 as u32,
                                        }),
                                    },
                                ),
                                Some(cpo) => if cpo.0 * pow10(0) > t.1 * pow10(cpo.1) {
                                    Err(Error::NotEnoughValueIn)
                                } else {
                                    match to_u64_of(cost.0, cost.1) {
                                        None => Err(
                                            Error::U64Overflow {
                                                decimal: (Dec {
                                                    mantissa: cost.0 as i128,
                                                    scale: cost.1 as u32,
                                                }),
                                            },
                                        ),
                                        Some(tt) => if tt > t.1 {
                                            Err(
                                                Error::U64Overflow {
                                                    decimal: (Dec {
                                                        mantissa: tt as i128,
                                                        scale: 0u32,
                                                    }),
                                                },
                                            )
                                        } else if t.1 - tt + t.2 > 0xffff_ffff_ffff_ffff {
                                            Err(
                                                Error::U64Overflow {
                                                    decimal: (Dec {
                                                        mantissa: (t.1 - tt + t.2) as i128,
                                                        scale: 0u32,
                                                    }),
                                                },
                                            )
                                        } else {
                                            Ok(t.1 - tt + t.2)
                                        },
                                    }
                                },
                            },
                        },
                    },
                }
            }
        },
    }
}

pub proof fn lemma_unmatched_decision_errs(
    utxos: Map<OutPoint, OutputV>,
    vectors: Map<OutPoint, Seq<i128>>,
    markets: Map<OutPoint, MarketV>,
    ft: FilledTransactionV,
    height: u32,
    sd: Seq<OutPoint>,
    rs: Seq<OutPoint>,
    k: int,
)
    requires
        spec_scan_inputs(utxos, ft.transaction.inputs, ft.spent_utxos, height, Seq::empty(),
            Seq::empty()) == Ok::<(Seq<OutPoint>, Seq<OutPoint>), Error>((sd, rs)),
        0 <= k < sd.len(),
        !rs.contains(sd[k]),
    ensures
        spec_validate_transaction(utxos, vectors, markets, ft, height) == Err::<int, Error>(
            Error::DecisionSpentWithoutResolution,
        ),
{
    assert(has_unmatched_decision(sd, rs)) by {
        assert(0 <= k < sd.len() && !rs.contains(sd[k]));
    }
}

pub fn outpoint_list_contains(v: &Vec<OutPoint>, o: &OutPoint) -> (r: bool)
    ensures
        r == v@.contains(*o),
{
    let mut i: usize = 0;
    while i < v.len()
        invariant
            i <= v@.len(),
            forall|j: int| 0 <= j < i ==> v@[j] != *o,
        decreases v@.len() - i,
    {
        if v[i] == *o {
            return true;
        }
        i = i + 1;
    }
    proof {
        if v@.contains(*o) {
            let j = choose|j: int| 0 <= j < v@.len() && v@[j] == *o;
            assert(false);
        }
    }
    false
}

impl State {
    /// Checks every decision a market output or spent market rests on.
    fn check_market_decisions(&self, decisions: &Vec<OutPoint>, height: u32) -> (r: Result<
        (),
        Error,
    >)
        requires
            self.tables_wf(),
        ensures
            match r {
                Ok(_) => spec_market_decisions_check(self.utxos@, decisions@, height)
                    == Ok::<(), Error>(()),
                Err(e) => spec_market_decisions_check(self.utxos@, decisions@, height)
                    == Err::<(), Error>(e),
            },
    {
        let ghost dseq = decisions@;
        let mut i: usize = 0;
        proof {
            assert(dseq.skip(0) =~= dseq);
        }
        while i < decisions.len()
            invariant
                self.tables_wf(),
                i <= dseq.len(),
                decisions@ == dseq,
                spec_market_decisions_check(self.utxos@, dseq, height)
                    == spec_market_decisions_check(self.utxos@, dseq.skip(i as int), height),
            decreases dseq.len() - i,
        {
            proof {
                assert(dseq.skip(i as int)[0] == dseq[i as int]);
                assert(dseq.skip(i as int).drop_first() =~= dseq.skip(i + 1));
            }
            let d = decisions[i];
            match self.utxos.get(&d) {
                None => {
                    return Err(Error::NoUtxo { outpoint: d });
                },
                Some(o) => match &o.content {
                    Content::Custom(HivemindContent::Decision { resolvable_height, .. }) => {
                        if height > *resolvable_height {
                            return Err(Error::MarketUsingResolvableDecision);
                        }
                    },
                    _ => {
                        return Err(Error::InvalidOutPoint { outpoint: d });
                    },
                },
            }
            i = i + 1;
        }
        proof {
            assert(dseq.skip(dseq.len() as int).len() == 0);
        }
        Ok(())
    }

    /// Enforces the full per-transaction rule set and computes the fee.
    pub fn validate_transaction(&self, transaction: &FilledTransaction, height: u32) -> (r:
        Result<u64, Error>)
        requires
            self.inv(),
        ensures
            match r {
                Ok(fee) => spec_validate_transaction(
                    self.utxos@,
                    self.vectors@,
                    self.markets@,
                    transaction@,
                    height,
                ) == Ok::<int, Error>(fee as int),
                Err(e) => spec_validate_transaction(
                    self.utxos@,
                    self.vectors@,
                    self.markets@,
                    transaction@,
                    height,
                ) == Err::<int, Error>(e),
            },
    {
        let ghost inputs_v = transaction@.transaction.inputs;
        let ghost spent_v = transaction@.spent_utxos;
        let mut spent_decisions: Vec<OutPoint> = Vec::new();
        let mut resolved: Vec<OutPoint> = Vec::new();
        let mut i: usize = 0;
        proof {
            assert(inputs_v.skip(0) =~= inputs_v);
            assert(spent_v.skip(0) =~= spent_v);
        }
        while i < transaction.transaction.inputs.len() && i < transaction.spent_utxos.len()
            invariant
                self.inv(),
                i <= inputs_v.len(),
                i <= spent_v.len(),
                transaction.transaction.inputs@.len() == inputs_v.len(),
                transaction.spent_utxos@.len() == spent_v.len(),
                inputs_v == transaction@.transaction.inputs,
                spent_v == transaction@.spent_utxos,
                spec_scan_inputs(self.utxos@, inputs_v, spent_v, height, Seq::empty(),
                    Seq::empty()) == spec_scan_inputs(
                    self.utxos@,
                    inputs_v.skip(i as int),
                    spent_v.skip(i as int),
                    height,
                    spent_decisions@,
                    resolved@,
                ),
            decreases spent_v.len() - i,
        {
            proof {
                assert(inputs_v.skip(i as int)[0] == inputs_v[i as int]);
                assert(spent_v.skip(i as int)[0] == transaction.spent_utxos@[i as int]@);
                assert(inputs_v.skip(i as int).drop_first() =~= inputs_v.skip(i + 1));
                assert(spent_v.skip(i as int).drop_first() =~= spent_v.skip(i + 1));
            }
            let outpoint = transaction.transaction.inputs[i];
            let o = &transaction.spent_utxos[i];
            match &o.content {
                Content::Custom(HivemindContent::Decision { resolvable_height, .. }) => {
                    if height < *resolvable_height {
                        return Err(Error::DecisionSpentEarly);
                    }
                    spent_decisions.push(outpoint);
                },
                Content::Custom(HivemindContent::Resolution { decision, .. }) => {
                    resolved.push(*decision);
                },
                Content::Custom(HivemindContent::Market { decisions, .. }) => {
                    match self.check_market_decisions(decisions, height) {
                        Ok(_) => {},
                        Err(e) => {
                            return Err(e);
                        },
                    }
                },
                _ => {},
            }
            i = i + 1;
        }
        proof {
            if i == transaction.transaction.inputs.len() {
                assert(inputs_v.skip(i as int).len() == 0);
            } else {
                assert(spent_v.skip(i as int).len() == 0);
            }
        }
        let ghost sd = spent_decisions@;
        let ghost rs = resolved@;
        proof {
            assert(spec_scan_inputs(self.utxos@, inputs_v, spent_v, height, Seq::empty(),
                Seq::empty()) == Ok::<(Seq<OutPoint>, Seq<OutPoint>), Error>((sd, rs)));
        }
        let mut k: usize = 0;
        while k < spent_decisions.len()
            invariant
                k <= sd.len(),
                spent_decisions@ == sd,
                resolved@ == rs,
                inputs_v == transaction@.transaction.inputs,
                spent_v == transaction@.spent_utxos,
                spec_scan_inputs(self.utxos@, inputs_v, spent_v, height, Seq::empty(),
                    Seq::empty()) == Ok::<(Seq<OutPoint>, Seq<OutPoint>), Error>((sd, rs)),
                forall|j: int| 0 <= j < k ==> rs.contains(#[trigger] sd[j]),
            decreases sd.len() - k,
        {
            if !outpoint_list_contains(&resolved, &spent_decisions[k]) {
                proof {
                    lemma_unmatched_decision_errs(
                        self.utxos@,
                        self.vectors@,
                        self.markets@,
                        transaction@,
                        height,
                        sd,
                        rs,
                        k as int,
                    );
                }
                return Err(Error::DecisionSpentWithoutResolution);
            }
            k = k + 1;
        }
        proof {
            assert(!(exists|j: int| 0 <= j < sd.len() && !rs.contains(sd[j])));
        }
        let ghost outputs_v = transaction@.transaction.outputs;
        let mut w: usize = 0;
        proof {
            assert(outputs_v.skip(0) =~= outputs_v);
        }
        while w < transaction.transaction.outputs.len()
            invariant
                self.inv(),
                w <= outputs_v.len(),
                transaction.transaction.outputs@.len() == outputs_v.len(),
                outputs_v == transaction@.transaction.outputs,
                inputs_v == transaction@.transaction.inputs,
                spent_v == transaction@.spent_utxos,
                spec_scan_inputs(self.utxos@, inputs_v, spent_v, height, Seq::empty(),
                    Seq::empty()) == Ok::<(Seq<OutPoint>, Seq<OutPoint>), Error>((sd, rs)),
                !(exists|j: int| 0 <= j < sd.len() && !rs.contains(sd[j])),
                spec_scan_created_markets(self.utxos@, outputs_v, height)
                    == spec_scan_created_markets(
                    self.utxos@,
                    outputs_v.skip(w as int),
                    height,
                ),
            decreases outputs_v.len() - w,
        {
            proof {
                assert(outputs_v.skip(w as int)[0]
                    == transaction.transaction.outputs@[w as int]@);
                assert(outputs_v.skip(w as int).drop_first() =~= outputs_v.skip(w + 1));
            }
            match &transaction.transaction.outputs[w].content {
                Content::Custom(HivemindContent::Market { decisions, .. }) => {
                    match self.check_market_decisions(decisions, height) {
                        Ok(_) => {},
                        Err(e) => {
                            return Err(e);
                        },
                    }
                },
                _ => {},
            }
            w = w + 1;
        }
        proof {
            assert(outputs_v.skip(outputs_v.len() as int).len() == 0);
        }
        let (deltas, input_value, output_value) = match self.get_deltas_and_values(transaction) {
            Ok(t) => t,
            Err(e) => {
                return Err(e);
            },
        };
        let cost = match self.get_cost(&deltas) {
            Ok(c) => c,
            Err(e) => {
                return Err(e);
            },
        };
        let out_dec = crate::dec::dec_from_u64(output_value);
        let in_dec = crate::dec::dec_from_u64(input_value);
        let cost_plus_out = match dec_add(&cost, &out_dec) {
            Some(c) => c,
            None => {
                return Err(Error::U64Overflow { decimal: cost });
            },
        };
        if dec_gt(&cost_plus_out, &in_dec) {
            return Err(Error::NotEnoughValueIn);
        }
        let truncated = match dec_to_u64(&cost) {
            Some(t) => t,
            None => {
                return Err(Error::U64Overflow { decimal: cost });
            },
        };
        if truncated > input_value {
            return Err(
                Error::U64Overflow {
                    decimal: Dec { mantissa: truncated as i128, scale: 0 },
                },
            );
        }
        let rest = input_value - truncated;
        if output_value > 0xffff_ffff_ffff_ffffu64 - rest {
            return Err(
                Error::U64Overflow {
                    decimal: Dec {
                        mantissa: rest as i128 + output_value as i128,
                        scale: 0,
                    },
                },
            );
        }
        Ok(rest + output_value)
    }
}

// ---------------------------------------------------------------------------
// The per-block rule set
// ---------------------------------------------------------------------------

/// Walking one transaction's inputs inside a block: each input must be
/// unspent so far in the block and is then marked spent, and the
/// transaction is filled and validated once per input at height 0, its fee
/// accumulating each time. That repetition is part of the pinned rule.
pub open spec fn spec_body_inputs_loop(
    utxos: Map<OutPoint, OutputV>,
    vectors: Map<OutPoint, Seq<i128>>,
    markets: Map<OutPoint, MarketV>,
    tx: crate::content::TransactionV,
    inputs: Seq<OutPoint>,
    spent: Seq<OutPoint>,
    fee: int,
) -> Result<(Seq<OutPoint>, int), Error>
    decreases inputs.len(),
{
    if inputs.len() == 0 {
        Ok((spent, fee))
    } else {
        let inp = inputs[0];
        if spent.contains(inp) {
            Err(Error::UtxoDoubleSpent { outpoint: inp })
        } else {
            match crate::fill::spec_fill(utxos, tx.inputs) {
                Err(e) => Err(e),
                Ok(su) => match spec_validate_transaction(
                    utxos,
                    vectors,
                    markets,
                    FilledTransactionV { spent_utxos: su, transaction: tx },
                    0,
                ) {
                    Err(e) => Err(e),
                    Ok(ftx) => if fee + ftx > 0xffff_ffff_ffff_ffff {
                        Err(
                            Error::U64Overflow {
                                decimal: (Dec { mantissa: (fee + ftx) as i128, scale: 0u32 }),
                            },
                        )
                    } else {
                        spec_body_inputs_loop(
                            utxos,
                            vectors,
                            markets,
                            tx,
                            inputs.drop_first(),
                            spent.push(inp),
                            fee + ftx,
                        )
                    },
                },
            }
        }
    }
}

/// Walking a block's transactions in order, threading the spent set and the
/// accumulated fee.
pub open spec fn spec_body_txs_loop(
    utxos: Map<OutPoint, OutputV>,
    vectors: Map<OutPoint, Seq<i128>>,
    markets: Map<OutPoint, MarketV>,
    txs: Seq<crate::content::TransactionV>,
    spent: Seq<OutPoint>,
    fee: int,
) -> Result<(Seq<OutPoint>, int), Error>
    decreases txs.len(),
{
    if txs.len() == 0 {
        Ok((spent, fee))
    } else {
        match spec_body_inputs_loop(utxos, vectors, markets, txs[0], txs[0].inputs, spent, fee) {
            Err(e) => Err(e),
            Ok((s2, f2)) => spec_body_txs_loop(
                utxos,
                vectors,
                markets,
                txs.drop_first(),
                s2,
                f2,
            ),
        }
    }
}

/// The summed face value of the coinbase outputs.
pub open spec fn spec_coinbase_value(coinbase: Seq<OutputV>, acc: int) -> Result<int, Error>
    decreases coinbase.len(),
{
    if coinbase.len() == 0 {
        Ok(acc)
    } else {
        let v2 = acc + coinbase[0].content.spec_get_value();
        if v2 > 0xffff_ffff_ffff_ffff {
            Err(Error::U64Overflow { decimal: (Dec { mantissa: v2 as i128, scale: 0u32 }) })
        } else {
            spec_coinbase_value(coinbase.drop_first(), v2)
        }
    }
}

/// What validating a block yields: no outpoint spent twice, every
/// transaction filled and validated, and the coinbase value capped by the
/// accumulated fees.
pub open spec fn spec_validate_body(
    utxos: Map<OutPoint, OutputV>,
    vectors: Map<OutPoint, Seq<i128>>,
    markets: Map<OutPoint, MarketV>,
    body: crate::content::BodyV,
) -> Result<(), Error> {
    match spec_body_txs_loop(utxos, vectors, markets, body.transactions, Seq::empty(), 0) {
        Err(e) => Err(e),
        Ok((_s, fee)) => match spec_coinbase_value(body.coinbase, 0) {
            Err(e) => Err(e),
            Ok(cv) => if cv > fee {
                Err(Error::NotEnoughFeeValue)
            } else {
                Ok(())
            },
        },
    }
}

impl State {
    /// Validates a block body against the current state: the block-level
    /// double-spend rule, every transaction's rule set, and the coinbase
    /// cap.
    pub fn validate_body(&self, body: &Body) -> (r: Result<(), Error>)
        requires
            self.inv(),
        ensures
            match r {
                Ok(_) => spec_validate_body(self.utxos@, self.vectors@, self.markets@, body@)
                    == Ok::<(), Error>(()),
                Err(e) => spec_validate_body(self.utxos@, self.vectors@, self.markets@, body@)
                    == Err::<(), Error>(e),
            },
    {
        let ghost txs_v = body@.transactions;
        let mut spent: Vec<OutPoint> = Vec::new();
        let mut fee_value: u64 = 0;
        let mut t: usize = 0;
        proof {
            assert(txs_v.skip(0) =~= txs_v);
        }
        while t < body.transactions.len()
            invariant
                self.inv(),
                t <= txs_v.len(),
                body.transactions@.len() == txs_v.len(),
                txs_v == body@.transactions,
                spec_body_txs_loop(self.utxos@, self.vectors@, self.markets@, txs_v,
                    Seq::empty(), 0) == spec_body_txs_loop(
                    self.utxos@,
                    self.vectors@,
                    self.markets@,
                    txs_v.skip(t as int),
                    spent@,
                    fee_value as int,
                ),
            decreases txs_v.len() - t,
        {
            proof {
                assert(txs_v.skip(t as int)[0] == body.transactions@[t as int]@);
                assert(txs_v.skip(t as int).drop_first() =~= txs_v.skip(t + 1));
            }
            let transaction = &body.transactions[t];
            let ghost tx_v = transaction@;
            let ghost inputs_v = tx_v.inputs;
            let ghost spent0 = spent@;
            let ghost fee0 = fee_value as int;
            let mut i: usize = 0;
            proof {
                assert(inputs_v.skip(0) =~= inputs_v);
            }
            while i < transaction.inputs.len()
                invariant
                    self.inv(),
                    i <= inputs_v.len(),
                    transaction.inputs@.len() == inputs_v.len(),
                    inputs_v == tx_v.inputs,
                    tx_v == transaction@,
                    t < txs_v.len(),
                    txs_v == body@.transactions,
                    txs_v.skip(t as int)[0] == tx_v,
                    txs_v.skip(t as int).drop_first() =~= txs_v.skip(t as int + 1),
                    spec_body_txs_loop(self.utxos@, self.vectors@, self.markets@, txs_v,
                        Seq::empty(), 0) == spec_body_txs_loop(
                        self.utxos@,
                        self.vectors@,
                        self.markets@,
                        txs_v.skip(t as int),
                        spent0,
                        fee0,
                    ),
                    spec_body_inputs_loop(
                        self.utxos@,
                        self.vectors@,
                        self.markets@,
                        tx_v,
                        inputs_v,
                        spent0,
                        fee0,
                    ) == spec_body_inputs_loop(
                        self.utxos@,
                        self.vectors@,
                        self.markets@,
                        tx_v,
                        inputs_v.skip(i as int),
                        spent@,
                        fee_value as int,
                    ),
                decreases inputs_v.len() - i,
            {
                proof {
                    assert(inputs_v.skip(i as int)[0] == inputs_v[i as int]);
                    assert(inputs_v.skip(i as int).drop_first() =~= inputs_v.skip(i + 1));
                }
                let input = transaction.inputs[i];
                if outpoint_list_contains(&spent, &input) {
                    return Err(Error::UtxoDoubleSpent { outpoint: input });
                }
                spent.push(input);
                let filled = match self.fill_transaction(transaction) {
                    Ok(f) => f,
                    Err(e) => {
                        return Err(e);
                    },
                };
                let fee = match self.validate_transaction(&filled, 0) {
                    Ok(f) => f,
                    Err(e) => {
                        return Err(e);
                    },
                };
                if fee > 0xffff_ffff_ffff_ffffu64 - fee_value {
                    return Err(
                        Error::U64Overflow {
                            decimal: Dec {
                                mantissa: fee_value as i128 + fee as i128,
                                scale: 0,
                            },
                        },
                    );
                }
                fee_value = fee_value + fee;
                i = i + 1;
            }
            proof {
                assert(inputs_v.skip(inputs_v.len() as int).len() == 0);
            }
            t = t + 1;
        }
        proof {
            assert(txs_v.skip(txs_v.len() as int).len() == 0);
        }
        let ghost cb_v = body@.coinbase;
        let ghost spent_final = spent@;
        let ghost fee_final = fee_value as int;
        let mut coinbase_value: u64 = 0;
        let mut c: usize = 0;
        proof {
            assert(cb_v.skip(0) =~= cb_v);
        }
        while c < body.coinbase.len()
            invariant
                c <= cb_v.len(),
                body.coinbase@.len() == cb_v.len(),
                cb_v == body@.coinbase,
                txs_v == body@.transactions,
                fee_value as int == fee_final,
                spec_body_txs_loop(self.utxos@, self.vectors@, self.markets@, txs_v,
                    Seq::empty(), 0) == Ok::<(Seq<OutPoint>, int), Error>(
                    (spent_final, fee_final),
                ),
                spec_coinbase_value(cb_v, 0) == spec_coinbase_value(
                    cb_v.skip(c as int),
                    coinbase_value as int,
                ),
            decreases cb_v.len() - c,
        {
            proof {
                assert(cb_v.skip(c as int)[0] == body.coinbase@[c as int]@);
                assert(cb_v.skip(c as int).drop_first() =~= cb_v.skip(c + 1));
            }
            let val = body.coinbase[c].get_value();
            if val > 0xffff_ffff_ffff_ffffu64 - coinbase_value {
                return Err(
                    Error::U64Overflow {
                        decimal: Dec {
                            mantissa: coinbase_value as i128 + val as i128,
                            scale: 0,
                        },
                    },
                );
            }
            coinbase_value = coinbase_value + val;
            c = c + 1;
        }
        proof {
            assert(cb_v.skip(cb_v.len() as int).len() == 0);
        }
        if coinbase_value > fee_value {
            return Err(Error::NotEnoughFeeValue);
        }
        Ok(())
    }
}

/// If some cell sum leaves the mantissa domain and every earlier cell does
/// not, row addition fails on exactly that cell.
pub proof fn lemma_add_rows_err(a: Seq<i128>, b: Seq<i128>, i: int)
    requires
        a.len() == b.len(),
        0 <= i < a.len(),
        forall|q: int| 0 <= q < i
            ==> -crate::dec::MAX_DEC_MANTISSA <= (#[trigger] a[q]) + b[q]
                <= crate::dec::MAX_DEC_MANTISSA,
        a[i] + b[i] < -crate::dec::MAX_DEC_MANTISSA || a[i] + b[i]
            > crate::dec::MAX_DEC_MANTISSA,
    ensures
        spec_add_rows(a, b) == Err::<Seq<i128>, Error>(
            Error::U64Overflow {
                decimal: (Dec { mantissa: (a[i] + b[i]) as i128, scale: 0u32 }),
            },
        ),
    decreases i,
{
    if i == 0 {
    } else {
        assert(a.drop_first()[i - 1] == a[i]);
        assert(b.drop_first()[i - 1] == b[i]);
        assert forall|q: int| 0 <= q < i - 1 implies -crate::dec::MAX_DEC_MANTISSA <= (
            #[trigger] a.drop_first()[q]) + b.drop_first()[q]
            <= crate::dec::MAX_DEC_MANTISSA by {
            assert(a.drop_first()[q] == a[q + 1]);
            assert(b.drop_first()[q] == b[q + 1]);
        }
        lemma_add_rows_err(a.drop_first(), b.drop_first(), i - 1);
    }
}

/// If every cell sum stays in the mantissa domain, row addition returns
/// exactly the pointwise sums.
pub proof fn lemma_add_rows_ok(a: Seq<i128>, b: Seq<i128>)
    requires
        a.len() == b.len(),
        forall|q: int| 0 <= q < a.len()
            ==> -crate::dec::MAX_DEC_MANTISSA <= (#[trigger] a[q]) + b[q]
                <= crate::dec::MAX_DEC_MANTISSA,
    ensures
        spec_add_rows(a, b) matches Ok(s) && s.len() == a.len() && forall|q: int|
            0 <= q < a.len() ==> s[q] == a[q] + b[q],
    decreases a.len(),
{
    if a.len() > 0 {
        assert forall|q: int| 0 <= q < a.drop_first().len()
            implies -crate::dec::MAX_DEC_MANTISSA <= (#[trigger] a.drop_first()[q])
            + b.drop_first()[q] <= crate::dec::MAX_DEC_MANTISSA by {
            assert(a.drop_first()[q] == a[q + 1]);
            assert(b.drop_first()[q] == b[q + 1]);
        }
        lemma_add_rows_ok(a.drop_first(), b.drop_first());
        let s = spec_add_rows(a, b).unwrap();
        let rest = spec_add_rows(a.drop_first(), b.drop_first()).unwrap();
        assert forall|q: int| 0 <= q < a.len() implies s[q] == a[q] + b[q] by {
            if q > 0 {
                assert(s[q] == rest[q - 1]);
                assert(a.drop_first()[q - 1] == a[q]);
                assert(b.drop_first()[q - 1] == b[q]);
            }
        }
    }
}

} // verus!
