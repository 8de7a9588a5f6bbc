//! The engine's laws: properties that relate several operations, stated
//! over the same specification functions their contracts use.
use vstd::prelude::*;

use crate::connect::StateV;
use crate::connect::losing_position;
use crate::connect::spec_apply_body_deltas;
use crate::connect::spec_resolve;
use crate::connect::spec_rewrite;
use crate::connect::winning_position;
use crate::content::ContentV;
use crate::content::FilledTransactionV;
use crate::content::HivemindContentV;
use crate::content::MarketV;
use crate::content::OutPoint;
use crate::content::OutputV;
use crate::dec::MAX_DEC_MANTISSA;
use crate::validate::all_rows_zero;
use crate::deltas::spec_apply_position;
use crate::deltas::spec_deltas_and_values;
use crate::deltas::spec_get_size;
use crate::deltas::spec_share_to_flat_index;
use crate::deltas::spec_walk_outputs;
use crate::deltas::spec_walk_spent;
use crate::deltas::spec_zeros;
use crate::state::Error;

verus! {

/// `outs[i]` is a position holding `value` of coordinate `share` in
/// `market`, and no other element of `outs` is a position.
pub open spec fn only_position_at(
    outs: Seq<OutputV>,
    i: int,
    market: OutPoint,
    share: Seq<u32>,
    value: u64,
) -> bool {
    &&& 0 <= i < outs.len()
    &&& outs[i].content == ContentV::Custom(
        HivemindContentV::Position { market, share, value },
    )
    &&& forall|j: int| 0 <= j < outs.len() && j != i ==> !((#[trigger] outs[j]).content
        matches ContentV::Custom(HivemindContentV::Position { .. }))
}

/// Walking outputs that hold no position leaves the deltas untouched.
pub proof fn lemma_walk_spent_no_positions(
    markets: Map<OutPoint, MarketV>,
    spent: Seq<OutputV>,
    deltas: Seq<(OutPoint, Seq<i128>)>,
    value: int,
)
    requires
        forall|j: int| 0 <= j < spent.len() ==> !((#[trigger] spent[j]).content matches
        ContentV::Custom(HivemindContentV::Position { .. })),
    ensures
        spec_walk_spent(markets, spent, deltas, value) matches Ok(p) ==> p.0 == deltas,
    decreases spent.len(),
{
    if spent.len() > 0 {
        assert forall|j: int| 0 <= j < spent.drop_first().len() implies !((
        #[trigger] spent.drop_first()[j]).content matches ContentV::Custom(
            HivemindContentV::Position { .. },
        )) by {
            assert(spent.drop_first()[j] == spent[j + 1]);
        }
        lemma_walk_spent_no_positions(
            markets,
            spent.drop_first(),
            deltas,
            value + spent[0].content.spec_get_value(),
        );
    }
}

/// Walking the spent outputs with a single position among them applies
/// exactly that position's delta.
pub proof fn lemma_walk_spent_single(
    markets: Map<OutPoint, MarketV>,
    spent: Seq<OutputV>,
    deltas: Seq<(OutPoint, Seq<i128>)>,
    value: int,
    i: int,
    market: OutPoint,
    share: Seq<u32>,
    pv: u64,
)
    requires
        only_position_at(spent, i, market, share, pv),
    ensures
        spec_walk_spent(markets, spent, deltas, value) matches Ok(p)
            ==> spec_apply_position(markets, deltas, market, share, pv, true) == Ok::<
            Seq<(OutPoint, Seq<i128>)>,
            Error,
        >(p.0),
    decreases spent.len(),
{
    if spent.len() > 0 {
        let v2 = value + spent[0].content.spec_get_value();
        if v2 <= 0xffff_ffff_ffff_ffff {
            if i == 0 {
                match spec_apply_position(markets, deltas, market, share, pv, true) {
                    Ok(d2) => {
                        assert forall|j: int| 0 <= j < spent.drop_first().len() implies !((
                        #[trigger] spent.drop_first()[j]).content matches ContentV::Custom(
                            HivemindContentV::Position { .. },
                        )) by {
                            assert(spent.drop_first()[j] == spent[j + 1]);
                        }
                        lemma_walk_spent_no_positions(markets, spent.drop_first(), d2, v2);
                    },
                    Err(_) => {},
                }
            } else {
                assert(!(spent[0].content matches ContentV::Custom(
                    HivemindContentV::Position { .. },
                )));
                assert(only_position_at(spent.drop_first(), i - 1, market, share, pv)) by {
                    assert(spent.drop_first()[i - 1] == spent[i]);
                    assert forall|j: int| 0 <= j < spent.drop_first().len() && j != i - 1
                        implies !((#[trigger] spent.drop_first()[j]).content matches
                    ContentV::Custom(HivemindContentV::Position { .. })) by {
                        assert(spent.drop_first()[j] == spent[j + 1]);
                    }
                }
                lemma_walk_spent_single(
                    markets,
                    spent.drop_first(),
                    deltas,
                    v2,
                    i - 1,
                    market,
                    share,
                    pv,
                );
            }
        }
    }
}

/// Walking created outputs that hold no position leaves the deltas
/// untouched.
pub proof fn lemma_walk_outputs_no_positions(
    markets: Map<OutPoint, MarketV>,
    utxos: Map<OutPoint, OutputV>,
    outputs: Seq<OutputV>,
    deltas: Seq<(OutPoint, Seq<i128>)>,
    value: int,
)
    requires
        forall|j: int| 0 <= j < outputs.len() ==> !((#[trigger] outputs[j]).content matches
        ContentV::Custom(HivemindContentV::Position { .. })),
    ensures
        spec_walk_outputs(markets, utxos, outputs, deltas, value) matches Ok(p) ==> p.0
            == deltas,
    decreases outputs.len(),
{
    if outputs.len() > 0 {
        assert forall|j: int| 0 <= j < outputs.drop_first().len() implies !((
        #[trigger] outputs.drop_first()[j]).content matches ContentV::Custom(
            HivemindContentV::Position { .. },
        )) by {
            assert(outputs.drop_first()[j] == outputs[j + 1]);
        }
        let v2 = value + outputs[0].content.spec_get_value();
        if v2 <= 0xffff_ffff_ffff_ffff {
            match crate::deltas::spec_funding_cost(utxos, outputs[0]) {
                Ok(fc) => {
                    if v2 + fc <= 0xffff_ffff_ffff_ffff {
                        lemma_walk_outputs_no_positions(
                            markets,
                            utxos,
                            outputs.drop_first(),
                            deltas,
                            v2 + fc,
                        );
                    }
                },
                Err(_) => {},
            }
        }
    }
}

/// Walking created outputs with a single position among them applies
/// exactly that position's delta.
pub proof fn lemma_walk_outputs_single(
    markets: Map<OutPoint, MarketV>,
    utxos: Map<OutPoint, OutputV>,
    outputs: Seq<OutputV>,
    deltas: Seq<(OutPoint, Seq<i128>)>,
    value: int,
    i: int,
    market: OutPoint,
    share: Seq<u32>,
    pv: u64,
)
    requires
        only_position_at(outputs, i, market, share, pv),
    ensures
        spec_walk_outputs(markets, utxos, outputs, deltas, value) matches Ok(p)
            ==> spec_apply_position(markets, deltas, market, share, pv, false) == Ok::<
            Seq<(OutPoint, Seq<i128>)>,
            Error,
        >(p.0),
    decreases outputs.len(),
{
    if outputs.len() > 0 {
        let v2 = value + outputs[0].content.spec_get_value();
        if v2 <= 0xffff_ffff_ffff_ffff {
            match crate::deltas::spec_funding_cost(utxos, outputs[0]) {
                Ok(fc) => {
                    let v3 = v2 + fc;
                    if v3 <= 0xffff_ffff_ffff_ffff {
                        if i == 0 {
                            match spec_apply_position(markets, deltas, market, share, pv,
                                false) {
                                Ok(d2) => {
                                    assert forall|j: int|
                                        0 <= j < outputs.drop_first().len() implies !((
                                    #[trigger] outputs.drop_first()[j]).content matches
                                    ContentV::Custom(HivemindContentV::Position { .. })) by {
                                        assert(outputs.drop_first()[j] == outputs[j + 1]);
                                    }
                                    lemma_walk_outputs_no_positions(
                                        markets,
                                        utxos,
                                        outputs.drop_first(),
                                        d2,
                                        v3,
                                    );
                                },
                                Err(_) => {},
                            }
                        } else {
                            assert(only_position_at(
                                outputs.drop_first(),
                                i - 1,
                                market,
                                share,
                                pv,
                            )) by {
                                assert(outputs.drop_first()[i - 1] == outputs[i]);
                                assert forall|j: int|
                                    0 <= j < outputs.drop_first().len() && j != i - 1
                                    implies !((#[trigger] outputs.drop_first()[j]).content
                                matches ContentV::Custom(HivemindContentV::Position { .. }))
                                    by {
                                    assert(outputs.drop_first()[j] == outputs[j + 1]);
                                }
                            }
                            lemma_walk_outputs_single(
                                markets,
                                utxos,
                                outputs.drop_first(),
                                deltas,
                                v3,
                                i - 1,
                                market,
                                share,
                                pv,
                            );
                        }
                    }
                },
                Err(_) => {},
            }
        }
    }
}

/// A self-cancelling trade nets no delta: a transaction whose only spent
/// position and only created position hold the same value of the same
/// coordinate in the same market — in whatever positions of the input and
/// output lists — accumulates all-zero delta rows. Validation then finds a
/// net cost of exactly zero, and applying the deltas leaves every market
/// vector unchanged.
pub proof fn lemma_self_cancelling_trade(
    markets: Map<OutPoint, MarketV>,
    utxos: Map<OutPoint, OutputV>,
    ft: FilledTransactionV,
    i: int,
    j: int,
    market: OutPoint,
    share: Seq<u32>,
    pv: u64,
)
    requires
        only_position_at(ft.spent_utxos, i, market, share, pv),
        only_position_at(ft.transaction.outputs, j, market, share, pv),
        spec_deltas_and_values(markets, utxos, ft) is Ok,
    ensures
        all_rows_zero(spec_deltas_and_values(markets, utxos, ft).unwrap().0),
{
    let r = spec_deltas_and_values(markets, utxos, ft).unwrap();
    let w1 = spec_walk_spent(markets, ft.spent_utxos, Seq::empty(), 0);
    lemma_walk_spent_single(
        markets,
        ft.spent_utxos,
        Seq::empty(),
        0,
        i,
        market,
        share,
        pv,
    );
    let d1 = w1.unwrap().0;
    lemma_walk_outputs_single(
        markets,
        utxos,
        ft.transaction.outputs,
        d1,
        0,
        j,
        market,
        share,
        pv,
    );
    let d2 = r.0;
    assert(spec_apply_position(markets, Seq::empty(), market, share, pv, true) == Ok::<
        Seq<(OutPoint, Seq<i128>)>,
        Error,
    >(d1));
    assert(spec_apply_position(markets, d1, market, share, pv, false) == Ok::<
        Seq<(OutPoint, Seq<i128>)>,
        Error,
    >(d2));
    let sz = spec_get_size(markets, market).unwrap();
    let idx = spec_share_to_flat_index(markets, market, share).unwrap();
    crate::deltas::lemma_size_checked_sound(markets[market].shape);
    crate::deltas::lemma_flat_index_range(share, markets[market].shape);
    let e0 = Seq::<(OutPoint, Seq<i128>)>::empty().push((market, spec_zeros(sz)));
    assert(crate::table::idx_of(e0, market) == 0) by {
        crate::table::lemma_idx_of_unique(e0, 0);
    }
    let row1 = spec_zeros(sz).update(idx, (0 - pv) as i128);
    assert(d1 == e0.update(0, (market, row1)));
    assert(d1[0] == (market, row1));
    assert(crate::table::has_key(d1, market)) by {
        assert(d1[0].0 == market);
    }
    assert(crate::table::idx_of(d1, market) == 0) by {
        crate::table::lemma_idx_of_unique(d1, 0);
    }
    let row2 = row1.update(idx, (row1[idx] + pv) as i128);
    assert(d2 == d1.update(0, (market, row2)));
    assert forall|a: int| 0 <= a < d2.len() implies forall|q: int|
        0 <= q < (#[trigger] d2[a]).1.len() ==> (#[trigger] d2[a].1[q]) == 0i128 by {
        assert(d2[a] == (market, row2));
        assert forall|q: int| 0 <= q < row2.len() implies (#[trigger] row2[q]) == 0i128 by {
            if q != idx {
                assert(row2[q] == spec_zeros(sz)[q]);
            }
        }
    }
}

/// Applying all-zero delta rows returns the state unchanged: the market
/// vectors after a self-cancelling trade are what they were.
pub proof fn lemma_apply_zero_deltas(s: StateV, entries: Seq<(OutPoint, Seq<i128>)>)
    requires
        all_rows_zero(entries),
        forall|i: int| 0 <= i < entries.len() ==> s.vectors.dom().contains(
            (#[trigger] entries[i]).0,
        ) && s.vectors[entries[i].0].len() == entries[i].1.len() && forall|q: int|
            0 <= q < s.vectors[entries[i].0].len()
                ==> -MAX_DEC_MANTISSA <= (#[trigger] s.vectors[entries[i].0][q])
                    <= MAX_DEC_MANTISSA,
    ensures
        spec_apply_body_deltas(s, entries) == Ok::<StateV, Error>(s),
    decreases entries.len(),
{
    if entries.len() > 0 {
        let m = entries[0].0;
        let row = entries[0].1;
        let sv = s.vectors[m];
        assert(forall|q: int| 0 <= q < row.len() ==> (#[trigger] row[q]) == 0i128);
        assert forall|q: int| 0 <= q < sv.len() implies -MAX_DEC_MANTISSA <= (
            #[trigger] sv[q]) + row[q] <= MAX_DEC_MANTISSA by {
            assert(row[q] == 0i128);
        }
        crate::validate::lemma_add_rows_ok(sv, row);
        let nv = crate::validate::spec_add_rows(sv, row).unwrap();
        assert(nv =~= sv);
        assert(s.vectors.insert(m, nv) =~= s.vectors);
        let s2 = StateV {
            utxos: s.utxos,
            vectors: s.vectors.insert(m, nv),
            markets: s.markets,
            market_to_positions: s.market_to_positions,
        };
        assert(s2 == s);
        assert forall|i: int| 0 <= i < entries.drop_first().len() implies {
            &&& s.vectors.dom().contains((#[trigger] entries.drop_first()[i]).0)
            &&& s.vectors[entries.drop_first()[i].0].len() == entries.drop_first()[i].1.len()
            &&& forall|q: int| 0 <= q < s.vectors[entries.drop_first()[i].0].len()
                ==> -MAX_DEC_MANTISSA <= (#[trigger] s.vectors[entries.drop_first()[i].0][q])
                    <= MAX_DEC_MANTISSA
            &&& forall|q: int| 0 <= q < entries.drop_first()[i].1.len()
                ==> (#[trigger] entries.drop_first()[i].1[q]) == 0i128
        } by {
            assert(entries.drop_first()[i] == entries[i + 1]);
        }
        lemma_apply_zero_deltas(s, entries.drop_first());
    }
}

/// Resolving pays the winners and prunes the rest: after resolution a
/// winning position stands as plain money of its face value, a losing
/// position of the same market is gone, and every other output stands
/// unchanged.
pub proof fn lemma_resolution_pays_winners(s: StateV, dto: Map<OutPoint, u32>, o: OutPoint)
    requires
        s.utxos.dom().contains(o),
    ensures
        winning_position(s, dto, o) ==> spec_resolve(s, dto).utxos.dom().contains(o)
            && spec_resolve(s, dto).utxos[o] == spec_rewrite(s.utxos[o]),
        losing_position(s, dto, o) ==> !spec_resolve(s, dto).utxos.dom().contains(o),
        !winning_position(s, dto, o) && !losing_position(s, dto, o) ==> spec_resolve(
            s,
            dto,
        ).utxos.dom().contains(o) && spec_resolve(s, dto).utxos[o] == s.utxos[o],
{
    if winning_position(s, dto, o) || losing_position(s, dto, o) {
        match s.utxos[o].content {
            ContentV::Custom(HivemindContentV::Position { market, .. }) => {
                assert(s.markets.dom().contains(market));
                assert(crate::connect::position_market_done(s, o, s.markets.dom()));
            },
            _ => {},
        }
    }
}

/// The merge of a single all-zero delta entry into an empty accumulator
/// succeeds and stays all-zero with the same market and span.
pub proof fn lemma_merge_single_zero_entry(entries: Seq<(OutPoint, Seq<i128>)>)
    requires
        entries.len() == 1,
        all_rows_zero(entries),
    ensures
        crate::connect::spec_merge_deltas(Seq::empty(), entries) matches Ok(bd) && bd.len()
            == 1 && bd[0].0 == entries[0].0 && bd[0].1.len() == entries[0].1.len()
            && all_rows_zero(bd),
{
    let m = entries[0].0;
    let row = entries[0].1;
    let e0 = Seq::<(OutPoint, Seq<i128>)>::empty().push(
        (m, spec_zeros(row.len() as int)),
    );
    assert(!crate::table::has_key(Seq::<(OutPoint, Seq<i128>)>::empty(), m));
    assert(crate::table::idx_of(e0, m) == 0) by {
        crate::table::lemma_idx_of_unique(e0, 0);
    }
    assert forall|q: int| 0 <= q < row.len()
        implies -MAX_DEC_MANTISSA <= (#[trigger] spec_zeros(row.len() as int)[q]) + row[q]
        <= MAX_DEC_MANTISSA by {
        assert(row[q] == 0i128);
    }
    crate::validate::lemma_add_rows_ok(spec_zeros(row.len() as int), row);
    let sum = crate::validate::spec_add_rows(spec_zeros(row.len() as int), row).unwrap();
    assert(entries.drop_first().len() == 0);
    let bd = e0.update(0, (m, sum));
    assert(crate::connect::spec_merge_deltas(bd, entries.drop_first()) == Ok::<
        Seq<(OutPoint, Seq<i128>)>,
        Error,
    >(bd));
    assert(crate::connect::spec_merge_deltas(Seq::empty(), entries) == Ok::<
        Seq<(OutPoint, Seq<i128>)>,
        Error,
    >(bd));
    assert forall|a: int| 0 <= a < bd.len() implies forall|q: int|
        0 <= q < (#[trigger] bd[a]).1.len() ==> (#[trigger] bd[a].1[q]) == 0i128 by {
        assert(bd[a] == (m, sum));
        assert forall|q: int| 0 <= q < sum.len() implies (#[trigger] sum[q]) == 0i128 by {
            assert(sum[q] == spec_zeros(row.len() as int)[q] + row[q]);
            assert(row[q] == 0i128);
        }
    }
}

/// The whole self-cancelling law, composed through the block pipeline: a
/// transaction whose only spent position and only created position hold
/// the same value of the same coordinate in the same market accumulates
/// deltas whose merge applies as the identity on the stored vectors, and
/// the resolution pass then leaves an unresolved market's vector exactly
/// as stored.
pub proof fn lemma_self_cancelling_block(
    markets: Map<OutPoint, MarketV>,
    utxos: Map<OutPoint, OutputV>,
    s1: StateV,
    ft: FilledTransactionV,
    i: int,
    j: int,
    market: OutPoint,
    share: Seq<u32>,
    pv: u64,
    dto: Map<OutPoint, u32>,
)
    requires
        only_position_at(ft.spent_utxos, i, market, share, pv),
        only_position_at(ft.transaction.outputs, j, market, share, pv),
        spec_deltas_and_values(markets, utxos, ft) is Ok,
        s1.vectors.dom().contains(market),
        s1.vectors[market].len() == crate::deltas::spec_size(markets[market].shape),
        forall|q: int| 0 <= q < s1.vectors[market].len()
            ==> -MAX_DEC_MANTISSA <= (#[trigger] s1.vectors[market][q]) <= MAX_DEC_MANTISSA,
    ensures
        crate::connect::spec_merge_deltas(
            Seq::empty(),
            spec_deltas_and_values(markets, utxos, ft).unwrap().0,
        ) matches Ok(bd) && spec_apply_body_deltas(s1, bd) == Ok::<StateV, Error>(s1),
        !crate::connect::market_resolved(s1, dto, market) ==> spec_resolve(
            s1,
            dto,
        ).vectors.dom().contains(market) && spec_resolve(s1, dto).vectors[market]
            == s1.vectors[market],
{
    lemma_self_cancelling_trade(markets, utxos, ft, i, j, market, share, pv);
    let entries = spec_deltas_and_values(markets, utxos, ft).unwrap().0;
    lemma_single_market_entry(markets, utxos, ft, i, j, market, share, pv);
    lemma_merge_single_zero_entry(entries);
    let bd = crate::connect::spec_merge_deltas(Seq::empty(), entries).unwrap();
    assert(bd[0].0 == market);
    assert forall|a: int| 0 <= a < bd.len() implies s1.vectors.dom().contains(
        (#[trigger] bd[a]).0,
    ) && s1.vectors[bd[a].0].len() == bd[a].1.len() && forall|q: int|
        0 <= q < s1.vectors[bd[a].0].len()
            ==> -MAX_DEC_MANTISSA <= (#[trigger] s1.vectors[bd[a].0][q])
                <= MAX_DEC_MANTISSA by {
        assert(bd[a] == bd[0]);
        assert(bd[0].1.len() == entries[0].1.len());
    }
    lemma_apply_zero_deltas(s1, bd);
}

/// The deltas of a single-pair self-cancelling transaction hold exactly
/// one entry, for the traded market, spanning its grid.
pub proof fn lemma_single_market_entry(
    markets: Map<OutPoint, MarketV>,
    utxos: Map<OutPoint, OutputV>,
    ft: FilledTransactionV,
    i: int,
    j: int,
    market: OutPoint,
    share: Seq<u32>,
    pv: u64,
)
    requires
        only_position_at(ft.spent_utxos, i, market, share, pv),
        only_position_at(ft.transaction.outputs, j, market, share, pv),
        spec_deltas_and_values(markets, utxos, ft) is Ok,
    ensures
        spec_deltas_and_values(markets, utxos, ft).unwrap().0.len() == 1,
        spec_deltas_and_values(markets, utxos, ft).unwrap().0[0].0 == market,
        spec_deltas_and_values(markets, utxos, ft).unwrap().0[0].1.len()
            == crate::deltas::spec_size(markets[market].shape),
{
    let r = spec_deltas_and_values(markets, utxos, ft).unwrap();
    let w1 = spec_walk_spent(markets, ft.spent_utxos, Seq::empty(), 0);
    lemma_walk_spent_single(markets, ft.spent_utxos, Seq::empty(), 0, i, market, share, pv);
    let d1 = w1.unwrap().0;
    lemma_walk_outputs_single(
        markets,
        utxos,
        ft.transaction.outputs,
        d1,
        0,
        j,
        market,
        share,
        pv,
    );
    let d2 = r.0;
    assert(spec_apply_position(markets, Seq::empty(), market, share, pv, true) == Ok::<
        Seq<(OutPoint, Seq<i128>)>,
        Error,
    >(d1));
    assert(spec_apply_position(markets, d1, market, share, pv, false) == Ok::<
        Seq<(OutPoint, Seq<i128>)>,
        Error,
    >(d2));
    let sz = spec_get_size(markets, market).unwrap();
    let idx = spec_share_to_flat_index(markets, market, share).unwrap();
    crate::deltas::lemma_size_checked_sound(markets[market].shape);
    crate::deltas::lemma_flat_index_range(share, markets[market].shape);
    let e0 = Seq::<(OutPoint, Seq<i128>)>::empty().push((market, spec_zeros(sz)));
    assert(crate::table::idx_of(e0, market) == 0) by {
        crate::table::lemma_idx_of_unique(e0, 0);
    }
    let row1 = spec_zeros(sz).update(idx, (0 - pv) as i128);
    assert(d1 == e0.update(0, (market, row1)));
    assert(crate::table::has_key(d1, market)) by {
        assert(d1[0].0 == market);
    }
    assert(crate::table::idx_of(d1, market) == 0) by {
        crate::table::lemma_idx_of_unique(d1, 0);
    }
    let row2 = row1.update(idx, (row1[idx] + pv) as i128);
    assert(d2 == d1.update(0, (market, row2)));
    assert(d2[0] == (market, row2));
}

/// After any successful connection the positions index is exact: for every
/// live market it lists, without repetition, precisely the outpoints whose
/// UTXO is a position on it. This is the invariant `connect_body` ensures,
/// read off pointwise.
pub proof fn lemma_index_exact_after_connect(s: crate::state::State, m: OutPoint)
    requires
        s.inv(),
        s.market_to_positions@.dom().contains(m),
    ensures
        s.market_to_positions@[m].no_duplicates(),
        forall|o: OutPoint| #[trigger] s.market_to_positions@[m].contains(o)
            <==> s.utxos@.dom().contains(o) && crate::state::is_position_on(s.utxos@[o], m),
{
    assert(s.index_exact());
}

/// All inputs of a block's transactions, in block order.
pub open spec fn spec_block_inputs(txs: Seq<crate::content::TransactionV>) -> Seq<OutPoint>
    decreases txs.len(),
{
    if txs.len() == 0 {
        Seq::empty()
    } else {
        txs[0].inputs + spec_block_inputs(txs.drop_first())
    }
}

/// Walking one transaction's inputs extends the block's spent list by
/// exactly those inputs, and keeps it free of repetition.
pub proof fn lemma_body_inputs_loop_spent(
    utxos: Map<OutPoint, OutputV>,
    vectors: Map<OutPoint, Seq<i128>>,
    markets: Map<OutPoint, MarketV>,
    tx: crate::content::TransactionV,
    inputs: Seq<OutPoint>,
    spent: Seq<OutPoint>,
    fee: int,
)
    requires
        spent.no_duplicates(),
    ensures
        crate::validate::spec_body_inputs_loop(utxos, vectors, markets, tx, inputs, spent, fee)
            matches Ok(p) ==> p.0 == spent + inputs && p.0.no_duplicates(),
    decreases inputs.len(),
{
    if inputs.len() == 0 {
        assert(spent + inputs =~= spent);
    } else {
        let inp = inputs[0];
        if !spent.contains(inp) {
            assert(spent.push(inp).no_duplicates()) by {
                assert forall|a: int, b: int| 0 <= a < b < spent.push(inp).len()
                    implies spent.push(inp)[a] != spent.push(inp)[b] by {
                    if b == spent.len() {
                        assert(spent.push(inp)[b] == inp);
                        assert(spent.push(inp)[a] == spent[a]);
                        if spent[a] == inp {
                            assert(spent.contains(inp));
                        }
                    }
                }
            }
            match crate::fill::spec_fill(utxos, tx.inputs) {
                Err(_) => {},
                Ok(su) => {
                    match crate::validate::spec_validate_transaction(
                        utxos,
                        vectors,
                        markets,
                        crate::content::FilledTransactionV {
                            spent_utxos: su,
                            transaction: tx,
                        },
                        0,
                    ) {
                        Err(_) => {},
                        Ok(ftx) => {
                            if fee + ftx <= 0xffff_ffff_ffff_ffff {
                                lemma_body_inputs_loop_spent(
                                    utxos,
                                    vectors,
                                    markets,
                                    tx,
                                    inputs.drop_first(),
                                    spent.push(inp),
                                    fee + ftx,
                                );
                                assert(spent.push(inp) + inputs.drop_first() =~= spent
                                    + inputs);
                            }
                        },
                    }
                },
            }
        }
    }
}

/// Walking a block's transactions extends the spent list by exactly the
/// block's inputs, free of repetition.
pub proof fn lemma_body_txs_loop_spent(
    utxos: Map<OutPoint, OutputV>,
    vectors: Map<OutPoint, Seq<i128>>,
    markets: Map<OutPoint, MarketV>,
    txs: Seq<crate::content::TransactionV>,
    spent: Seq<OutPoint>,
    fee: int,
)
    requires
        spent.no_duplicates(),
    ensures
        crate::validate::spec_body_txs_loop(utxos, vectors, markets, txs, spent, fee)
            matches Ok(p) ==> p.0 == spent + spec_block_inputs(txs) && p.0.no_duplicates(),
    decreases txs.len(),
{
    if txs.len() == 0 {
        assert(spent + spec_block_inputs(txs) =~= spent);
    } else {
        lemma_body_inputs_loop_spent(utxos, vectors, markets, txs[0], txs[0].inputs, spent,
            fee);
        match crate::validate::spec_body_inputs_loop(
            utxos,
            vectors,
            markets,
            txs[0],
            txs[0].inputs,
            spent,
            fee,
        ) {
            Err(_) => {},
            Ok(p1) => {
                lemma_body_txs_loop_spent(
                    utxos,
                    vectors,
                    markets,
                    txs.drop_first(),
                    p1.0,
                    p1.1,
                );
                assert((spent + txs[0].inputs) + spec_block_inputs(txs.drop_first()) =~= spent
                    + spec_block_inputs(txs));
            },
        }
    }
}

/// A block that validates spends no outpoint twice: its inputs, taken over
/// all its transactions in block order, are pairwise distinct. A repeated
/// outpoint makes validation fail at its first repetition, with that
/// outpoint named.
pub proof fn lemma_validated_block_spends_once(
    utxos: Map<OutPoint, OutputV>,
    vectors: Map<OutPoint, Seq<i128>>,
    markets: Map<OutPoint, MarketV>,
    body: crate::content::BodyV,
)
    ensures
        crate::validate::spec_validate_body(utxos, vectors, markets, body) is Ok
            ==> spec_block_inputs(body.transactions).no_duplicates(),
{
    assert(Seq::<OutPoint>::empty().no_duplicates());
    lemma_body_txs_loop_spent(utxos, vectors, markets, body.transactions, Seq::empty(), 0);
    if crate::validate::spec_validate_body(utxos, vectors, markets, body) is Ok {
        match crate::validate::spec_body_txs_loop(
            utxos,
            vectors,
            markets,
            body.transactions,
            Seq::empty(),
            0,
        ) {
            Err(_) => {
                assert(false);
            },
            Ok(p) => {
                assert(Seq::<OutPoint>::empty() + spec_block_inputs(body.transactions)
                    =~= spec_block_inputs(body.transactions));
            },
        }
    }
}

} // verus!
