//! Connecting a validated block: apply each transaction's spends and
//! creations, accumulate and apply the market deltas, then resolve every
//! market whose decisions have all been decided — by this block or by the
//! outcomes already recorded. The whole application is atomic: it works on
//! a copy of the state and commits it only on success. Spending a market's
//! own UTXO deletes only that output; the market's record, vector and
//! positions index are retired by resolution alone.
use vstd::prelude::*;

use crate::content::Content;
use crate::content::ContentV;
use crate::content::Hash256;
use crate::content::HivemindContent;
use crate::content::HivemindContentV;
use crate::content::MarketV;
use crate::content::OutPoint;
use crate::content::Output;
use crate::content::OutputV;
use crate::dec::Dec;
use crate::state::Error;
use crate::state::State;
use crate::state::is_position_on;
use crate::table::Table;

verus! {

/// The mathematical state: the views of the four tables.
pub struct StateV {
    pub utxos: Map<OutPoint, OutputV>,
    pub vectors: Map<OutPoint, Seq<i128>>,
    pub markets: Map<OutPoint, MarketV>,
    pub market_to_positions: Map<OutPoint, Seq<OutPoint>>,
}

impl State {
    pub open spec fn view_s(self) -> StateV {
        StateV {
            utxos: self.utxos@,
            vectors: self.vectors@,
            markets: self.markets@,
            market_to_positions: self.market_to_positions@,
        }
    }
}

/// A position list with the first occurrence of `x` taken out.
pub open spec fn spec_remove_outpoint(l: Seq<OutPoint>, x: OutPoint) -> Seq<OutPoint> {
    if l.contains(x) {
        l.remove(l.index_of(x))
    } else {
        l
    }
}

/// Spending one input: the outpoint leaves the UTXO set, and a spent
/// position also leaves its market's positions index.
pub open spec fn spec_delete_input(s: StateV, input: OutPoint) -> StateV {
    let base = StateV {
        utxos: s.utxos.remove(input),
        vectors: s.vectors,
        markets: s.markets,
        market_to_positions: s.market_to_positions,
    };
    if s.utxos.dom().contains(input) {
        match s.utxos[input].content {
            ContentV::Custom(HivemindContentV::Position { market, .. }) => {
                if s.market_to_positions.dom().contains(market) {
                    StateV {
                        market_to_positions: s.market_to_positions.insert(
                            market,
                            spec_remove_outpoint(s.market_to_positions[market], input),
                        ),
                        ..base
                    }
                } else {
                    base
                }
            },
            _ => base,
        }
    } else {
        base
    }
}

pub open spec fn spec_delete_inputs(s: StateV, inputs: Seq<OutPoint>) -> StateV
    decreases inputs.len(),
{
    if inputs.len() == 0 {
        s
    } else {
        spec_delete_inputs(spec_delete_input(s, inputs[0]), inputs.drop_first())
    }
}

impl State {
    /// Removes the first occurrence of `x` from the positions index of
    /// `market`, if both exist.
    fn remove_position_from_index(&mut self, market: &OutPoint, x: &OutPoint)
        requires
            old(self).tables_wf(),
            old(self).market_to_positions@.dom().contains(*market) ==> old(
                self,
            ).market_to_positions@[*market].no_duplicates(),
        ensures
            final(self).tables_wf(),
            final(self).utxos@ == old(self).utxos@,
            final(self).vectors@ == old(self).vectors@,
            final(self).markets@ == old(self).markets@,
            final(self).market_to_positions@ == if old(
                self,
            ).market_to_positions@.dom().contains(*market) {
                old(self).market_to_positions@.insert(
                    *market,
                    spec_remove_outpoint(old(self).market_to_positions@[*market], *x),
                )
            } else {
                old(self).market_to_positions@
            },
    {
        let mut copied: Vec<OutPoint>;
        match self.market_to_positions.get(market) {
            Some(l) => {
                copied = crate::content::copy_outpoints(l);
            },
            None => {
                return ;
            },
        }
        let ghost l0 = copied@;
        let mut j: usize = 0;
        let mut found: bool = false;
        let mut at: usize = 0;
        while j < copied.len()
            invariant
                j <= l0.len(),
                copied@ == l0,
                !found ==> forall|q: int| 0 <= q < j ==> l0[q] != *x,
                found ==> at < l0.len() && l0[at as int] == *x && forall|q: int|
                    0 <= q < at ==> l0[q] != *x,
            decreases l0.len() - j,
        {
            if !found && copied[j] == *x {
                found = true;
                at = j;
            }
            j = j + 1;
        }
        if found {
            proof {
                assert(l0.contains(*x)) by {
                    assert(l0[at as int] == *x);
                }
                let i0 = l0.index_of(*x);
                assert(0 <= i0 < l0.len() && l0[i0] == *x);
                if i0 != at as int {
                    assert(false);
                }
                assert(spec_remove_outpoint(l0, *x) == l0.remove(at as int));
            }
            copied.remove(at);
            let key = *market;
            self.market_to_positions.put(key, copied);
        } else {
            proof {
                assert(!l0.contains(*x)) by {
                    if l0.contains(*x) {
                        let q = choose|q: int| 0 <= q < l0.len() && l0[q] == *x;
                        assert(false);
                    }
                }
                assert(spec_remove_outpoint(l0, *x) == l0);
                assert(self.market_to_positions@.insert(*market, l0)
                    =~= self.market_to_positions@);
            }
        }
    }
}

/// Removing the sole occurrence of `x` from a duplicate-free list keeps
/// every other member and only that one.
pub proof fn lemma_remove_value_membership(l: Seq<OutPoint>, x: OutPoint)
    requires
        l.no_duplicates(),
        l.contains(x),
    ensures
        spec_remove_outpoint(l, x).no_duplicates(),
        forall|o: OutPoint| #[trigger] spec_remove_outpoint(l, x).contains(o)
            <==> (l.contains(o) && o != x),
{
    let i = l.index_of(x);
    let l2 = l.remove(i);
    assert(l2.no_duplicates()) by {
        assert forall|a: int, b: int| 0 <= a < b < l2.len() implies l2[a] != l2[b] by {
            let a0 = if a < i { a } else { a + 1 };
            let b0 = if b < i { b } else { b + 1 };
            assert(l2[a] == l[a0]);
            assert(l2[b] == l[b0]);
        }
    }
    assert forall|o: OutPoint| #[trigger] l2.contains(o) implies (l.contains(o) && o != x) by {
        let q = choose|q: int| 0 <= q < l2.len() && l2[q] == o;
        let q0 = if q < i { q } else { q + 1 };
        assert(l2[q] == l[q0]);
        assert(l[q0] == o);
        if o == x {
            assert(l[i] == x);
            assert(q0 != i);
            assert(false);
        }
    }
    assert forall|o: OutPoint| l.contains(o) && o != x implies #[trigger] l2.contains(o) by {
        let q = choose|q: int| 0 <= q < l.len() && l[q] == o;
        if q < i {
            assert(l2[q] == o);
        } else {
            assert(q != i);
            assert(l2[q - 1] == l[q]);
        }
    }
}

impl State {
    /// Spends one input: deletes it from the UTXO set and, if it was a
    /// position, from its market's positions index.
    pub fn connect_delete_input(&mut self, input: &OutPoint)
        requires
            old(self).inv(),
        ensures
            final(self).inv(),
            final(self).view_s() == spec_delete_input(old(self).view_s(), *input),
    {
        let ghost s0 = self.view_s();
        let pos_market: Option<OutPoint> = match self.utxos.get(input) {
            Some(o) => match &o.content {
                Content::Custom(HivemindContent::Position { market, .. }) => Some(*market),
                _ => None,
            },
            None => None,
        };
        self.utxos.delete(input);
        match pos_market {
            Some(m) => {
                proof {
                    assert(s0.market_to_positions.dom().contains(m)) by {
                        assert(old(self).positions_reference_markets());
                        assert(old(self).domains_agree());
                    }
                    assert(s0.market_to_positions[m].no_duplicates()) by {
                        assert(old(self).index_exact());
                    }
                }
                self.remove_position_from_index(&m, input);
                proof {
                    assert(s0.market_to_positions[m].contains(*input)) by {
                        assert(is_position_on(s0.utxos[*input], m));
                    }
                    lemma_remove_value_membership(s0.market_to_positions[m], *input);
                    let sf = self.view_s();
                    assert(sf == spec_delete_input(s0, *input));
                    lemma_delete_position_inv(s0, *input, m, sf);
                    lemma_inv_from_v(*self);
                }
            },
            None => {
                proof {
                    let sf = self.view_s();
                    assert(sf == spec_delete_input(s0, *input));
                    assert(self.inv()) by {
                        assert(self.tables_wf());
                        assert forall|mm: OutPoint|
                            #[trigger] sf.market_to_positions.dom().contains(mm) implies {
                            let l = sf.market_to_positions[mm];
                            &&& l.no_duplicates()
                            &&& forall|o: OutPoint| #[trigger] l.contains(o)
                                <==> sf.utxos.dom().contains(o) && is_position_on(
                                    sf.utxos[o],
                                    mm,
                                )
                        } by {
                            let l = sf.market_to_positions[mm];
                            assert(l == s0.market_to_positions[mm]);
                            assert forall|o: OutPoint| #[trigger] l.contains(o)
                                <==> sf.utxos.dom().contains(o) && is_position_on(
                                sf.utxos[o],
                                mm,
                            ) by {
                                if o == *input {
                                    assert(!l.contains(o));
                                    assert(!sf.utxos.dom().contains(o));
                                }
                            }
                        }
                    }
                }
            },
        }
    }
}

/// Deleting a position input and its index entry preserves the cross-table
/// invariant.
pub proof fn lemma_delete_position_inv(s0: StateV, input: OutPoint, m: OutPoint, sf: StateV)
    requires
        inv_v(s0),
        s0.utxos.dom().contains(input),
        is_position_on(s0.utxos[input], m),
        s0.market_to_positions.dom().contains(m),
        sf.utxos == s0.utxos.remove(input),
        sf.vectors == s0.vectors,
        sf.markets == s0.markets,
        sf.market_to_positions == s0.market_to_positions.insert(
            m,
            spec_remove_outpoint(s0.market_to_positions[m], input),
        ),
    ensures
        inv_v(sf),
{
    lemma_remove_value_membership(s0.market_to_positions[m], input);
    assert(sf.market_to_positions.dom() =~= s0.market_to_positions.dom());
    assert forall|mm: OutPoint| #[trigger] sf.market_to_positions.dom().contains(mm) implies {
        let l = sf.market_to_positions[mm];
        &&& l.no_duplicates()
        &&& forall|o: OutPoint| #[trigger] l.contains(o) <==> sf.utxos.dom().contains(o)
            && is_position_on(sf.utxos[o], mm)
    } by {
        let l = sf.market_to_positions[mm];
        if mm == m {
            assert forall|o: OutPoint| #[trigger] l.contains(o) <==> sf.utxos.dom().contains(o)
                && is_position_on(sf.utxos[o], mm) by {
                if o != input {
                    assert(l.contains(o) <==> s0.market_to_positions[m].contains(o));
                }
            }
        } else {
            assert(l == s0.market_to_positions[mm]);
            assert forall|o: OutPoint| #[trigger] l.contains(o) <==> sf.utxos.dom().contains(o)
                && is_position_on(sf.utxos[o], mm) by {
                if o == input {
                    assert(is_position_on(s0.utxos[input], m) && m != mm);
                    assert(!l.contains(o));
                }
            }
        }
    }
}

/// The cross-table invariant, stated of the mathematical state.
pub open spec fn inv_v(s: StateV) -> bool {
    &&& forall|m: OutPoint| #[trigger] s.vectors.dom().contains(m) ==> forall|i: int|
        0 <= i < s.vectors[m].len() ==> -crate::dec::MAX_DEC_MANTISSA <= (
        #[trigger] s.vectors[m][i]) <= crate::dec::MAX_DEC_MANTISSA
    &&& forall|m: OutPoint| #[trigger] s.vectors.dom().contains(m) ==> s.markets.dom().contains(
        m,
    ) && s.vectors[m].len() == crate::deltas::spec_size(s.markets[m].shape)
    &&& forall|m: OutPoint| #[trigger] s.markets.dom().contains(m) ==> s.markets[m].outcomes.len()
        == s.markets[m].decisions.len() && s.markets[m].shape.len()
        == s.markets[m].decisions.len()
    &&& forall|m: OutPoint| #[trigger] s.vectors.dom().contains(m) <==> s.markets.dom().contains(
        m,
    )
    &&& forall|m: OutPoint| #[trigger] s.market_to_positions.dom().contains(m)
        <==> s.markets.dom().contains(m)
    &&& forall|o: OutPoint| #[trigger] s.utxos.dom().contains(o) ==> match s.utxos[o].content {
        ContentV::Custom(HivemindContentV::Position { market, .. }) => s.markets.dom().contains(
            market,
        ),
        _ => true,
    }
    &&& forall|m: OutPoint| #[trigger] s.market_to_positions.dom().contains(m) ==> {
        let l = s.market_to_positions[m];
        &&& l.no_duplicates()
        &&& forall|o: OutPoint| #[trigger] l.contains(o) <==> s.utxos.dom().contains(o)
            && is_position_on(s.utxos[o], m)
    }
}

// ---------------------------------------------------------------------------
// Creating outputs
// ---------------------------------------------------------------------------

/// The per-axis outcome counts of a market being created: each referenced
/// outpoint must resolve to a decision in the UTXO set.
pub open spec fn spec_market_shape(
    utxos: Map<OutPoint, OutputV>,
    decisions: Seq<OutPoint>,
) -> Result<Seq<u32>, Error>
    decreases decisions.len(),
{
    if decisions.len() == 0 {
        Ok(Seq::empty())
    } else {
        let d = decisions[0];
        if !utxos.dom().contains(d) {
            Err(Error::NoUtxo { outpoint: d })
        } else {
            match utxos[d].content {
                ContentV::Custom(HivemindContentV::Decision { size, .. }) => {
                    match spec_market_shape(utxos, decisions.drop_first()) {
                        Err(e) => Err(e),
                        Ok(tail) => Ok(seq![size] + tail),
                    }
                },
                _ => Err(Error::InvalidOutPoint { outpoint: d }),
            }
        }
    }
}

/// Creating one output under a fresh outpoint: the output enters the UTXO
/// set; a position joins its market's index, a resolution records its
/// decision's outcome for this block, and a market brings its record, its
/// zero state vector, and its empty positions index into being. An
/// outpoint already carrying an output or a market record is rejected;
/// with cryptographic transaction ids that cannot occur.
pub open spec fn spec_insert_output(
    s: StateV,
    dto: Map<OutPoint, u32>,
    op: OutPoint,
    o: OutputV,
) -> Result<(StateV, Map<OutPoint, u32>), Error> {
    if s.utxos.dom().contains(op) || s.markets.dom().contains(op) {
        Err(Error::InvalidOutPoint { outpoint: op })
    } else {
        let utxos1 = s.utxos.insert(op, o);
        match o.content {
            ContentV::Custom(HivemindContentV::Position { market, .. }) => {
                if !s.market_to_positions.dom().contains(market) {
                    Err(Error::NoUtxo { outpoint: market })
                } else {
                    Ok(
                        (
                            StateV {
                                utxos: utxos1,
                                vectors: s.vectors,
                                markets: s.markets,
                                market_to_positions: s.market_to_positions.insert(
                                    market,
                                    s.market_to_positions[market].push(op),
                                ),
                            },
                            dto,
                        ),
                    )
                }
            },
            ContentV::Custom(HivemindContentV::Resolution { decision, outcome }) => {
                Ok(
                    (
                        StateV {
                            utxos: utxos1,
                            vectors: s.vectors,
                            markets: s.markets,
                            market_to_positions: s.market_to_positions,
                        },
                        dto.insert(decision, outcome),
                    ),
                )
            },
            ContentV::Custom(HivemindContentV::Market { b, decisions }) => {
                match spec_market_shape(utxos1, decisions) {
                    Err(e) => Err(e),
                    Ok(shape) => match crate::deltas::spec_size_checked(shape) {
                        None => Err(Error::InvalidOutPoint { outpoint: op }),
                        Some(sz) => Ok(
                            (
                                StateV {
                                    utxos: utxos1,
                                    vectors: s.vectors.insert(
                                        op,
                                        crate::deltas::spec_zeros(sz),
                                    ),
                                    markets: s.markets.insert(
                                        op,
                                        MarketV {
                                            b,
                                            shape,
                                            decisions,
                                            outcomes: Seq::new(
                                                shape.len(),
                                                |i: int| None::<u32>,
                                            ),
                                        },
                                    ),
                                    market_to_positions: s.market_to_positions.insert(
                                        op,
                                        Seq::empty(),
                                    ),
                                },
                                dto,
                            ),
                        ),
                    },
                }
            },
            _ => Ok(
                (
                    StateV {
                        utxos: utxos1,
                        vectors: s.vectors,
                        markets: s.markets,
                        market_to_positions: s.market_to_positions,
                    },
                    dto,
                ),
            ),
        }
    }
}

impl State {
    /// Creates one output, maintaining the cross-table invariant.
    pub fn connect_insert_output(
        &mut self,
        dto: &mut Table<u32>,
        outpoint: OutPoint,
        output: &Output,
    ) -> (r: Result<(), Error>)
        requires
            old(self).inv(),
            old(dto).wf(),
        ensures
            final(dto).wf(),
            match r {
                Ok(_) => spec_insert_output(old(self).view_s(), old(dto)@, outpoint, output@)
                    == Ok::<(StateV, Map<OutPoint, u32>), Error>(
                    (final(self).view_s(), final(dto)@),
                ) && final(self).inv(),
                Err(e) => spec_insert_output(old(self).view_s(), old(dto)@, outpoint, output@)
                    == Err::<(StateV, Map<OutPoint, u32>), Error>(e),
            },
    {
        let ghost s0 = self.view_s();
        if self.utxos.contains_key(&outpoint) || self.markets.contains_key(&outpoint) {
            return Err(Error::InvalidOutPoint { outpoint });
        }
        match &output.content {
            Content::Custom(HivemindContent::Position { market, .. }) => {
                let m = *market;
                let mut list: Vec<OutPoint>;
                match self.market_to_positions.get(&m) {
                    Some(l) => {
                        list = crate::content::copy_outpoints(l);
                    },
                    None => {
                        return Err(Error::NoUtxo { outpoint: m });
                    },
                }
                let copied = crate::content::copy_output(output);
                self.utxos.put(outpoint, copied);
                list.push(outpoint);
                self.market_to_positions.put(m, list);
                proof {
                    let sf = self.view_s();
                    assert(sf == spec_insert_output(s0, dto@, outpoint, output@).unwrap().0);
                    lemma_insert_position_inv(s0, outpoint, output@, m, sf);
                    lemma_inv_from_v(*self);
                }
                Ok(())
            },
            Content::Custom(HivemindContent::Resolution { decision, outcome }) => {
                let copied = crate::content::copy_output(output);
                self.utxos.put(outpoint, copied);
                dto.put(*decision, *outcome);
                proof {
                    let sf = self.view_s();
                    assert(sf == spec_insert_output(s0, old(dto)@, outpoint, output@).unwrap().0);
                    lemma_insert_plain_inv(s0, outpoint, output@, sf);
                    lemma_inv_from_v(*self);
                }
                Ok(())
            },
            Content::Custom(HivemindContent::Market { b, decisions }) => {
                let copied = crate::content::copy_output(output);
                self.utxos.put(outpoint, copied);
                let ghost utxos1 = self.utxos@;
                let ghost dseq = decisions@;
                let mut shape: Vec<u32> = Vec::new();
                let mut i: usize = 0;
                proof {
                    assert(dseq.skip(0) =~= dseq);
                    assert(spec_market_shape(utxos1, dseq.skip(0)) == spec_market_shape(
                        utxos1,
                        dseq,
                    ));
                }
                while i < decisions.len()
                    invariant
                        self.tables_wf(),
                        i <= dseq.len(),
                        decisions@ == dseq,
                        self.utxos@ == utxos1,
                        shape@.len() == i,
                        s0 == old(self).view_s(),
                        dto.wf(),
                        dto@ == old(dto)@,
                        utxos1 == s0.utxos.insert(outpoint, output@),
                        !s0.utxos.dom().contains(outpoint),
                        !s0.markets.dom().contains(outpoint),
                        output@.content matches ContentV::Custom(
                            HivemindContentV::Market { b: bb, decisions: dd },
                        ) && bb == b && dd == dseq,
                        spec_market_shape(utxos1, dseq) == (match spec_market_shape(
                            utxos1,
                            dseq.skip(i as int),
                        ) {
                            Err(e) => Err::<Seq<u32>, Error>(e),
                            Ok(tail) => Ok::<Seq<u32>, Error>(shape@ + tail),
                        }),
                    decreases dseq.len() - i,
                {
                    proof {
                        assert(dseq.skip(i as int)[0] == dseq[i as int]);
                        assert(dseq.skip(i as int).drop_first() =~= dseq.skip(i + 1));
                    }
                    let d = decisions[i];
                    match self.utxos.get(&d) {
                        None => {
                            return Err(Error::NoUtxo { outpoint: d });
                        },
                        Some(o) => match &o.content {
                            Content::Custom(HivemindContent::Decision { size, .. }) => {
                                let ghost old_shape = shape@;
                                shape.push(*size);
                                proof {
                                    match spec_market_shape(utxos1, dseq.skip(i + 1)) {
                                        Ok(t2) => {
                                            assert(old_shape + (seq![*size] + t2) =~= shape@
                                                + t2);
                                        },
                                        Err(_) => {},
                                    }
                                }
                            },
                            _ => {
                                return Err(Error::InvalidOutPoint { outpoint: d });
                            },
                        },
                    }
                    i = i + 1;
                }
                proof {
                    assert(dseq.skip(dseq.len() as int).len() == 0);
                    assert(shape@ + Seq::<u32>::empty() =~= shape@);
                    assert(spec_market_shape(utxos1, dseq) == Ok::<Seq<u32>, Error>(shape@));
                }
                // The grid size, with every partial product capped at 32 bits.
                let ghost shp = shape@;
                let mut sz: u32 = 1;
                let mut k: usize = 0;
                while k < shape.len()
                    invariant
                        k <= shp.len(),
                        shape@ == shp,
                        self.tables_wf(),
                        dto.wf(),
                        dto@ == old(dto)@,
                        s0 == old(self).view_s(),
                        self.utxos@ == utxos1,
                        utxos1 == s0.utxos.insert(outpoint, output@),
                        !s0.utxos.dom().contains(outpoint),
                        !s0.markets.dom().contains(outpoint),
                        output@.content matches ContentV::Custom(
                            HivemindContentV::Market { b: bb, decisions: dd },
                        ) && bb == b && dd == decisions@,
                        spec_market_shape(utxos1, decisions@) == Ok::<Seq<u32>, Error>(shp),
                        crate::deltas::spec_size_checked(shp.subrange(0, k as int)) == Some(
                            sz as int,
                        ),
                    decreases shp.len() - k,
                {
                    proof {
                        assert((sz as int) * (shape@[k as int] as int) < 0x1_0000_0000_0000_0000)
                            by (nonlinear_arith)
                            requires
                                0 <= sz as int <= 0xffff_ffff,
                                0 <= shape@[k as int] as int <= 0xffff_ffff,
                        ;
                        assert(shp.subrange(0, k + 1).drop_last() =~= shp.subrange(0, k as int));
                        assert(shp.subrange(0, k + 1).last() == shp[k as int]);
                    }
                    let wide: u64 = (sz as u64) * (shape[k] as u64);
                    if wide > 0xffff_ffffu64 {
                        proof {
                            crate::deltas::lemma_size_checked_prefix_none(shp, k + 1);
                        }
                        return Err(Error::InvalidOutPoint { outpoint });
                    }
                    sz = wide as u32;
                    k = k + 1;
                }
                proof {
                    assert(shp.subrange(0, shp.len() as int) =~= shp);
                    crate::deltas::lemma_size_checked_sound(shp);
                }
                let mut vector: Vec<i128> = Vec::new();
                let sz_us = sz as usize;
                let mut q: usize = 0;
                while q < sz_us
                    invariant
                        q <= sz_us,
                        vector@.len() == q,
                        forall|w: int| 0 <= w < q ==> (#[trigger] vector@[w]) == 0i128,
                    decreases sz_us - q,
                {
                    vector.push(0i128);
                    q = q + 1;
                }
                let mut outcomes: Vec<Option<u32>> = Vec::new();
                let mut w: usize = 0;
                while w < shape.len()
                    invariant
                        w <= shape@.len(),
                        outcomes@.len() == w,
                        forall|y: int| 0 <= y < w ==> (#[trigger] outcomes@[y]) == None::<u32>,
                    decreases shape@.len() - w,
                {
                    outcomes.push(None);
                    w = w + 1;
                }
                let record = crate::content::Market {
                    b: *b,
                    shape,
                    decisions: crate::content::copy_outpoints(decisions),
                    outcomes,
                };
                let ghost vec_view = vector@;
                let empty_index: Vec<OutPoint> = Vec::new();
                proof {
                    assert(empty_index@ =~= Seq::<OutPoint>::empty());
                }
                self.markets.put(outpoint, record);
                self.vectors.put(outpoint, vector);
                self.market_to_positions.put(outpoint, empty_index);
                proof {
                    let sf = self.view_s();
                    assert(vec_view =~= crate::deltas::spec_zeros(sz as int));
                    assert(outcomes@ =~= Seq::new(shp.len(), |y: int| None::<u32>));
                    assert(sf == spec_insert_output(s0, dto@, outpoint, output@).unwrap().0);
                    lemma_insert_market_inv(s0, outpoint, output@, shp, sz as int, sf);
                    lemma_inv_from_v(*self);
                }
                Ok(())
            },
            _ => {
                let copied = crate::content::copy_output(output);
                self.utxos.put(outpoint, copied);
                proof {
                    let sf = self.view_s();
                    assert(sf == spec_insert_output(s0, dto@, outpoint, output@).unwrap().0);
                    lemma_insert_plain_inv(s0, outpoint, output@, sf);
                    lemma_inv_from_v(*self);
                }
                Ok(())
            },
        }
    }
}

/// Inserting a fresh non-position, non-market output preserves the
/// cross-table invariant.
pub proof fn lemma_insert_plain_inv(s0: StateV, op: OutPoint, o: OutputV, sf: StateV)
    requires
        inv_v(s0),
        !s0.utxos.dom().contains(op),
        !(o.content matches ContentV::Custom(HivemindContentV::Position { .. })),
        match o.content {
            ContentV::Custom(HivemindContentV::Position { .. }) => false,
            _ => true,
        },
        sf.utxos == s0.utxos.insert(op, o),
        sf.vectors == s0.vectors,
        sf.markets == s0.markets,
        sf.market_to_positions == s0.market_to_positions,
    ensures
        inv_v(sf),
{
    assert forall|m: OutPoint| #[trigger] sf.market_to_positions.dom().contains(m) implies {
        let l = sf.market_to_positions[m];
        &&& l.no_duplicates()
        &&& forall|x: OutPoint| #[trigger] l.contains(x) <==> sf.utxos.dom().contains(x)
            && is_position_on(sf.utxos[x], m)
    } by {
        let l = sf.market_to_positions[m];
        assert forall|x: OutPoint| #[trigger] l.contains(x) <==> sf.utxos.dom().contains(x)
            && is_position_on(sf.utxos[x], m) by {
            if x == op {
                assert(!l.contains(x));
                assert(!is_position_on(o, m));
            }
        }
    }
}

/// Inserting a fresh position output and its index entry preserves the
/// cross-table invariant.
pub proof fn lemma_insert_position_inv(
    s0: StateV,
    op: OutPoint,
    o: OutputV,
    m: OutPoint,
    sf: StateV,
)
    requires
        inv_v(s0),
        !s0.utxos.dom().contains(op),
        o.content matches ContentV::Custom(HivemindContentV::Position { market, .. })
            && market == m,
        s0.market_to_positions.dom().contains(m),
        sf.utxos == s0.utxos.insert(op, o),
        sf.vectors == s0.vectors,
        sf.markets == s0.markets,
        sf.market_to_positions == s0.market_to_positions.insert(
            m,
            s0.market_to_positions[m].push(op),
        ),
    ensures
        inv_v(sf),
{
    assert(sf.market_to_positions.dom() =~= s0.market_to_positions.dom());
    assert(!s0.market_to_positions[m].contains(op));
    assert forall|mm: OutPoint| #[trigger] sf.market_to_positions.dom().contains(mm) implies {
        let l = sf.market_to_positions[mm];
        &&& l.no_duplicates()
        &&& forall|x: OutPoint| #[trigger] l.contains(x) <==> sf.utxos.dom().contains(x)
            && is_position_on(sf.utxos[x], mm)
    } by {
        let l = sf.market_to_positions[mm];
        if mm == m {
            let l0 = s0.market_to_positions[m];
            assert(l == l0.push(op));
            assert(l.no_duplicates()) by {
                assert forall|a: int, c: int| 0 <= a < c < l.len() implies l[a] != l[c] by {
                    if c < l.len() - 1 {
                        assert(l[a] == l0[a] && l[c] == l0[c]);
                    } else {
                        assert(l[c] == op);
                        assert(l[a] == l0[a]);
                        if l0[a] == op {
                            assert(l0.contains(op));
                        }
                    }
                }
            }
            assert forall|x: OutPoint| #[trigger] l.contains(x) <==> sf.utxos.dom().contains(x)
                && is_position_on(sf.utxos[x], mm) by {
                if x == op {
                    assert(l[l.len() - 1] == op);
                    assert(l.contains(op));
                    assert(is_position_on(o, m));
                } else {
                    assert(l.contains(x) <==> l0.contains(x)) by {
                        if l.contains(x) {
                            let qq = choose|qq: int| 0 <= qq < l.len() && l[qq] == x;
                            assert(qq < l.len() - 1);
                            assert(l0[qq] == x);
                        }
                        if l0.contains(x) {
                            let qq = choose|qq: int| 0 <= qq < l0.len() && l0[qq] == x;
                            assert(l[qq] == x);
                        }
                    }
                }
            }
        } else {
            assert(l == s0.market_to_positions[mm]);
            assert forall|x: OutPoint| #[trigger] l.contains(x) <==> sf.utxos.dom().contains(x)
                && is_position_on(sf.utxos[x], mm) by {
                if x == op {
                    assert(!l.contains(x));
                    assert(!is_position_on(o, mm));
                }
            }
        }
    }
}

/// Creating a fresh market record, zero vector and empty index preserves
/// the cross-table invariant.
pub proof fn lemma_insert_market_inv(
    s0: StateV,
    op: OutPoint,
    o: OutputV,
    shape: Seq<u32>,
    sz: int,
    sf: StateV,
)
    requires
        inv_v(s0),
        !s0.utxos.dom().contains(op),
        !s0.markets.dom().contains(op),
        !(o.content matches ContentV::Custom(HivemindContentV::Position { .. })),
        crate::deltas::spec_size_checked(shape) == Some(sz),
        sf.utxos == s0.utxos.insert(op, o),
        sf.vectors == s0.vectors.insert(op, crate::deltas::spec_zeros(sz)),
        sf.markets.dom() == s0.markets.dom().insert(op),
        forall|m: OutPoint| m != op && s0.markets.dom().contains(m)
            ==> #[trigger] sf.markets[m] == s0.markets[m],
        sf.markets[op].shape == shape,
        sf.markets[op].outcomes.len() == sf.markets[op].decisions.len(),
        sf.markets[op].shape.len() == sf.markets[op].decisions.len(),
        sf.market_to_positions == s0.market_to_positions.insert(op, Seq::<OutPoint>::empty()),
    ensures
        inv_v(sf),
{
    crate::deltas::lemma_size_checked_sound(shape);
    assert forall|mm: OutPoint| #[trigger] sf.markets.dom().contains(mm)
        implies sf.markets[mm].outcomes.len() == sf.markets[mm].decisions.len()
        && sf.markets[mm].shape.len() == sf.markets[mm].decisions.len() by {
        if mm != op {
            assert(s0.markets.dom().contains(mm));
            assert(sf.markets[mm] == s0.markets[mm]);
        }
    }
    assert(sf.vectors.dom() =~= s0.vectors.dom().insert(op));
    assert forall|m: OutPoint| #[trigger] sf.vectors.dom().contains(m)
        implies sf.markets.dom().contains(m) && sf.vectors[m].len()
        == crate::deltas::spec_size(sf.markets[m].shape) by {
        if m == op {
            assert(sf.vectors[op] == crate::deltas::spec_zeros(sz));
            assert(sf.vectors[op].len() == sz);
        }
    }
    assert forall|m: OutPoint| #[trigger] sf.vectors.dom().contains(m) implies forall|i: int|
        0 <= i < sf.vectors[m].len() ==> -crate::dec::MAX_DEC_MANTISSA <= (
        #[trigger] sf.vectors[m][i]) <= crate::dec::MAX_DEC_MANTISSA by {
        if m == op {
            assert forall|i: int| 0 <= i < sf.vectors[m].len()
                implies -crate::dec::MAX_DEC_MANTISSA <= (#[trigger] sf.vectors[m][i])
                <= crate::dec::MAX_DEC_MANTISSA by {
                assert(sf.vectors[op][i] == 0i128);
            }
        }
    }
    assert forall|x: OutPoint| #[trigger] sf.utxos.dom().contains(x) implies match sf.utxos[
        x
    ].content {
        ContentV::Custom(HivemindContentV::Position { market, .. }) => sf.markets.dom().contains(
            market,
        ),
        _ => true,
    } by {
        if x != op {
            assert(sf.utxos[x] == s0.utxos[x]);
        }
    }
    assert forall|mm: OutPoint| #[trigger] sf.market_to_positions.dom().contains(mm) implies {
        let l = sf.market_to_positions[mm];
        &&& l.no_duplicates()
        &&& forall|x: OutPoint| #[trigger] l.contains(x) <==> sf.utxos.dom().contains(x)
            && is_position_on(sf.utxos[x], mm)
    } by {
        let l = sf.market_to_positions[mm];
        if mm == op {
            assert(l == Seq::<OutPoint>::empty());
            assert forall|x: OutPoint| #[trigger] l.contains(x) <==> sf.utxos.dom().contains(x)
                && is_position_on(sf.utxos[x], op) by {
                assert(!l.contains(x));
                if sf.utxos.dom().contains(x) && is_position_on(sf.utxos[x], op) {
                    if x == op {
                        assert(!is_position_on(o, op));
                    } else {
                        assert(sf.utxos[x] == s0.utxos[x]);
                        assert(s0.markets.dom().contains(op));
                    }
                }
            }
        } else {
            assert(l == s0.market_to_positions[mm]);
            assert forall|x: OutPoint| #[trigger] l.contains(x) <==> sf.utxos.dom().contains(x)
                && is_position_on(sf.utxos[x], mm) by {
                if x == op {
                    assert(!l.contains(x));
                    assert(!is_position_on(o, mm));
                }
            }
        }
    }
    assert(inv_v(sf));
}

// ---------------------------------------------------------------------------
// Applying a transaction and accumulating its deltas
// ---------------------------------------------------------------------------

/// Creating a transaction's outputs in `vout` order under its id.
pub open spec fn spec_insert_outputs(
    s: StateV,
    dto: Map<OutPoint, u32>,
    txid: Hash256,
    outputs: Seq<OutputV>,
    vout: int,
) -> Result<(StateV, Map<OutPoint, u32>), Error>
    decreases outputs.len(),
{
    if outputs.len() == 0 {
        Ok((s, dto))
    } else {
        let op = OutPoint::Regular { txid, vout: vout as u32 };
        match spec_insert_output(s, dto, op, outputs[0]) {
            Err(e) => Err(e),
            Ok((s2, d2)) => spec_insert_outputs(s2, d2, txid, outputs.drop_first(), vout + 1),
        }
    }
}

/// Merging one transaction's deltas into the block's accumulated deltas,
/// market by market in the transaction's first-touch order.
pub open spec fn spec_merge_deltas(
    bd: Seq<(OutPoint, Seq<i128>)>,
    entries: Seq<(OutPoint, Seq<i128>)>,
) -> Result<Seq<(OutPoint, Seq<i128>)>, Error>
    decreases entries.len(),
{
    if entries.len() == 0 {
        Ok(bd)
    } else {
        let m = entries[0].0;
        let row = entries[0].1;
        let bd1 = if crate::table::has_key(bd, m) {
            bd
        } else {
            bd.push((m, crate::deltas::spec_zeros(row.len() as int)))
        };
        let at = crate::table::idx_of(bd1, m);
        match crate::validate::spec_add_rows(bd1[at].1, row) {
            Err(e) => Err(e),
            Ok(sum) => spec_merge_deltas(bd1.update(at, (m, sum)), entries.drop_first()),
        }
    }
}

/// Applying one transaction while connecting a block: fill it from the
/// state as it stood, spend its inputs, create its outputs, and accumulate
/// its market deltas into the block's.
pub open spec fn spec_connect_tx(
    s: StateV,
    dto: Map<OutPoint, u32>,
    bd: Seq<(OutPoint, Seq<i128>)>,
    tx: crate::content::TransactionV,
    txid: Hash256,
) -> Result<(StateV, Map<OutPoint, u32>, Seq<(OutPoint, Seq<i128>)>), Error> {
    match crate::fill::spec_fill(s.utxos, tx.inputs) {
        Err(e) => Err(e),
        Ok(spent) => {
            let s1 = spec_delete_inputs(s, tx.inputs);
            match spec_insert_outputs(s1, dto, txid, tx.outputs, 0) {
                Err(e) => Err(e),
                Ok((s2, dto2)) => match crate::deltas::spec_deltas_and_values(
                    s2.markets,
                    s2.utxos,
                    crate::content::FilledTransactionV { spent_utxos: spent, transaction: tx },
                ) {
                    Err(e) => Err(e),
                    Ok(t) => match spec_merge_deltas(bd, t.0) {
                        Err(e) => Err(e),
                        Ok(bd2) => Ok((s2, dto2, bd2)),
                    },
                },
            }
        },
    }
}

/// One market table extends another: every record of the first stands
/// unchanged in the second.
pub open spec fn markets_extends(m1: Map<OutPoint, MarketV>, m2: Map<OutPoint, MarketV>) -> bool {
    forall|m: OutPoint| #[trigger] m1.dom().contains(m) ==> m2.dom().contains(m) && m2[m]
        == m1[m]
}

/// Rows that fit their markets still fit after the market table gains
/// records.
pub proof fn lemma_rows_ok_monotone(
    entries: Seq<(OutPoint, Seq<i128>)>,
    m1: Map<OutPoint, MarketV>,
    m2: Map<OutPoint, MarketV>,
)
    requires
        crate::deltas::delta_rows_ok(entries, m1),
        markets_extends(m1, m2),
    ensures
        crate::deltas::delta_rows_ok(entries, m2),
{
    assert forall|i: int| 0 <= i < entries.len() implies {
        &&& m2.dom().contains((#[trigger] entries[i]).0)
        &&& entries[i].1.len() == crate::deltas::spec_size(m2[entries[i].0].shape)
        &&& forall|j: int| 0 <= j < entries[i].1.len()
            ==> -crate::dec::MAX_DEC_MANTISSA <= (#[trigger] entries[i].1[j])
                <= crate::dec::MAX_DEC_MANTISSA
    } by {
        assert(m1.dom().contains(entries[i].0));
    }
}

impl State {
    /// Adds one transaction's deltas into the block's accumulated deltas.
    fn merge_deltas(
        &self,
        body: &mut Table<Vec<i128>>,
        tx_deltas: &Table<Vec<i128>>,
    ) -> (r: Result<(), Error>)
        requires
            self.tables_wf(),
            crate::deltas::delta_table_ok(*old(body), self.markets@),
            crate::deltas::delta_table_ok(*tx_deltas, self.markets@),
        ensures
            match r {
                Ok(_) => spec_merge_deltas(
                    crate::deltas::delta_entries_view(old(body).entries@),
                    crate::deltas::delta_entries_view(tx_deltas.entries@),
                ) == Ok::<Seq<(OutPoint, Seq<i128>)>, Error>(
                    crate::deltas::delta_entries_view(final(body).entries@),
                ) && crate::deltas::delta_table_ok(*final(body), self.markets@),
                Err(e) => spec_merge_deltas(
                    crate::deltas::delta_entries_view(old(body).entries@),
                    crate::deltas::delta_entries_view(tx_deltas.entries@),
                ) == Err::<Seq<(OutPoint, Seq<i128>)>, Error>(e),
            },
    {
        let ghost tx_v = crate::deltas::delta_entries_view(tx_deltas.entries@);
        let ghost bd0 = crate::deltas::delta_entries_view(old(body).entries@);
        let mut i: usize = 0;
        proof {
            assert(tx_v.skip(0) =~= tx_v);
        }
        while i < tx_deltas.entries.len()
            invariant
                self.tables_wf(),
                i <= tx_v.len(),
                tx_deltas.entries@.len() == tx_v.len(),
                tx_v == crate::deltas::delta_entries_view(tx_deltas.entries@),
                bd0 == crate::deltas::delta_entries_view(old(body).entries@),
                crate::deltas::delta_table_ok(*tx_deltas, self.markets@),
                crate::deltas::delta_table_ok(*body, self.markets@),
                spec_merge_deltas(bd0, tx_v) == spec_merge_deltas(
                    crate::deltas::delta_entries_view(body.entries@),
                    tx_v.skip(i as int),
                ),
            decreases tx_v.len() - i,
        {
            proof {
                assert(tx_v.skip(i as int)[0] == tx_v[i as int]);
                assert(tx_v.skip(i as int).drop_first() =~= tx_v.skip(i + 1));
                assert(tx_v[i as int]
                    == (tx_deltas.entries@[i as int].0, tx_deltas.entries@[i as int].1@));
            }
            let market = tx_deltas.entries[i].0;
            let row = &tx_deltas.entries[i].1;
            let ghost bd_cur = crate::deltas::delta_entries_view(body.entries@);
            let at: usize = match body.find(&market) {
                Some(a) => {
                    proof {
                        crate::table::lemma_idx_of_unique(body.entries@, a as int);
                        lemma_view_key_facts(body.entries@, a as int, market);
                    }
                    a
                },
                None => {
                    let ghost pre = body.entries@;
                    let mut zeros: Vec<i128> = Vec::new();
                    let n = row.len();
                    let mut q: usize = 0;
                    while q < n
                        invariant
                            q <= n,
                            zeros@.len() == q,
                            forall|w: int| 0 <= w < q ==> (#[trigger] zeros@[w]) == 0i128,
                        decreases n - q,
                    {
                        zeros.push(0i128);
                        q = q + 1;
                    }
                    let ghost zv = zeros@;
                    let a = body.entries.len();
                    body.entries.push((market, zeros));
                    proof {
                        let s1 = body.entries@;
                        assert(zv =~= crate::deltas::spec_zeros(row@.len() as int));
                        assert(s1[a as int].0 == market && s1[a as int].1@ == zv);
                        assert forall|x: int, y: int| 0 <= x < y < s1.len() implies (
                            #[trigger] s1[x]).0 != (#[trigger] s1[y]).0 by {
                            if y < s1.len() - 1 {
                                assert(s1[x] == pre[x] && s1[y] == pre[y]);
                            } else {
                                assert(s1[y].0 == market);
                                assert(s1[x] == pre[x]);
                                if pre[x].0 == market {
                                    assert(crate::table::has_key(pre, market));
                                }
                            }
                        }
                        assert(!crate::table::has_key(bd_cur, market)) by {
                            if crate::table::has_key(bd_cur, market) {
                                let w = crate::table::idx_of(bd_cur, market);
                                assert(bd_cur[w].0 == market);
                                assert(pre[w].0 == market);
                                assert(crate::table::has_key(pre, market));
                            }
                        }
                        assert(crate::deltas::delta_entries_view(s1) =~= bd_cur.push(
                            (market, crate::deltas::spec_zeros(row@.len() as int)),
                        ));
                        lemma_view_key_facts(s1, a as int, market);
                    }
                    a
                },
            };
            let ghost bd1 = crate::deltas::delta_entries_view(body.entries@);
            let mut acc = crate::state::copy_i128s(&body.entries[at].1);
            let ghost arow = acc@;
            let ghost brow = row@;
            let mut j: usize = 0;
            while j < acc.len()
                invariant
                    j <= arow.len(),
                    arow.len() == brow.len(),
                    row@ == brow,
                    acc@.len() == arow.len(),
                    forall|w: int| 0 <= w < arow.len()
                        ==> -crate::dec::MAX_DEC_MANTISSA <= (#[trigger] arow[w])
                            <= crate::dec::MAX_DEC_MANTISSA,
                    forall|w: int| 0 <= w < brow.len()
                        ==> -crate::dec::MAX_DEC_MANTISSA <= (#[trigger] brow[w])
                            <= crate::dec::MAX_DEC_MANTISSA,
                    forall|w: int| j <= w < arow.len() ==> (#[trigger] acc@[w]) == arow[w],
                    forall|w: int| 0 <= w < j ==> (#[trigger] acc@[w]) == arow[w] + brow[w],
                    forall|w: int| 0 <= w < j
                        ==> -crate::dec::MAX_DEC_MANTISSA <= (#[trigger] arow[w]) + brow[w]
                            <= crate::dec::MAX_DEC_MANTISSA,
                    tx_v == crate::deltas::delta_entries_view(tx_deltas.entries@),
                    bd0 == crate::deltas::delta_entries_view(old(body).entries@),
                    0 <= i < tx_v.len(),
                    tx_v[i as int] == (market, brow),
                    tx_v.skip(i as int)[0] == tx_v[i as int],
                    bd1 == crate::deltas::delta_entries_view(body.entries@),
                    at < bd1.len() && bd1[at as int] == (market, arow),
                    crate::table::idx_of(bd1, market) == at as int,
                    crate::table::has_key(bd1, market),
                    crate::table::unique_keys(body.entries@),
                    crate::deltas::delta_rows_ok(bd1, self.markets@),
                    bd1 == if crate::table::has_key(bd_cur, market) {
                        bd_cur
                    } else {
                        bd_cur.push((market, crate::deltas::spec_zeros(brow.len() as int)))
                    },
                    spec_merge_deltas(bd0, tx_v) == spec_merge_deltas(
                        bd_cur,
                        tx_v.skip(i as int),
                    ),
                decreases arow.len() - j,
            {
                let x: i128 = acc[j] + row[j];
                if x < -crate::dec::MAX_DEC_MANTISSA || x > crate::dec::MAX_DEC_MANTISSA {
                    proof {
                        crate::validate::lemma_add_rows_err(arow, brow, j as int);
                    }
                    return Err(Error::U64Overflow { decimal: Dec { mantissa: x, scale: 0 } });
                }
                acc[j] = x;
                j = j + 1;
            }
            proof {
                crate::validate::lemma_add_rows_ok(arow, brow);
                let sum = crate::validate::spec_add_rows(arow, brow).unwrap();
                assert(acc@ =~= sum);
            }
            body.entries[at] = (market, acc);
            proof {
                let bd2 = crate::deltas::delta_entries_view(body.entries@);
                let sum = crate::validate::spec_add_rows(arow, brow).unwrap();
                assert(bd2 =~= bd1.update(at as int, (market, sum)));
                assert forall|x: int, y: int| 0 <= x < y < body.entries@.len() implies (
                    #[trigger] body.entries@[x]).0 != (#[trigger] body.entries@[y]).0 by {
                    assert(bd2[x].0 == bd1[x].0 && bd2[y].0 == bd1[y].0);
                }
                assert(crate::deltas::delta_rows_ok(bd2, self.markets@)) by {
                    assert forall|w: int| 0 <= w < bd2.len() implies {
                        &&& self.markets@.dom().contains((#[trigger] bd2[w]).0)
                        &&& bd2[w].1.len() == crate::deltas::spec_size(
                            self.markets@[bd2[w].0].shape,
                        )
                        &&& forall|y: int| 0 <= y < bd2[w].1.len()
                            ==> -crate::dec::MAX_DEC_MANTISSA <= (#[trigger] bd2[w].1[y])
                                <= crate::dec::MAX_DEC_MANTISSA
                    } by {
                        if w != at as int {
                            assert(bd2[w] == bd1[w]);
                        } else {
                            assert(bd2[w].1.len() == arow.len());
                        }
                    }
                }
            }
            i = i + 1;
        }
        proof {
            assert(tx_v.skip(tx_v.len() as int).len() == 0);
        }
        Ok(())
    }
}

/// Bridges an entry index fact to the view sequence.
pub proof fn lemma_view_key_facts(
    entries: Seq<(OutPoint, Vec<i128>)>,
    a: int,
    market: OutPoint,
)
    requires
        crate::table::unique_keys(entries),
        0 <= a < entries.len(),
        entries[a].0 == market,
    ensures
        crate::table::unique_keys(crate::deltas::delta_entries_view(entries)),
        crate::table::has_key(crate::deltas::delta_entries_view(entries), market),
        crate::table::idx_of(crate::deltas::delta_entries_view(entries), market) == a,
        crate::deltas::delta_entries_view(entries)[a] == (market, entries[a].1@),
{
    let v = crate::deltas::delta_entries_view(entries);
    assert forall|x: int, y: int| 0 <= x < y < v.len() implies (#[trigger] v[x]).0 != (
        #[trigger] v[y]).0 by {
        assert(v[x].0 == entries[x].0 && v[y].0 == entries[y].0);
    }
    assert(v[a].0 == market);
    crate::table::lemma_idx_of_unique(v, a);
}

/// The executable invariant follows from distinct table keys and the
/// view-level invariant.
pub proof fn lemma_inv_from_v(s: State)
    requires
        s.tables_wf(),
        inv_v(s.view_s()),
    ensures
        s.inv(),
{
    let v = s.view_s();
    assert(s.vectors_in_range()) by {
        assert forall|m: OutPoint| #[trigger] s.vectors@.dom().contains(m) implies forall|
            i: int,
        | 0 <= i < s.vectors@[m].len() ==> -crate::dec::MAX_DEC_MANTISSA <= (
            #[trigger] s.vectors@[m][i]) <= crate::dec::MAX_DEC_MANTISSA by {
            assert(v.vectors.dom().contains(m));
        }
    }
    assert(s.vectors_sized()) by {
        assert forall|m: OutPoint| #[trigger] s.vectors@.dom().contains(m)
            implies s.markets@.dom().contains(m) && s.vectors@[m].len()
            == crate::deltas::spec_size(s.markets@[m].shape) by {
            assert(v.vectors.dom().contains(m));
        }
    }
    assert(s.records_consistent()) by {
        assert forall|m: OutPoint| #[trigger] s.markets@.dom().contains(m)
            implies s.markets@[m].outcomes.len() == s.markets@[m].decisions.len()
            && s.markets@[m].shape.len() == s.markets@[m].decisions.len() by {
            assert(v.markets.dom().contains(m));
        }
    }
    assert(s.domains_agree()) by {
        assert forall|m: OutPoint| #[trigger] s.vectors@.dom().contains(m)
            <==> s.markets@.dom().contains(m) by {
            assert(v.vectors.dom().contains(m) <==> v.markets.dom().contains(m));
        }
        assert forall|m: OutPoint| #[trigger] s.market_to_positions@.dom().contains(m)
            <==> s.markets@.dom().contains(m) by {
            assert(v.market_to_positions.dom().contains(m) <==> v.markets.dom().contains(m));
        }
    }
    assert(s.positions_reference_markets()) by {
        assert forall|o: OutPoint| #[trigger] s.utxos@.dom().contains(o) implies match s.utxos@[
            o
        ].content {
            ContentV::Custom(HivemindContentV::Position { market, .. }) => s.markets@.dom()
                .contains(market),
            _ => true,
        } by {
            assert(v.utxos.dom().contains(o));
        }
    }
    assert(s.index_exact()) by {
        assert forall|m: OutPoint| #[trigger] s.market_to_positions@.dom().contains(m) implies {
            let l = s.market_to_positions@[m];
            &&& l.no_duplicates()
            &&& forall|o: OutPoint| #[trigger] l.contains(o) <==> s.utxos@.dom().contains(o)
                && is_position_on(s.utxos@[o], m)
        } by {
            assert(v.market_to_positions.dom().contains(m));
        }
    }
}

/// Applying the block's accumulated deltas onto the stored market-state
/// vectors, market by market.
pub open spec fn spec_apply_body_deltas(
    s: StateV,
    entries: Seq<(OutPoint, Seq<i128>)>,
) -> Result<StateV, Error>
    decreases entries.len(),
{
    if entries.len() == 0 {
        Ok(s)
    } else {
        let m = entries[0].0;
        let row = entries[0].1;
        if !s.vectors.dom().contains(m) {
            Err(Error::NoUtxo { outpoint: m })
        } else {
            match crate::validate::spec_add_rows(s.vectors[m], row) {
                Err(e) => Err(e),
                Ok(nv) => spec_apply_body_deltas(
                    StateV {
                        utxos: s.utxos,
                        vectors: s.vectors.insert(m, nv),
                        markets: s.markets,
                        market_to_positions: s.market_to_positions,
                    },
                    entries.drop_first(),
                ),
            }
        }
    }
}

impl State {
    /// Applies one transaction: fills it from the state as it stands,
    /// spends its inputs, creates its outputs under its id, and folds its
    /// market deltas into the block's accumulator.
    pub fn connect_transaction(
        &mut self,
        dto: &mut Table<u32>,
        body_deltas: &mut Table<Vec<i128>>,
        transaction: &crate::content::Transaction,
        txid: Hash256,
    ) -> (r: Result<(), Error>)
        requires
            old(self).inv(),
            old(dto).wf(),
            crate::deltas::delta_table_ok(*old(body_deltas), old(self).markets@),
            transaction@.outputs.len() <= 0xffff_ffff,
        ensures
            match r {
                Ok(_) => spec_connect_tx(
                    old(self).view_s(),
                    old(dto)@,
                    crate::deltas::delta_entries_view(old(body_deltas).entries@),
                    transaction@,
                    txid,
                ) == Ok::<(StateV, Map<OutPoint, u32>, Seq<(OutPoint, Seq<i128>)>), Error>(
                    (
                        final(self).view_s(),
                        final(dto)@,
                        crate::deltas::delta_entries_view(final(body_deltas).entries@),
                    ),
                ) && final(self).inv() && final(dto).wf() && crate::deltas::delta_table_ok(
                    *final(body_deltas),
                    final(self).markets@,
                ) && markets_extends(old(self).markets@, final(self).markets@),
                Err(e) => spec_connect_tx(
                    old(self).view_s(),
                    old(dto)@,
                    crate::deltas::delta_entries_view(old(body_deltas).entries@),
                    transaction@,
                    txid,
                ) == Err::<(StateV, Map<OutPoint, u32>, Seq<(OutPoint, Seq<i128>)>), Error>(e),
            },
    {
        let ghost s0 = self.view_s();
        let ghost bd0 = crate::deltas::delta_entries_view(body_deltas.entries@);
        let ghost dto0 = dto@;
        let filled = match self.fill_transaction(transaction) {
            Ok(f) => f,
            Err(e) => {
                return Err(e);
            },
        };
        let ghost inputs_v = transaction@.inputs;
        let mut i: usize = 0;
        proof {
            assert(inputs_v.skip(0) =~= inputs_v);
        }
        while i < transaction.inputs.len()
            invariant
                self.inv(),
                i <= inputs_v.len(),
                transaction.inputs@.len() == inputs_v.len(),
                inputs_v == transaction@.inputs,
                spec_delete_inputs(s0, inputs_v) == spec_delete_inputs(
                    self.view_s(),
                    inputs_v.skip(i as int),
                ),
                self.markets@ == s0.markets,
                self.vectors@ == s0.vectors,
            decreases inputs_v.len() - i,
        {
            proof {
                assert(inputs_v.skip(i as int)[0] == inputs_v[i as int]);
                assert(inputs_v.skip(i as int).drop_first() =~= inputs_v.skip(i + 1));
            }
            self.connect_delete_input(&transaction.inputs[i]);
            i = i + 1;
        }
        proof {
            assert(inputs_v.skip(inputs_v.len() as int).len() == 0);
        }
        let ghost s1 = self.view_s();
        let ghost outputs_v = transaction@.outputs;
        let mut v: usize = 0;
        proof {
            assert(outputs_v.skip(0) =~= outputs_v);
        }
        while v < transaction.outputs.len()
            invariant
                self.inv(),
                dto.wf(),
                v <= outputs_v.len(),
                transaction.outputs@.len() == outputs_v.len(),
                outputs_v == transaction@.outputs,
                outputs_v.len() <= 0xffff_ffff,
                s0 == old(self).view_s(),
                bd0 == crate::deltas::delta_entries_view(old(body_deltas).entries@),
                dto0 == old(dto)@,
                crate::fill::spec_fill(s0.utxos, transaction@.inputs) == Ok::<
                    Seq<OutputV>,
                    Error,
                >(filled@.spent_utxos),
                filled@.transaction == transaction@,
                s1 == spec_delete_inputs(s0, transaction@.inputs),
                spec_insert_outputs(s1, dto0, txid, outputs_v, 0) == spec_insert_outputs(
                    self.view_s(),
                    dto@,
                    txid,
                    outputs_v.skip(v as int),
                    v as int,
                ),
                body_deltas@ == old(body_deltas)@,
                body_deltas.entries@ == old(body_deltas).entries@,
                body_deltas.wf(),
                crate::deltas::delta_table_ok(*body_deltas, self.markets@),
                markets_extends(s0.markets, self.markets@),
            decreases outputs_v.len() - v,
        {
            proof {
                assert(outputs_v.skip(v as int)[0] == transaction.outputs@[v as int]@);
                assert(outputs_v.skip(v as int).drop_first() =~= outputs_v.skip(v as int + 1));
            }
            let outpoint = OutPoint::Regular { txid, vout: v as u32 };
            let ghost pre = self.view_s();
            match self.connect_insert_output(dto, outpoint, &transaction.outputs[v]) {
                Ok(_) => {},
                Err(e) => {
                    return Err(e);
                },
            }
            proof {
                assert(markets_extends(pre.markets, self.markets@)) by {
                    let step = spec_insert_output(
                        pre,
                        dto0,
                        outpoint,
                        transaction.outputs@[v as int]@,
                    );
                    assert forall|m: OutPoint| #[trigger] pre.markets.dom().contains(m)
                        implies self.markets@.dom().contains(m) && self.markets@[m]
                        == pre.markets[m] by {
                        assert(m != outpoint);
                    }
                }
                lemma_rows_ok_monotone(
                    crate::deltas::delta_entries_view(body_deltas.entries@),
                    pre.markets,
                    self.markets@,
                );
            }
            v = v + 1;
        }
        proof {
            assert(outputs_v.skip(outputs_v.len() as int).len() == 0);
        }
        let t = match self.get_deltas_and_values(&filled) {
            Ok(t) => t,
            Err(e) => {
                return Err(e);
            },
        };
        proof {
            assert(filled@ == crate::content::FilledTransactionV {
                spent_utxos: filled@.spent_utxos,
                transaction: transaction@,
            });
        }
        match self.merge_deltas(body_deltas, &t.0) {
            Ok(_) => {},
            Err(e) => {
                return Err(e);
            },
        }
        Ok(())
    }

    /// Applies the block's accumulated deltas onto the stored vectors.
    pub fn apply_body_deltas(&mut self, deltas: &Table<Vec<i128>>) -> (r: Result<(), Error>)
        requires
            old(self).inv(),
            crate::deltas::delta_table_ok(*deltas, old(self).markets@),
        ensures
            match r {
                Ok(_) => spec_apply_body_deltas(
                    old(self).view_s(),
                    crate::deltas::delta_entries_view(deltas.entries@),
                ) == Ok::<StateV, Error>(final(self).view_s()) && final(self).inv(),
                Err(e) => spec_apply_body_deltas(
                    old(self).view_s(),
                    crate::deltas::delta_entries_view(deltas.entries@),
                ) == Err::<StateV, Error>(e),
            },
    {
        let ghost s0 = self.view_s();
        let ghost dv = crate::deltas::delta_entries_view(deltas.entries@);
        let mut i: usize = 0;
        proof {
            assert(dv.skip(0) =~= dv);
        }
        while i < deltas.entries.len()
            invariant
                self.inv(),
                i <= dv.len(),
                deltas.entries@.len() == dv.len(),
                dv == crate::deltas::delta_entries_view(deltas.entries@),
                s0 == old(self).view_s(),
                self.markets@ == s0.markets,
                crate::deltas::delta_table_ok(*deltas, self.markets@),
                spec_apply_body_deltas(s0, dv) == spec_apply_body_deltas(
                    self.view_s(),
                    dv.skip(i as int),
                ),
            decreases dv.len() - i,
        {
            proof {
                assert(dv.skip(i as int)[0] == dv[i as int]);
                assert(dv.skip(i as int).drop_first() =~= dv.skip(i + 1));
                assert(dv[i as int] == (deltas.entries@[i as int].0,
                    deltas.entries@[i as int].1@));
            }
            let market = deltas.entries[i].0;
            let row = &deltas.entries[i].1;
            let ghost pre = self.view_s();
            let mut acc: Vec<i128>;
            match self.vectors.get(&market) {
                Some(sv) => {
                    acc = crate::state::copy_i128s(sv);
                },
                None => {
                    return Err(Error::NoUtxo { outpoint: market });
                },
            }
            let ghost arow = acc@;
            let ghost brow = row@;
            proof {
                assert(arow.len() == brow.len()) by {
                    assert(pre.vectors[market].len() == crate::deltas::spec_size(
                        pre.markets[market].shape,
                    ));
                }
            }
            let mut j: usize = 0;
            while j < acc.len()
                invariant
                    j <= arow.len(),
                    arow.len() == brow.len(),
                    row@ == brow,
                    acc@.len() == arow.len(),
                    forall|w: int| 0 <= w < arow.len()
                        ==> -crate::dec::MAX_DEC_MANTISSA <= (#[trigger] arow[w])
                            <= crate::dec::MAX_DEC_MANTISSA,
                    forall|w: int| 0 <= w < brow.len()
                        ==> -crate::dec::MAX_DEC_MANTISSA <= (#[trigger] brow[w])
                            <= crate::dec::MAX_DEC_MANTISSA,
                    forall|w: int| j <= w < arow.len() ==> (#[trigger] acc@[w]) == arow[w],
                    forall|w: int| 0 <= w < j ==> (#[trigger] acc@[w]) == arow[w] + brow[w],
                    forall|w: int| 0 <= w < j
                        ==> -crate::dec::MAX_DEC_MANTISSA <= (#[trigger] arow[w]) + brow[w]
                            <= crate::dec::MAX_DEC_MANTISSA,
                    s0 == old(self).view_s(),
                    dv == crate::deltas::delta_entries_view(deltas.entries@),
                    0 <= i < dv.len(),
                    dv[i as int] == (market, brow),
                    dv.skip(i as int)[0] == dv[i as int],
                    pre == self.view_s(),
                    pre.vectors.dom().contains(market),
                    pre.vectors[market] == arow,
                    spec_apply_body_deltas(s0, dv) == spec_apply_body_deltas(
                        pre,
                        dv.skip(i as int),
                    ),
                decreases arow.len() - j,
            {
                let x: i128 = acc[j] + row[j];
                if x < -crate::dec::MAX_DEC_MANTISSA || x > crate::dec::MAX_DEC_MANTISSA {
                    proof {
                        crate::validate::lemma_add_rows_err(arow, brow, j as int);
                    }
                    return Err(Error::U64Overflow { decimal: Dec { mantissa: x, scale: 0 } });
                }
                acc[j] = x;
                j = j + 1;
            }
            proof {
                crate::validate::lemma_add_rows_ok(arow, brow);
                let sum = crate::validate::spec_add_rows(arow, brow).unwrap();
                assert(acc@ =~= sum);
            }
            self.vectors.put(market, acc);
            proof {
                let sum = crate::validate::spec_add_rows(arow, brow).unwrap();
                assert(self.view_s() == StateV {
                    utxos: pre.utxos,
                    vectors: pre.vectors.insert(market, sum),
                    markets: pre.markets,
                    market_to_positions: pre.market_to_positions,
                });
                assert(self.inv()) by {
                    assert(self.tables_wf());
                    assert(self.vectors@.dom() =~= pre.vectors.dom());
                    assert(self.vectors_in_range()) by {
                        assert forall|m: OutPoint| #[trigger] self.vectors@.dom().contains(m)
                            implies forall|w: int| 0 <= w < self.vectors@[m].len()
                            ==> -crate::dec::MAX_DEC_MANTISSA <= (#[trigger] self.vectors@[m][w])
                                <= crate::dec::MAX_DEC_MANTISSA by {
                            if m != market {
                                assert(self.vectors@[m] == pre.vectors[m]);
                            }
                        }
                    }
                    assert(self.vectors_sized()) by {
                        assert forall|m: OutPoint| #[trigger] self.vectors@.dom().contains(m)
                            implies self.markets@.dom().contains(m) && self.vectors@[m].len()
                            == crate::deltas::spec_size(self.markets@[m].shape) by {
                            if m != market {
                                assert(self.vectors@[m] == pre.vectors[m]);
                            } else {
                                assert(self.vectors@[m].len() == arow.len());
                            }
                        }
                    }
                    assert(self.domains_agree()) by {
                        assert forall|m: OutPoint| #[trigger] self.vectors@.dom().contains(m)
                            <==> self.markets@.dom().contains(m) by {
                            assert(pre.vectors.dom().contains(m)
                                <==> pre.markets.dom().contains(m));
                        }
                    }
                }
            }
            i = i + 1;
        }
        proof {
            assert(dv.skip(dv.len() as int).len() == 0);
        }
        Ok(())
    }
}

// ---------------------------------------------------------------------------
// Market resolution
// ---------------------------------------------------------------------------

/// The outcome of each referenced decision after this block: an outcome
/// this block decided overrides, an outcome recorded by an earlier block
/// persists, and the rest stay open.
pub open spec fn spec_outcomes(
    stored: Seq<Option<u32>>,
    dto: Map<OutPoint, u32>,
    decisions: Seq<OutPoint>,
) -> Seq<Option<u32>> {
    Seq::new(
        decisions.len(),
        |i: int| if dto.dom().contains(decisions[i]) {
            Some(dto[decisions[i]])
        } else {
            stored[i]
        },
    )
}

/// The decided outcome tuple of a market all of whose decisions have been
/// decided, this block's resolutions taking precedence over the recorded
/// ones.
pub open spec fn spec_final_outcomes(
    stored: Seq<Option<u32>>,
    dto: Map<OutPoint, u32>,
    decisions: Seq<OutPoint>,
) -> Seq<u32> {
    Seq::new(
        decisions.len(),
        |i: int| if dto.dom().contains(decisions[i]) {
            dto[decisions[i]]
        } else {
            match stored[i] {
                Some(v) => v,
                None => 0u32,
            }
        },
    )
}

/// Whether every decision of market `m` has been decided, by this block or
/// by one recorded earlier.
pub open spec fn market_resolved(s: StateV, dto: Map<OutPoint, u32>, m: OutPoint) -> bool {
    s.markets.dom().contains(m) && forall|i: int|
        0 <= i < s.markets[m].decisions.len() ==> dto.dom().contains(
            #[trigger] s.markets[m].decisions[i],
        ) || s.markets[m].outcomes[i] is Some
}

/// A winning position pays out as plain money of its face value.
pub open spec fn spec_rewrite(o: OutputV) -> OutputV {
    match o.content {
        ContentV::Custom(HivemindContentV::Position { value, .. }) => OutputV {
            address: o.address,
            content: ContentV::Value(value),
        },
        _ => o,
    }
}

/// Whether UTXO `o` holds the winning coordinate `finals`.
pub open spec fn pos_wins(s: StateV, finals: Seq<u32>, o: OutPoint) -> bool {
    match s.utxos[o].content {
        ContentV::Custom(HivemindContentV::Position { share, .. }) => share == finals,
        _ => false,
    }
}

/// The state after resolving market `m` with winning coordinate `finals`:
/// its winning positions turn into plain money, its other positions
/// disappear, and the market's record, state vector and positions index
/// are all removed.
pub open spec fn spec_resolve_market_state(s: StateV, m: OutPoint, finals: Seq<u32>) -> StateV {
    StateV {
        utxos: Map::new(
            |o: OutPoint| s.utxos.dom().contains(o) && !(is_position_on(s.utxos[o], m)
                && !pos_wins(s, finals, o)),
            |o: OutPoint| if is_position_on(s.utxos[o], m) {
                spec_rewrite(s.utxos[o])
            } else {
                s.utxos[o]
            },
        ),
        vectors: s.vectors.remove(m),
        markets: s.markets.remove(m),
        market_to_positions: s.market_to_positions.remove(m),
    }
}

/// Compares two coordinate vectors.
pub fn u32_vec_eq(a: &Vec<u32>, b: &Vec<u32>) -> (r: bool)
    ensures
        r == (a@ == b@),
{
    if a.len() != b.len() {
        proof {
            assert(a@ != b@);
        }
        return false;
    }
    let mut i: usize = 0;
    while i < a.len()
        invariant
            i <= a@.len(),
            a@.len() == b@.len(),
            forall|j: int| 0 <= j < i ==> (#[trigger] a@[j]) == b@[j],
        decreases a@.len() - i,
    {
        if a[i] != b[i] {
            proof {
                assert(a@[i as int] != b@[i as int]);
            }
            return false;
        }
        i = i + 1;
    }
    proof {
        assert(a@ =~= b@);
    }
    true
}


/// The UTXO set after the first `p` listed positions of a resolving market
/// have been paid out or pruned.
pub open spec fn spec_positions_upto(
    utxos0: Map<OutPoint, OutputV>,
    lv: Seq<OutPoint>,
    fv: Seq<u32>,
    wins: spec_fn(OutPoint) -> bool,
    p: int,
) -> Map<OutPoint, OutputV> {
    Map::new(
        |o: OutPoint| utxos0.dom().contains(o) && !(lv.subrange(0, p).contains(o) && !wins(o)),
        |o: OutPoint| if lv.subrange(0, p).contains(o) {
            spec_rewrite(utxos0[o])
        } else {
            utxos0[o]
        },
    )
}

impl State {
    /// Resolves one market against its winning coordinate: pays the winning
    /// positions out as plain money, prunes the others, and removes the
    /// market's record, vector, and index.
    pub fn resolve_one_market(&mut self, market: &OutPoint, finals: &Vec<u32>) -> (r: Result<
        (),
        Error,
    >)
        requires
            old(self).inv(),
            old(self).markets@.dom().contains(*market),
        ensures
            r is Ok,
            final(self).inv(),
            final(self).view_s() == spec_resolve_market_state(
                old(self).view_s(),
                *market,
                finals@,
            ),
    {
        let ghost s0 = self.view_s();
        let ghost fv = finals@;
        let mut list: Vec<OutPoint>;
        match self.market_to_positions.get(market) {
            Some(l) => {
                list = crate::content::copy_outpoints(l);
            },
            None => {
                proof {
                    assert(old(self).market_to_positions@.dom().contains(*market));
                    assert(false);
                }
                return Err(Error::NoUtxo { outpoint: *market });
            },
        }
        let ghost lv = list@;
        proof {
            assert(lv.no_duplicates());
            assert forall|q: int| 0 <= q < lv.len() implies s0.utxos.dom().contains(
                #[trigger] lv[q],
            ) && is_position_on(s0.utxos[lv[q]], *market) by {
                assert(lv.contains(lv[q]));
            }
        }
        let mut p: usize = 0;
        proof {
            let w = |o: OutPoint| pos_wins(s0, fv, o);
            assert(lv.subrange(0, 0) =~= Seq::<OutPoint>::empty());
            assert(self.utxos@ =~= spec_positions_upto(s0.utxos, lv, fv, w, 0));
        }
        while p < list.len()
            invariant
                p <= lv.len(),
                list@ == lv,
                lv.no_duplicates(),
                finals@ == fv,
                s0 == old(self).view_s(),
                s0.markets.dom().contains(*market),
                s0.market_to_positions.dom().contains(*market),
                s0.market_to_positions[*market] == lv,
                forall|q: int| 0 <= q < lv.len() ==> s0.utxos.dom().contains(#[trigger] lv[q])
                    && is_position_on(s0.utxos[lv[q]], *market),
                forall|o: OutPoint| #[trigger] lv.contains(o) <==> s0.utxos.dom().contains(o)
                    && is_position_on(s0.utxos[o], *market),
                self.tables_wf(),
                self.vectors@ == s0.vectors,
                self.markets@ == s0.markets,
                self.market_to_positions@ == s0.market_to_positions,
                self.utxos@ == spec_positions_upto(
                    s0.utxos,
                    lv,
                    fv,
                    |o: OutPoint| pos_wins(s0, fv, o),
                    p as int,
                ),
            decreases lv.len() - p,
        {
            let o = list[p];
            proof {
                assert(!lv.subrange(0, p as int).contains(o)) by {
                    if lv.subrange(0, p as int).contains(o) {
                        let q = choose|q: int|
                            0 <= q < p && lv.subrange(0, p as int)[q] == o;
                        assert(lv[q] == o && lv[p as int] == o);
                    }
                }
                assert(lv.contains(o)) by {
                    assert(lv[p as int] == o);
                }
                assert(self.utxos@.dom().contains(o));
                assert(self.utxos@[o] == s0.utxos[o]);
            }
            let (share, value, address) = match self.utxos.get(&o) {
                Some(u) => match &u.content {
                    Content::Custom(HivemindContent::Position { share, value, .. }) => (
                        crate::content::copy_u32s(share),
                        *value,
                        u.address,
                    ),
                    _ => {
                        proof {
                            assert(false);
                        }
                        return Err(Error::InvalidOutPoint { outpoint: o });
                    },
                },
                None => {
                    proof {
                        assert(false);
                    }
                    return Err(Error::NoUtxo { outpoint: *market });
                },
            };
            if u32_vec_eq(&share, finals) {
                let rewritten = Output { address, content: Content::Value(value) };
                proof {
                    assert(pos_wins(s0, fv, o));
                    assert(rewritten@ == spec_rewrite(s0.utxos[o]));
                }
                self.utxos.put(o, rewritten);
            } else {
                proof {
                    assert(!pos_wins(s0, fv, o));
                }
                self.utxos.delete(&o);
            }
            proof {
                let w = |o: OutPoint| pos_wins(s0, fv, o);
                let prev = spec_positions_upto(s0.utxos, lv, fv, w, p as int);
                let next = spec_positions_upto(s0.utxos, lv, fv, w, p as int + 1);
                assert forall|x: OutPoint| #[trigger] lv.subrange(0, p as int + 1).contains(x)
                    <==> lv.subrange(0, p as int).contains(x) || x == o by {
                    assert(lv.subrange(0, p as int + 1) =~= lv.subrange(0, p as int).push(o));
                    if lv.subrange(0, p as int + 1).contains(x) {
                        let q = choose|q: int|
                            0 <= q < p + 1 && (#[trigger] lv.subrange(0, p as int + 1)[q])
                                == x;
                        if q < p {
                            assert(lv.subrange(0, p as int)[q] == x);
                        }
                    }
                    if lv.subrange(0, p as int).contains(x) {
                        let q = choose|q: int|
                            0 <= q < p && lv.subrange(0, p as int)[q] == x;
                        assert(lv.subrange(0, p as int + 1)[q] == x);
                    }
                    if x == o {
                        assert(lv.subrange(0, p as int + 1)[p as int] == x);
                    }
                }
                if pos_wins(s0, fv, o) {
                    assert(self.utxos@ =~= next) by {
                        assert(self.utxos@ == prev.insert(o, spec_rewrite(s0.utxos[o])));
                    }
                } else {
                    assert(self.utxos@ =~= next) by {
                        assert(self.utxos@ == prev.remove(o));
                    }
                }
            }
            p = p + 1;
        }
        let m = *market;
        self.markets.delete(&m);
        self.vectors.delete(&m);
        self.market_to_positions.delete(&m);
        proof {
            let sf = self.view_s();
            let target = spec_resolve_market_state(s0, m, fv);
            let w = |o: OutPoint| pos_wins(s0, fv, o);
            assert(lv.subrange(0, lv.len() as int) =~= lv);
            assert(sf.utxos == spec_positions_upto(s0.utxos, lv, fv, w, lv.len() as int));
            assert forall|o: OutPoint| s0.utxos.dom().contains(o) implies (#[trigger] lv.contains(
                o,
            ) <==> is_position_on(s0.utxos[o], m)) by {}
            assert(sf.utxos =~= target.utxos);
            assert(sf.vectors =~= target.vectors);
            assert(sf.markets =~= target.markets);
            assert(sf.market_to_positions =~= target.market_to_positions);
            assert(sf == target);
            lemma_resolve_market_inv(s0, m, fv, sf);
            lemma_inv_from_v(*self);
        }
        Ok(())
    }
}

/// Resolving one market preserves the cross-table invariant.
pub proof fn lemma_resolve_market_inv(s0: StateV, m: OutPoint, finals: Seq<u32>, sf: StateV)
    requires
        inv_v(s0),
        s0.markets.dom().contains(m),
        sf == spec_resolve_market_state(s0, m, finals),
    ensures
        inv_v(sf),
{
    assert(sf.vectors.dom() =~= s0.vectors.dom().remove(m));
    assert(sf.markets.dom() =~= s0.markets.dom().remove(m));
    assert(sf.market_to_positions.dom() =~= s0.market_to_positions.dom().remove(m));
    assert forall|o: OutPoint| #[trigger] sf.utxos.dom().contains(o) implies match sf.utxos[
        o
    ].content {
        ContentV::Custom(HivemindContentV::Position { market, .. }) => sf.markets.dom()
            .contains(market),
        _ => true,
    } by {
        assert(s0.utxos.dom().contains(o));
        if is_position_on(s0.utxos[o], m) {
            assert(sf.utxos[o] == spec_rewrite(s0.utxos[o]));
        } else {
            assert(sf.utxos[o] == s0.utxos[o]);
            match s0.utxos[o].content {
                ContentV::Custom(HivemindContentV::Position { market, .. }) => {
                    assert(market != m);
                },
                _ => {},
            }
        }
    }
    assert forall|mm: OutPoint| #[trigger] sf.market_to_positions.dom().contains(mm) implies {
        let l = sf.market_to_positions[mm];
        &&& l.no_duplicates()
        &&& forall|o: OutPoint| #[trigger] l.contains(o) <==> sf.utxos.dom().contains(o)
            && is_position_on(sf.utxos[o], mm)
    } by {
        let l = sf.market_to_positions[mm];
        assert(mm != m);
        assert(l == s0.market_to_positions[mm]);
        assert forall|o: OutPoint| #[trigger] l.contains(o) <==> sf.utxos.dom().contains(o)
            && is_position_on(sf.utxos[o], mm) by {
            if l.contains(o) {
                assert(s0.utxos.dom().contains(o) && is_position_on(s0.utxos[o], mm));
                assert(!is_position_on(s0.utxos[o], m));
                assert(sf.utxos.dom().contains(o));
                assert(sf.utxos[o] == s0.utxos[o]);
            }
            if sf.utxos.dom().contains(o) && is_position_on(sf.utxos[o], mm) {
                assert(s0.utxos.dom().contains(o));
                if is_position_on(s0.utxos[o], m) {
                    assert(sf.utxos[o] == spec_rewrite(s0.utxos[o]));
                    assert(!is_position_on(sf.utxos[o], mm));
                } else {
                    assert(sf.utxos[o] == s0.utxos[o]);
                }
            }
        }
    }
}

/// Whether UTXO `o` is a position whose market the resolution pass has
/// already handled.
pub open spec fn position_market_done(s: StateV, o: OutPoint, done: Set<OutPoint>) -> bool {
    match s.utxos[o].content {
        ContentV::Custom(HivemindContentV::Position { market, .. }) => done.contains(market),
        _ => false,
    }
}

/// A position on a fully resolved market holding the winning coordinate.
pub open spec fn winning_position(s: StateV, dto: Map<OutPoint, u32>, o: OutPoint) -> bool {
    s.utxos.dom().contains(o) && match s.utxos[o].content {
        ContentV::Custom(HivemindContentV::Position { market, share, .. }) => market_resolved(
            s,
            dto,
            market,
        ) && share == spec_final_outcomes(
            s.markets[market].outcomes,
            dto,
            s.markets[market].decisions,
        ),
        _ => false,
    }
}

/// A position on a fully resolved market holding any other coordinate.
pub open spec fn losing_position(s: StateV, dto: Map<OutPoint, u32>, o: OutPoint) -> bool {
    s.utxos.dom().contains(o) && match s.utxos[o].content {
        ContentV::Custom(HivemindContentV::Position { market, share, .. }) => market_resolved(
            s,
            dto,
            market,
        ) && share != spec_final_outcomes(
            s.markets[market].outcomes,
            dto,
            s.markets[market].decisions,
        ),
        _ => false,
    }
}

/// The updated record of a market: its outcomes merged with what this
/// block decided.
pub open spec fn spec_updated_record(s: StateV, dto: Map<OutPoint, u32>, m: OutPoint) -> MarketV {
    MarketV {
        b: s.markets[m].b,
        shape: s.markets[m].shape,
        decisions: s.markets[m].decisions,
        outcomes: spec_outcomes(s.markets[m].outcomes, dto, s.markets[m].decisions),
    }
}

/// The state after the resolution pass has handled the markets in `done`:
/// handled resolved markets are gone with their winning positions paid out
/// and their other positions pruned; handled open markets carry their
/// partially decided outcomes; everything else stands as it was.
pub open spec fn spec_resolve_set(s: StateV, dto: Map<OutPoint, u32>, done: Set<OutPoint>) -> StateV {
    StateV {
        utxos: Map::new(
            |o: OutPoint| s.utxos.dom().contains(o) && !(losing_position(s, dto, o)
                && position_market_done(s, o, done)),
            |o: OutPoint| if winning_position(s, dto, o) && position_market_done(s, o, done) {
                spec_rewrite(s.utxos[o])
            } else {
                s.utxos[o]
            },
        ),
        vectors: Map::new(
            |m: OutPoint| s.vectors.dom().contains(m) && !(market_resolved(s, dto, m)
                && done.contains(m)),
            |m: OutPoint| s.vectors[m],
        ),
        markets: Map::new(
            |m: OutPoint| s.markets.dom().contains(m) && !(market_resolved(s, dto, m)
                && done.contains(m)),
            |m: OutPoint| if done.contains(m) {
                spec_updated_record(s, dto, m)
            } else {
                s.markets[m]
            },
        ),
        market_to_positions: Map::new(
            |m: OutPoint| s.market_to_positions.dom().contains(m) && !(market_resolved(
                s,
                dto,
                m,
            ) && done.contains(m)),
            |m: OutPoint| s.market_to_positions[m],
        ),
    }
}

/// The state after resolving every market whose decisions are all decided
/// — by this block or recorded earlier — and merging this block's decided
/// outcomes into the rest.
pub open spec fn spec_resolve(s: StateV, dto: Map<OutPoint, u32>) -> StateV {
    spec_resolve_set(s, dto, s.markets.dom())
}

/// Recording partial outcomes on an unresolved market moves the resolution
/// pass one market forward.
pub proof fn lemma_resolve_step_open(
    s0: StateV,
    dto: Map<OutPoint, u32>,
    done: Set<OutPoint>,
    m: OutPoint,
    cur: StateV,
    sf: StateV,
)
    requires
        cur == spec_resolve_set(s0, dto, done),
        s0.markets.dom().contains(m),
        !done.contains(m),
        !market_resolved(s0, dto, m),
        sf == (StateV {
            utxos: cur.utxos,
            vectors: cur.vectors,
            markets: cur.markets.insert(m, spec_updated_record(s0, dto, m)),
            market_to_positions: cur.market_to_positions,
        }),
    ensures
        sf == spec_resolve_set(s0, dto, done.insert(m)),
{
    let target = spec_resolve_set(s0, dto, done.insert(m));
    assert(sf.utxos =~= target.utxos) by {
        assert forall|o: OutPoint| #[trigger] s0.utxos.dom().contains(o) implies (
            position_market_done(s0, o, done.insert(m)) == position_market_done(s0, o, done)
            || !losing_position(s0, dto, o) && !winning_position(s0, dto, o)) by {
            match s0.utxos[o].content {
                ContentV::Custom(HivemindContentV::Position { market, .. }) => {
                    if market == m {
                        assert(!market_resolved(s0, dto, market));
                    }
                },
                _ => {},
            }
        }
    }
    assert(sf.vectors =~= target.vectors);
    assert(sf.market_to_positions =~= target.market_to_positions);
    assert(sf.markets =~= target.markets);
    assert(sf == target);
}

/// Resolving a fully decided market moves the resolution pass one market
/// forward.
pub proof fn lemma_resolve_step_resolved(
    s0: StateV,
    dto: Map<OutPoint, u32>,
    done: Set<OutPoint>,
    m: OutPoint,
    cur: StateV,
    sf: StateV,
)
    requires
        cur == spec_resolve_set(s0, dto, done),
        s0.markets.dom().contains(m),
        !done.contains(m),
        market_resolved(s0, dto, m),
        sf == spec_resolve_market_state(
            cur,
            m,
            spec_final_outcomes(s0.markets[m].outcomes, dto, s0.markets[m].decisions),
        ),
    ensures
        sf == spec_resolve_set(s0, dto, done.insert(m)),
{
    let fv = spec_final_outcomes(s0.markets[m].outcomes, dto, s0.markets[m].decisions);
    let target = spec_resolve_set(s0, dto, done.insert(m));
    assert(sf.utxos =~= target.utxos) by {
        assert forall|o: OutPoint| true implies (sf.utxos.dom().contains(o)
            == target.utxos.dom().contains(o)) && (target.utxos.dom().contains(o)
            ==> #[trigger] sf.utxos[o] == target.utxos[o]) by {
            if s0.utxos.dom().contains(o) {
                match s0.utxos[o].content {
                    ContentV::Custom(HivemindContentV::Position { market, share, .. }) => {
                        if market == m {
                            assert(!position_market_done(s0, o, done));
                            assert(cur.utxos.dom().contains(o));
                            assert(cur.utxos[o] == s0.utxos[o]);
                            assert(is_position_on(cur.utxos[o], m));
                            assert(pos_wins(cur, fv, o) == (share == fv));
                        } else {
                            assert(position_market_done(s0, o, done.insert(m))
                                == position_market_done(s0, o, done));
                            if cur.utxos.dom().contains(o) {
                                assert(!is_position_on(cur.utxos[o], m)) by {
                                    if winning_position(s0, dto, o) && position_market_done(
                                        s0,
                                        o,
                                        done,
                                    ) {
                                        assert(cur.utxos[o] == spec_rewrite(s0.utxos[o]));
                                    } else {
                                        assert(cur.utxos[o] == s0.utxos[o]);
                                    }
                                }
                            }
                        }
                    },
                    _ => {
                        if cur.utxos.dom().contains(o) {
                            assert(cur.utxos[o] == s0.utxos[o]);
                            assert(!is_position_on(cur.utxos[o], m));
                        }
                    },
                }
            } else {
                assert(!cur.utxos.dom().contains(o));
            }
        }
    }
    assert(sf.vectors =~= target.vectors);
    assert(sf.market_to_positions =~= target.market_to_positions);
    assert(sf.markets =~= target.markets);
    assert(sf == target);
}

/// Updating a market record without changing its shape preserves the
/// cross-table invariant.
pub proof fn lemma_update_record_inv(cur: StateV, m: OutPoint, rec: MarketV, sf: StateV)
    requires
        inv_v(cur),
        cur.markets.dom().contains(m),
        rec.shape == cur.markets[m].shape,
        rec.decisions == cur.markets[m].decisions,
        rec.outcomes.len() == rec.decisions.len(),
        sf == (StateV {
            utxos: cur.utxos,
            vectors: cur.vectors,
            markets: cur.markets.insert(m, rec),
            market_to_positions: cur.market_to_positions,
        }),
    ensures
        inv_v(sf),
{
    assert(sf.markets.dom() =~= cur.markets.dom());
    assert forall|mm: OutPoint| #[trigger] sf.markets.dom().contains(mm)
        implies sf.markets[mm].outcomes.len() == sf.markets[mm].decisions.len()
        && sf.markets[mm].shape.len() == sf.markets[mm].decisions.len() by {
        if mm != m {
            assert(sf.markets[mm] == cur.markets[mm]);
        }
    }
    assert forall|x: OutPoint| #[trigger] sf.vectors.dom().contains(x)
        implies sf.markets.dom().contains(x) && sf.vectors[x].len()
        == crate::deltas::spec_size(sf.markets[x].shape) by {
        assert(cur.vectors.dom().contains(x));
        if x == m {
            assert(sf.markets[m].shape == cur.markets[m].shape);
        }
    }
}

impl State {
    /// The resolution pass: every market whose decisions are all decided —
    /// by this block or recorded by an earlier one — pays out its winners
    /// and disappears; every other market records the outcomes decided so
    /// far, keeping what earlier blocks recorded.
    pub fn resolve_markets(&mut self, dto: &Table<u32>) -> (r: Result<(), Error>)
        requires
            old(self).inv(),
            dto.wf(),
        ensures
            r is Ok,
            final(self).inv(),
            final(self).view_s() == spec_resolve(old(self).view_s(), dto@),
    {
        let ghost s0 = self.view_s();
        let mut keys: Vec<OutPoint> = Vec::new();
        let mut i: usize = 0;
        while i < self.markets.entries.len()
            invariant
                i <= self.markets.entries@.len(),
                keys@.len() == i,
                forall|q: int| 0 <= q < i ==> (#[trigger] keys@[q])
                    == self.markets.entries@[q].0,
            decreases self.markets.entries@.len() - i,
        {
            let k = self.markets.entries[i].0;
            keys.push(k);
            i = i + 1;
        }
        let ghost kv = keys@;
        proof {
            assert(kv.no_duplicates()) by {
                assert forall|a: int, b: int| 0 <= a < b < kv.len() implies kv[a] != kv[b] by {
                    assert(kv[a] == self.markets.entries@[a].0);
                    assert(kv[b] == self.markets.entries@[b].0);
                }
            }
            assert forall|m: OutPoint| #[trigger] kv.contains(m) <==> s0.markets.dom().contains(
                m,
            ) by {
                if kv.contains(m) {
                    let q = choose|q: int| 0 <= q < kv.len() && kv[q] == m;
                    crate::table::lemma_entry_is_map_value(self.markets.entries@, q);
                }
                if s0.markets.dom().contains(m) {
                    let q = crate::table::idx_of(self.markets.entries@, m);
                    assert(crate::table::has_key(self.markets.entries@, m));
                    assert(0 <= q < self.markets.entries@.len()
                        && self.markets.entries@[q].0 == m);
                    assert(kv[q] == m);
                }
            }
            assert(kv.subrange(0, 0) =~= Seq::<OutPoint>::empty());
            assert(self.view_s() =~~= spec_resolve_set(s0, dto@, kv.subrange(0, 0).to_set()))
                by {
                let t = spec_resolve_set(s0, dto@, kv.subrange(0, 0).to_set());
                assert(self.view_s().utxos =~= t.utxos);
                assert(self.view_s().vectors =~= t.vectors);
                assert(self.view_s().markets =~= t.markets);
                assert(self.view_s().market_to_positions =~= t.market_to_positions);
            }
        }
        let mut k: usize = 0;
        while k < keys.len()
            invariant
                self.inv(),
                dto.wf(),
                k <= kv.len(),
                keys@ == kv,
                kv.no_duplicates(),
                s0 == old(self).view_s(),
                forall|m: OutPoint| #[trigger] kv.contains(m) <==> s0.markets.dom().contains(
                    m,
                ),
                self.view_s() == spec_resolve_set(s0, dto@, kv.subrange(0, k as int).to_set()),
            decreases kv.len() - k,
        {
            let m = keys[k];
            let ghost done = kv.subrange(0, k as int).to_set();
            proof {
                assert(!done.contains(m)) by {
                    if kv.subrange(0, k as int).contains(m) {
                        let q = choose|q: int|
                            0 <= q < k && (#[trigger] kv.subrange(0, k as int)[q]) == m;
                        assert(kv[q] == m && kv[k as int] == m);
                    }
                }
                assert(s0.markets.dom().contains(m)) by {
                    assert(kv[k as int] == m);
                    assert(kv.contains(m));
                }
                assert(self.markets@.dom().contains(m));
                assert(self.markets@[m] == s0.markets[m]);
            }
            let (b, shape, decs, stored) = match self.markets.get(&m) {
                Some(rec) => (
                    rec.b,
                    crate::content::copy_u32s(&rec.shape),
                    crate::content::copy_outpoints(&rec.decisions),
                    crate::content::copy_outcomes(&rec.outcomes),
                ),
                None => {
                    proof {
                        assert(false);
                    }
                    return Err(Error::NoUtxo { outpoint: m });
                },
            };
            let ghost dseq = decs@;
            let ghost sout = stored@;
            proof {
                assert(sout.len() == dseq.len());
            }
            let mut outcomes: Vec<Option<u32>> = Vec::new();
            let mut finals: Vec<u32> = Vec::new();
            let mut all_decided: bool = true;
            let mut d: usize = 0;
            while d < decs.len()
                invariant
                    d <= dseq.len(),
                    decs@ == dseq,
                    stored@ == sout,
                    sout.len() == dseq.len(),
                    dto.wf(),
                    outcomes@.len() == d,
                    finals@.len() == d,
                    forall|q: int| 0 <= q < d ==> (#[trigger] outcomes@[q]) == (
                        if dto@.dom().contains(dseq[q]) {
                            Some(dto@[dseq[q]])
                        } else {
                            sout[q]
                        }),
                    forall|q: int| 0 <= q < d ==> (#[trigger] finals@[q]) == (
                        if dto@.dom().contains(dseq[q]) {
                            dto@[dseq[q]]
                        } else {
                            match sout[q] {
                                Some(v) => v,
                                None => 0u32,
                            }
                        }),
                    all_decided == (forall|q: int| 0 <= q < d ==> dto@.dom().contains(
                        #[trigger] dseq[q],
                    ) || sout[q] is Some),
                decreases dseq.len() - d,
            {
                match dto.get(&decs[d]) {
                    Some(v) => {
                        outcomes.push(Some(*v));
                        finals.push(*v);
                    },
                    None => {
                        match stored[d] {
                            Some(v) => {
                                outcomes.push(Some(v));
                                finals.push(v);
                            },
                            None => {
                                outcomes.push(None);
                                finals.push(0);
                                all_decided = false;
                            },
                        }
                    },
                }
                proof {
                    if !(dto@.dom().contains(dseq[d as int]) || sout[d as int] is Some) {
                        assert(!all_decided);
                    }
                }
                d = d + 1;
            }
            proof {
                assert(dseq == s0.markets[m].decisions);
                assert(sout == s0.markets[m].outcomes);
                assert(outcomes@ =~= spec_outcomes(sout, dto@, dseq));
                assert(finals@ =~= spec_final_outcomes(sout, dto@, dseq));
                assert(all_decided == market_resolved(s0, dto@, m));
            }
            let ghost cur = self.view_s();
            if all_decided {
                match self.resolve_one_market(&m, &finals) {
                    Ok(_) => {},
                    Err(e) => {
                        proof {
                            assert(false);
                        }
                        return Err(e);
                    },
                }
                proof {
                    lemma_resolve_step_resolved(s0, dto@, done, m, cur, self.view_s());
                }
            } else {
                let updated = crate::content::Market { b, shape, decisions: decs, outcomes };
                proof {
                    assert(updated@ == spec_updated_record(s0, dto@, m));
                }
                self.markets.put(m, updated);
                proof {
                    let sf = self.view_s();
                    assert(sf == StateV {
                        utxos: cur.utxos,
                        vectors: cur.vectors,
                        markets: cur.markets.insert(m, spec_updated_record(s0, dto@, m)),
                        market_to_positions: cur.market_to_positions,
                    });
                    lemma_resolve_step_open(s0, dto@, done, m, cur, sf);
                    lemma_update_record_inv(cur, m, spec_updated_record(s0, dto@, m), sf);
                    lemma_inv_from_v(*self);
                }
            }
            proof {
                assert(kv.subrange(0, k as int + 1) =~= kv.subrange(0, k as int).push(m));
                assert(kv.subrange(0, k as int + 1).to_set() =~= done.insert(m)) by {
                    assert forall|x: OutPoint|
                        #[trigger] kv.subrange(0, k as int + 1).contains(x)
                        <==> kv.subrange(0, k as int).contains(x) || x == m by {
                        if kv.subrange(0, k as int + 1).contains(x) {
                            let q = choose|q: int|
                                0 <= q < k + 1 && (#[trigger] kv.subrange(
                                    0,
                                    k as int + 1,
                                )[q]) == x;
                            if q < k {
                                assert(kv.subrange(0, k as int)[q] == x);
                            }
                        }
                        if kv.subrange(0, k as int).contains(x) {
                            let q = choose|q: int|
                                0 <= q < k && (#[trigger] kv.subrange(0, k as int)[q]) == x;
                            assert(kv.subrange(0, k as int + 1)[q] == x);
                        }
                        if x == m {
                            assert(kv.subrange(0, k as int + 1)[k as int] == x);
                        }
                    }
                }
            }
            k = k + 1;
        }
        proof {
            assert(kv.subrange(0, kv.len() as int) =~= kv);
            assert(kv.to_set() =~= s0.markets.dom());
            assert(self.view_s() == spec_resolve(s0, dto@));
        }
        Ok(())
    }
}

/// Applying a block's transactions in order, threading the block-local
/// decision outcomes and the accumulated market deltas.
pub open spec fn spec_connect_txs(
    s: StateV,
    dto: Map<OutPoint, u32>,
    bd: Seq<(OutPoint, Seq<i128>)>,
    txs: Seq<crate::content::TransactionV>,
    txids: Seq<Hash256>,
) -> Result<(StateV, Map<OutPoint, u32>, Seq<(OutPoint, Seq<i128>)>), Error>
    decreases txs.len(),
{
    if txs.len() == 0 {
        Ok((s, dto, bd))
    } else {
        match spec_connect_tx(s, dto, bd, txs[0], txids[0]) {
            Err(e) => Err(e),
            Ok((s2, d2, b2)) => spec_connect_txs(
                s2,
                d2,
                b2,
                txs.drop_first(),
                txids.drop_first(),
            ),
        }
    }
}

/// What connecting a block yields: each transaction applied in block
/// order, the accumulated deltas applied to the market vectors, and then
/// the matured markets resolved.
pub open spec fn spec_connect_body(
    s: StateV,
    body: crate::content::BodyV,
    txids: Seq<Hash256>,
) -> Result<StateV, Error> {
    match spec_connect_txs(
        s,
        Map::empty(),
        Seq::empty(),
        body.transactions,
        txids,
    ) {
        Err(e) => Err(e),
        Ok((s1, dto, bd)) => match spec_apply_body_deltas(s1, bd) {
            Err(e) => Err(e),
            Ok(s2) => Ok(spec_resolve(s2, dto)),
        },
    }
}

impl State {
    /// Connects a validated block atomically: on success the state is the
    /// block's effect in full, on failure it is untouched. The caller
    /// supplies each transaction's id, computed at the edge by hashing the
    /// serialized transaction.
    pub fn connect_body(&mut self, body: &crate::content::Body, txids: &Vec<Hash256>) -> (r:
        Result<(), Error>)
        requires
            old(self).inv(),
            txids@.len() == body@.transactions.len(),
            forall|t: int| 0 <= t < body@.transactions.len()
                ==> (#[trigger] body@.transactions[t]).outputs.len() <= 0xffff_ffff,
        ensures
            match r {
                Ok(_) => spec_connect_body(old(self).view_s(), body@, txids@) == Ok::<
                    StateV,
                    Error,
                >(final(self).view_s()) && final(self).inv(),
                Err(e) => spec_connect_body(old(self).view_s(), body@, txids@) == Err::<
                    StateV,
                    Error,
                >(e) && *final(self) == *old(self),
            },
    {
        let ghost s0 = self.view_s();
        let ghost txs_v = body@.transactions;
        let ghost tids = txids@;
        let mut next = self.snapshot();
        let mut dto: Table<u32> = Table::new();
        let mut body_deltas: Table<Vec<i128>> = Table::new();
        let mut t: usize = 0;
        proof {
            assert(txs_v.skip(0) =~= txs_v);
            assert(tids.skip(0) =~= tids);
            assert(crate::deltas::delta_entries_view(body_deltas.entries@) =~= Seq::<
                (OutPoint, Seq<i128>),
            >::empty());
            assert(next.view_s() == s0);
        }
        while t < body.transactions.len()
            invariant
                next.inv(),
                dto.wf(),
                crate::deltas::delta_table_ok(body_deltas, next.markets@),
                t <= txs_v.len(),
                body.transactions@.len() == txs_v.len(),
                txids@.len() == txs_v.len(),
                txs_v == body@.transactions,
                tids == txids@,
                s0 == old(self).view_s(),
                *self == *old(self),
                forall|w: int| 0 <= w < txs_v.len() ==> (#[trigger] txs_v[w]).outputs.len()
                    <= 0xffff_ffff,
                spec_connect_txs(s0, Map::empty(), Seq::empty(), txs_v, tids)
                    == spec_connect_txs(
                    next.view_s(),
                    dto@,
                    crate::deltas::delta_entries_view(body_deltas.entries@),
                    txs_v.skip(t as int),
                    tids.skip(t as int),
                ),
            decreases txs_v.len() - t,
        {
            proof {
                assert(txs_v.skip(t as int)[0] == body.transactions@[t as int]@);
                assert(tids.skip(t as int)[0] == tids[t as int]);
                assert(txs_v.skip(t as int).drop_first() =~= txs_v.skip(t as int + 1));
                assert(tids.skip(t as int).drop_first() =~= tids.skip(t as int + 1));
                assert(txs_v[t as int].outputs.len() <= 0xffff_ffff);
            }
            match next.connect_transaction(
                &mut dto,
                &mut body_deltas,
                &body.transactions[t],
                txids[t],
            ) {
                Ok(_) => {},
                Err(e) => {
                    return Err(e);
                },
            }
            t = t + 1;
        }
        proof {
            assert(txs_v.skip(txs_v.len() as int).len() == 0);
            assert(tids.skip(txs_v.len() as int).len() == 0);
        }
        match next.apply_body_deltas(&body_deltas) {
            Ok(_) => {},
            Err(e) => {
                return Err(e);
            },
        }
        match next.resolve_markets(&dto) {
            Ok(_) => {},
            Err(e) => {
                proof {
                    assert(false);
                }
                return Err(e);
            },
        }
        *self = next;
        Ok(())
    }
}

} // verus!
