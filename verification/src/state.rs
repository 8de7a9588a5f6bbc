//! The persistent state: the four tables backing the UTXO set and the
//! per-market automated-market-maker state, and the invariants tying them
//! together.
use vstd::prelude::*;

use crate::content::Content;
use crate::content::ContentV;
use crate::content::HivemindContent;
use crate::content::HivemindContentV;
use crate::content::Market;
use crate::content::MarketV;
use crate::content::OutPoint;
use crate::content::Output;
use crate::content::OutputV;
use crate::content::copy_outpoints;
use crate::content::copy_output;
use crate::dec::Dec;
use crate::dec::MAX_DEC_MANTISSA;
use crate::table::Table;
use crate::table::lemma_entry_is_map_value;
use crate::table::map_of;
use crate::table::unique_keys;

verus! {

/// Everything that can go wrong while validating or connecting a block.
/// Each variant names one rule; any error aborts the enclosing validation or
/// connection as a whole.
#[derive(Clone, Copy, PartialEq, Eq, Structural, Debug)]
pub enum Error {
    /// Signature verification failure, reported by the surrounding
    /// authorization layer; the state engine itself never raises it.
    Authorization,
    /// A failure of the underlying persistent store; the in-memory engine
    /// itself never raises it.
    Store,
    /// The referenced outpoint is absent from the required table.
    NoUtxo { outpoint: OutPoint },
    /// The outpoint resolved to a content inconsistent with its referenced
    /// role: a market's decision that is no decision, or a position whose
    /// share coordinate does not fit its market's shape.
    InvalidOutPoint { outpoint: OutPoint },
    /// An amount or cost left the domain of 64-bit values or 96-bit decimal
    /// mantissas; carries the offending decimal.
    U64Overflow { decimal: Dec },
    /// The value spent does not cover the trade cost plus the value created.
    NotEnoughValueIn,
    /// The coinbase value exceeds the block's accumulated fees.
    NotEnoughFeeValue,
    /// Two inputs of the block reference the same outpoint.
    UtxoDoubleSpent { outpoint: OutPoint },
    /// A decision output is spent before its resolvable height is reached.
    DecisionSpentEarly,
    /// A decision output is spent without a matching resolution in the same
    /// transaction.
    DecisionSpentWithoutResolution,
    /// A market is created over, or spent while holding, a decision that is
    /// already resolvable.
    MarketUsingResolvableDecision,
}

/// The state engine: the UTXO set, each live market's state vector, each
/// live market's record, and the index from each live market to its
/// position outpoints.
pub struct State {
    pub utxos: Table<Output>,
    pub vectors: Table<Vec<i128>>,
    pub markets: Table<Market>,
    pub market_to_positions: Table<Vec<OutPoint>>,
}

/// Whether `c` is a position on market `m`.
pub open spec fn is_position_on(c: OutputV, m: OutPoint) -> bool {
    match c.content {
        ContentV::Custom(HivemindContentV::Position { market, .. }) => market == m,
        _ => false,
    }
}

impl State {
    /// The four tables have pairwise-distinct keys.
    pub open spec fn tables_wf(self) -> bool {
        &&& self.utxos.wf()
        &&& self.vectors.wf()
        &&& self.markets.wf()
        &&& self.market_to_positions.wf()
    }

    /// Every stored market-state entry stays within the 96-bit decimal
    /// mantissa domain the pricing arithmetic works in.
    pub open spec fn vectors_in_range(self) -> bool {
        forall|m: OutPoint| #[trigger] self.vectors@.dom().contains(m)
            ==> forall|i: int| 0 <= i < self.vectors@[m].len()
                ==> -MAX_DEC_MANTISSA <= #[trigger] self.vectors@[m][i] <= MAX_DEC_MANTISSA
    }

    /// Every stored market-state vector spans exactly its market's grid.
    pub open spec fn vectors_sized(self) -> bool {
        forall|m: OutPoint| #[trigger] self.vectors@.dom().contains(m)
            ==> self.markets@.dom().contains(m) && self.vectors@[m].len()
                == crate::deltas::spec_size(self.markets@[m].shape)
    }

    /// Every market record is internally consistent: one shape axis and
    /// one outcome slot per referenced decision.
    pub open spec fn records_consistent(self) -> bool {
        forall|m: OutPoint| #[trigger] self.markets@.dom().contains(m)
            ==> self.markets@[m].outcomes.len() == self.markets@[m].decisions.len()
                && self.markets@[m].shape.len() == self.markets@[m].decisions.len()
    }

    /// The market-level tables cover exactly the live markets.
    pub open spec fn domains_agree(self) -> bool {
        &&& forall|m: OutPoint| #[trigger] self.vectors@.dom().contains(m)
            <==> self.markets@.dom().contains(m)
        &&& forall|m: OutPoint| #[trigger] self.market_to_positions@.dom().contains(m)
            <==> self.markets@.dom().contains(m)
    }

    /// Every position in the UTXO set references a live market.
    pub open spec fn positions_reference_markets(self) -> bool {
        forall|o: OutPoint| #[trigger] self.utxos@.dom().contains(o)
            ==> match self.utxos@[o].content {
                ContentV::Custom(HivemindContentV::Position { market, .. }) =>
                    self.markets@.dom().contains(market),
                _ => true,
            }
    }

    /// The positions index is exact: for each live market it lists, without
    /// repetition, precisely the outpoints whose UTXO is a position on it.
    pub open spec fn index_exact(self) -> bool {
        forall|m: OutPoint| #[trigger] self.market_to_positions@.dom().contains(m)
            ==> {
                let l = self.market_to_positions@[m];
                &&& l.no_duplicates()
                &&& forall|o: OutPoint| #[trigger] l.contains(o)
                    <==> self.utxos@.dom().contains(o) && is_position_on(self.utxos@[o], m)
            }
    }

    /// The cross-table well-formedness every operation preserves.
    pub open spec fn inv(self) -> bool {
        &&& self.tables_wf()
        &&& self.vectors_in_range()
        &&& self.vectors_sized()
        &&& self.records_consistent()
        &&& self.domains_agree()
        &&& self.positions_reference_markets()
        &&& self.index_exact()
    }

    /// An empty state: no outputs, no markets.
    pub fn new() -> (r: State)
        ensures
            r.inv(),
            r.utxos@ == Map::<OutPoint, OutputV>::empty(),
            r.vectors@ == Map::<OutPoint, Seq<i128>>::empty(),
            r.markets@ == Map::<OutPoint, MarketV>::empty(),
            r.market_to_positions@ == Map::<OutPoint, Seq<OutPoint>>::empty(),
    {
        State {
            utxos: Table::new(),
            vectors: Table::new(),
            markets: Table::new(),
            market_to_positions: Table::new(),
        }
    }

    /// Seeds an output into the UTXO set, as a deposit from the surrounding
    /// chain would. Positions cannot enter this way: they are created only
    /// by connecting a block, which maintains the positions index.
    pub fn put_utxo(&mut self, outpoint: OutPoint, output: Output)
        requires
            old(self).inv(),
            !(output@.content matches ContentV::Custom(HivemindContentV::Position { .. })),
            !old(self).utxos@.dom().contains(outpoint),
        ensures
            final(self).inv(),
            final(self).utxos@ == old(self).utxos@.insert(outpoint, output@),
            final(self).vectors@ == old(self).vectors@,
            final(self).markets@ == old(self).markets@,
            final(self).market_to_positions@ == old(self).market_to_positions@,
    {
        self.utxos.put(outpoint, output);
    }

    pub fn get_utxo(&self, outpoint: &OutPoint) -> (r: Option<&Output>)
        requires
            self.tables_wf(),
        ensures
            match r {
                Some(o) => self.utxos@.dom().contains(*outpoint) && o@ == self.utxos@[*outpoint],
                None => !self.utxos@.dom().contains(*outpoint),
            },
    {
        self.utxos.get(outpoint)
    }

    pub fn get_market(&self, outpoint: &OutPoint) -> (r: Option<&Market>)
        requires
            self.tables_wf(),
        ensures
            match r {
                Some(m) => self.markets@.dom().contains(*outpoint)
                    && m@ == self.markets@[*outpoint],
                None => !self.markets@.dom().contains(*outpoint),
            },
    {
        self.markets.get(outpoint)
    }

    pub fn get_vector(&self, outpoint: &OutPoint) -> (r: Option<&Vec<i128>>)
        requires
            self.tables_wf(),
        ensures
            match r {
                Some(v) => self.vectors@.dom().contains(*outpoint)
                    && v@ == self.vectors@[*outpoint],
                None => !self.vectors@.dom().contains(*outpoint),
            },
    {
        self.vectors.get(outpoint)
    }

    pub fn get_positions(&self, outpoint: &OutPoint) -> (r: Option<&Vec<OutPoint>>)
        requires
            self.tables_wf(),
        ensures
            match r {
                Some(v) => self.market_to_positions@.dom().contains(*outpoint)
                    && v@ == self.market_to_positions@[*outpoint],
                None => !self.market_to_positions@.dom().contains(*outpoint),
            },
    {
        self.market_to_positions.get(outpoint)
    }
}

// ---------------------------------------------------------------------------
// Snapshots: connecting a block works on a copy and commits it whole, so a
// failure leaves the state untouched.
// ---------------------------------------------------------------------------

pub fn copy_i128s(v: &Vec<i128>) -> (r: Vec<i128>)
    ensures
        r@ == v@,
{
    let mut r: Vec<i128> = Vec::new();
    let mut i: usize = 0;
    while i < v.len()
        invariant
            i <= v.len(),
            r@ == v@.subrange(0, i as int),
        decreases v.len() - i,
    {
        r.push(v[i]);
        i = i + 1;
    }
    proof {
        assert(r@ == v@);
    }
    r
}

fn copy_market(m: &Market) -> (r: Market)
    ensures
        r@ == m@,
{
    let mut outcomes: Vec<Option<u32>> = Vec::new();
    let mut i: usize = 0;
    while i < m.outcomes.len()
        invariant
            i <= m.outcomes@.len(),
            outcomes@ == m.outcomes@.subrange(0, i as int),
        decreases m.outcomes@.len() - i,
    {
        outcomes.push(m.outcomes[i]);
        i = i + 1;
    }
    proof {
        assert(outcomes@ == m.outcomes@);
    }
    Market {
        b: m.b,
        shape: crate::content::copy_u32s(&m.shape),
        decisions: copy_outpoints(&m.decisions),
        outcomes,
    }
}

fn copy_utxos(t: &Table<Output>) -> (r: Table<Output>)
    ensures
        r.entries@.len() == t.entries@.len(),
        forall|i: int| 0 <= i < t.entries@.len()
            ==> (#[trigger] r.entries@[i]).0 == t.entries@[i].0
                && r.entries@[i].1@ == t.entries@[i].1@,
        t.wf() ==> r.wf() && r@ == t@,
{
    let mut entries: Vec<(OutPoint, Output)> = Vec::new();
    let mut i: usize = 0;
    while i < t.entries.len()
        invariant
            i <= t.entries@.len(),
            entries@.len() == i,
            forall|j: int| 0 <= j < i
                ==> (#[trigger] entries@[j]).0 == t.entries@[j].0
                    && entries@[j].1@ == t.entries@[j].1@,
        decreases t.entries@.len() - i,
    {
        let o = copy_output(&t.entries[i].1);
        entries.push((t.entries[i].0, o));
        i = i + 1;
    }
    let r = Table { entries };
    proof {
        if t.wf() {
            lemma_map_of_congruence(r.entries@, t.entries@);
        }
    }
    r
}

fn copy_vectors(t: &Table<Vec<i128>>) -> (r: Table<Vec<i128>>)
    ensures
        t.wf() ==> r.wf() && r@ == t@,
{
    let mut entries: Vec<(OutPoint, Vec<i128>)> = Vec::new();
    let mut i: usize = 0;
    while i < t.entries.len()
        invariant
            i <= t.entries@.len(),
            entries@.len() == i,
            forall|j: int| 0 <= j < i
                ==> (#[trigger] entries@[j]).0 == t.entries@[j].0
                    && entries@[j].1@ == t.entries@[j].1@,
        decreases t.entries@.len() - i,
    {
        let v = copy_i128s(&t.entries[i].1);
        entries.push((t.entries[i].0, v));
        i = i + 1;
    }
    let r = Table { entries };
    proof {
        if t.wf() {
            lemma_map_of_congruence(r.entries@, t.entries@);
        }
    }
    r
}

fn copy_markets(t: &Table<Market>) -> (r: Table<Market>)
    ensures
        t.wf() ==> r.wf() && r@ == t@,
{
    let mut entries: Vec<(OutPoint, Market)> = Vec::new();
    let mut i: usize = 0;
    while i < t.entries.len()
        invariant
            i <= t.entries@.len(),
            entries@.len() == i,
            forall|j: int| 0 <= j < i
                ==> (#[trigger] entries@[j]).0 == t.entries@[j].0
                    && entries@[j].1@ == t.entries@[j].1@,
        decreases t.entries@.len() - i,
    {
        let m = copy_market(&t.entries[i].1);
        entries.push((t.entries[i].0, m));
        i = i + 1;
    }
    let r = Table { entries };
    proof {
        if t.wf() {
            lemma_map_of_congruence(r.entries@, t.entries@);
        }
    }
    r
}

fn copy_positions_index(t: &Table<Vec<OutPoint>>) -> (r: Table<Vec<OutPoint>>)
    ensures
        t.wf() ==> r.wf() && r@ == t@,
{
    let mut entries: Vec<(OutPoint, Vec<OutPoint>)> = Vec::new();
    let mut i: usize = 0;
    while i < t.entries.len()
        invariant
            i <= t.entries@.len(),
            entries@.len() == i,
            forall|j: int| 0 <= j < i
                ==> (#[trigger] entries@[j]).0 == t.entries@[j].0
                    && entries@[j].1@ == t.entries@[j].1@,
        decreases t.entries@.len() - i,
    {
        let v = copy_outpoints(&t.entries[i].1);
        entries.push((t.entries[i].0, v));
        i = i + 1;
    }
    let r = Table { entries };
    proof {
        if t.wf() {
            lemma_map_of_congruence(r.entries@, t.entries@);
        }
    }
    r
}

/// Two entry sequences with the same keys and view-equal values stand for
/// the same map.
pub proof fn lemma_map_of_congruence<V: View>(s1: Seq<(OutPoint, V)>, s2: Seq<(OutPoint, V)>)
    requires
        unique_keys(s2),
        s1.len() == s2.len(),
        forall|i: int| 0 <= i < s2.len()
            ==> (#[trigger] s1[i]).0 == s2[i].0 && s1[i].1@ == s2[i].1@,
    ensures
        unique_keys(s1),
        map_of(s1) == map_of(s2),
{
    assert(unique_keys(s1));
    assert forall|q: OutPoint| crate::table::has_key(s1, q) implies #[trigger] map_of(s1)[q]
        == map_of(s2)[q] by {
        let j = crate::table::idx_of(s1, q);
        lemma_entry_is_map_value(s1, j);
        lemma_entry_is_map_value(s2, j);
    }
    assert forall|q: OutPoint| crate::table::has_key(s1, q) <==> crate::table::has_key(
        s2,
        q,
    ) by {
        if crate::table::has_key(s1, q) {
            let j = crate::table::idx_of(s1, q);
            lemma_entry_is_map_value(s1, j);
            assert(s2[j].0 == q);
        }
        if crate::table::has_key(s2, q) {
            let j = crate::table::idx_of(s2, q);
            lemma_entry_is_map_value(s2, j);
            assert(s1[j].0 == q);
        }
    }
    assert(map_of(s1) =~= map_of(s2));
}

impl State {
    /// A deep copy with the same view of every table.
    pub fn snapshot(&self) -> (r: State)
        requires
            self.tables_wf(),
        ensures
            r.tables_wf(),
            r.utxos@ == self.utxos@,
            r.vectors@ == self.vectors@,
            r.markets@ == self.markets@,
            r.market_to_positions@ == self.market_to_positions@,
            self.inv() ==> r.inv(),
    {
        State {
            utxos: copy_utxos(&self.utxos),
            vectors: copy_vectors(&self.vectors),
            markets: copy_markets(&self.markets),
            market_to_positions: copy_positions_index(&self.market_to_positions),
        }
    }
}

/// Whether a list of outpoints is pairwise distinct.
pub fn check_outpoints_distinct(v: &Vec<OutPoint>) -> (r: bool)
    ensures
        r ==> v@.no_duplicates(),
{
    let n = v.len();
    let mut i: usize = 0;
    while i < n
        invariant
            n == v@.len(),
            i <= n,
            forall|a: int, b: int| 0 <= a < b < v@.len() && a < i ==> v@[a] != v@[b],
        decreases n - i,
    {
        let mut j: usize = i + 1;
        while j < n
            invariant
                n == v@.len(),
                i < n,
                j <= n,
                i < j,
                forall|b: int| i < b < j ==> v@[b] != v@[i as int],
            decreases n - j,
        {
            if v[i] == v[j] {
                return false;
            }
            j = j + 1;
        }
        proof {
            assert forall|a: int, b: int| 0 <= a < b < v@.len() && a < i + 1 implies v@[a]
                != v@[b] by {
                if a == i {
                    assert(v@[b] != v@[i as int]);
                }
            }
        }
        i = i + 1;
    }
    true
}

impl State {
    /// Confirms the cross-table invariant at run time, for a state that was
    /// assembled outside this library — loaded from a store, say. A `true`
    /// answer carries the proof: the preconditions of validation and
    /// connection are then met.
    pub fn check_inv(&self) -> (r: bool)
        ensures
            r ==> self.inv(),
    {
        if !(self.utxos.check_unique_keys() && self.vectors.check_unique_keys()
            && self.markets.check_unique_keys()
            && self.market_to_positions.check_unique_keys()) {
            return false;
        }
        // Each market record is internally consistent.
        let mut i: usize = 0;
        while i < self.markets.entries.len()
            invariant
                self.tables_wf(),
                i <= self.markets.entries@.len(),
                forall|j: int| 0 <= j < i ==> {
                    let rec = (#[trigger] self.markets.entries@[j]).1@;
                    rec.outcomes.len() == rec.decisions.len() && rec.shape.len()
                        == rec.decisions.len()
                },
            decreases self.markets.entries@.len() - i,
        {
            let rec = &self.markets.entries[i].1;
            if rec.outcomes.len() != rec.decisions.len() || rec.shape.len()
                != rec.decisions.len() {
                return false;
            }
            i = i + 1;
        }
        proof {
            assert forall|m: OutPoint| #[trigger] self.markets@.dom().contains(m)
                implies self.markets@[m].outcomes.len() == self.markets@[m].decisions.len()
                && self.markets@[m].shape.len() == self.markets@[m].decisions.len() by {
                let j = crate::table::idx_of(self.markets.entries@, m);
                lemma_entry_is_map_value(self.markets.entries@, j);
            }
            assert(self.records_consistent());
        }
        // Each stored vector belongs to a live market, spans its grid, and
        // stays in the decimal mantissa domain.
        let mut i2: usize = 0;
        while i2 < self.vectors.entries.len()
            invariant
                self.tables_wf(),
                i2 <= self.vectors.entries@.len(),
                forall|j: int| 0 <= j < i2 ==> {
                    let e = #[trigger] self.vectors.entries@[j];
                    &&& self.markets@.dom().contains(e.0)
                    &&& e.1@.len() == crate::deltas::spec_size(self.markets@[e.0].shape)
                    &&& forall|q: int| 0 <= q < e.1@.len()
                        ==> -MAX_DEC_MANTISSA <= (#[trigger] e.1@[q]) <= MAX_DEC_MANTISSA
                },
            decreases self.vectors.entries@.len() - i2,
        {
            let key = self.vectors.entries[i2].0;
            let sz: u32 = match self.get_size(&key) {
                Ok(sz) => sz,
                Err(_) => {
                    return false;
                },
            };
            let v = &self.vectors.entries[i2].1;
            if v.len() != sz as usize {
                return false;
            }
            let mut q: usize = 0;
            while q < v.len()
                invariant
                    q <= v@.len(),
                    forall|w: int| 0 <= w < q
                        ==> -MAX_DEC_MANTISSA <= (#[trigger] v@[w]) <= MAX_DEC_MANTISSA,
                decreases v@.len() - q,
            {
                if v[q] < -MAX_DEC_MANTISSA || v[q] > MAX_DEC_MANTISSA {
                    return false;
                }
                q = q + 1;
            }
            i2 = i2 + 1;
        }
        proof {
            assert forall|m: OutPoint| #[trigger] self.vectors@.dom().contains(m)
                implies self.markets@.dom().contains(m) && self.vectors@[m].len()
                == crate::deltas::spec_size(self.markets@[m].shape) && forall|q: int|
                0 <= q < self.vectors@[m].len() ==> -MAX_DEC_MANTISSA <= (
                #[trigger] self.vectors@[m][q]) <= MAX_DEC_MANTISSA by {
                let j = crate::table::idx_of(self.vectors.entries@, m);
                lemma_entry_is_map_value(self.vectors.entries@, j);
            }
            assert(self.vectors_in_range());
            assert(self.vectors_sized());
        }
        // The market-level tables cover the same outpoints.
        let mut i3: usize = 0;
        while i3 < self.markets.entries.len()
            invariant
                self.tables_wf(),
                i3 <= self.markets.entries@.len(),
                forall|j: int| 0 <= j < i3 ==> self.vectors@.dom().contains(
                    (#[trigger] self.markets.entries@[j]).0,
                ) && self.market_to_positions@.dom().contains(self.markets.entries@[j].0),
            decreases self.markets.entries@.len() - i3,
        {
            let key = self.markets.entries[i3].0;
            if !self.vectors.contains_key(&key) || !self.market_to_positions.contains_key(
                &key,
            ) {
                return false;
            }
            i3 = i3 + 1;
        }
        let mut i4: usize = 0;
        while i4 < self.market_to_positions.entries.len()
            invariant
                self.tables_wf(),
                i4 <= self.market_to_positions.entries@.len(),
                forall|j: int| 0 <= j < i4 ==> self.markets@.dom().contains(
                    (#[trigger] self.market_to_positions.entries@[j]).0,
                ),
            decreases self.market_to_positions.entries@.len() - i4,
        {
            let key = self.market_to_positions.entries[i4].0;
            if !self.markets.contains_key(&key) {
                return false;
            }
            i4 = i4 + 1;
        }
        proof {
            assert forall|m: OutPoint| #[trigger] self.markets@.dom().contains(m)
                implies self.vectors@.dom().contains(m)
                && self.market_to_positions@.dom().contains(m) by {
                let j = crate::table::idx_of(self.markets.entries@, m);
                lemma_entry_is_map_value(self.markets.entries@, j);
            }
            assert forall|m: OutPoint| #[trigger] self.market_to_positions@.dom().contains(m)
                implies self.markets@.dom().contains(m) by {
                let j = crate::table::idx_of(self.market_to_positions.entries@, m);
                lemma_entry_is_map_value(self.market_to_positions.entries@, j);
            }
            assert(self.domains_agree());
        }
        // Every position references a live market and stands in its index.
        let mut i5: usize = 0;
        while i5 < self.utxos.entries.len()
            invariant
                self.tables_wf(),
                i5 <= self.utxos.entries@.len(),
                forall|j: int| 0 <= j < i5 ==> {
                    let e = #[trigger] self.utxos.entries@[j];
                    match e.1@.content {
                        ContentV::Custom(HivemindContentV::Position { market, .. }) => {
                            &&& self.markets@.dom().contains(market)
                            &&& self.market_to_positions@.dom().contains(market)
                            &&& self.market_to_positions@[market].contains(e.0)
                        },
                        _ => true,
                    }
                },
            decreases self.utxos.entries@.len() - i5,
        {
            let o = self.utxos.entries[i5].0;
            match &self.utxos.entries[i5].1.content {
                Content::Custom(HivemindContent::Position { market, .. }) => {
                    let mm = *market;
                    if !self.markets.contains_key(&mm) {
                        return false;
                    }
                    match self.market_to_positions.get(&mm) {
                        None => {
                            return false;
                        },
                        Some(l) => {
                            if !crate::validate::outpoint_list_contains(l, &o) {
                                return false;
                            }
                        },
                    }
                },
                _ => {},
            }
            i5 = i5 + 1;
        }
        // Each index lists, without repetition, only live positions of its
        // market.
        let mut i6: usize = 0;
        while i6 < self.market_to_positions.entries.len()
            invariant
                self.tables_wf(),
                i6 <= self.market_to_positions.entries@.len(),
                forall|j: int| 0 <= j < i6 ==> {
                    let e = #[trigger] self.market_to_positions.entries@[j];
                    &&& e.1@.no_duplicates()
                    &&& forall|o: OutPoint| #[trigger] e.1@.contains(o)
                        ==> self.utxos@.dom().contains(o) && is_position_on(
                            self.utxos@[o],
                            e.0,
                        )
                },
            decreases self.market_to_positions.entries@.len() - i6,
        {
            let m = self.market_to_positions.entries[i6].0;
            let l = &self.market_to_positions.entries[i6].1;
            if !check_outpoints_distinct(l) {
                return false;
            }
            let ghost lv = l@;
            let mut p: usize = 0;
            while p < l.len()
                invariant
                    self.tables_wf(),
                    p <= lv.len(),
                    l@ == lv,
                    forall|w: int| 0 <= w < p ==> self.utxos@.dom().contains(
                        #[trigger] lv[w],
                    ) && is_position_on(self.utxos@[lv[w]], m),
                decreases lv.len() - p,
            {
                match self.utxos.get(&l[p]) {
                    None => {
                        return false;
                    },
                    Some(u) => match &u.content {
                        Content::Custom(HivemindContent::Position { market, .. }) => {
                            if !(*market == m) {
                                return false;
                            }
                        },
                        _ => {
                            return false;
                        },
                    },
                }
                p = p + 1;
            }
            proof {
                assert forall|o: OutPoint| #[trigger] lv.contains(o)
                    implies self.utxos@.dom().contains(o) && is_position_on(
                    self.utxos@[o],
                    m,
                ) by {
                    let w = choose|w: int| 0 <= w < lv.len() && lv[w] == o;
                    assert(lv[w] == o);
                }
            }
            i6 = i6 + 1;
        }
        proof {
            assert forall|m: OutPoint| #[trigger] self.market_to_positions@.dom().contains(m)
                implies {
                let l = self.market_to_positions@[m];
                &&& l.no_duplicates()
                &&& forall|o: OutPoint| #[trigger] l.contains(o)
                    <==> self.utxos@.dom().contains(o) && is_position_on(self.utxos@[o], m)
            } by {
                let j = crate::table::idx_of(self.market_to_positions.entries@, m);
                lemma_entry_is_map_value(self.market_to_positions.entries@, j);
                let l = self.market_to_positions@[m];
                assert forall|o: OutPoint| self.utxos@.dom().contains(o) && is_position_on(
                    self.utxos@[o],
                    m,
                ) implies #[trigger] l.contains(o) by {
                    let w = crate::table::idx_of(self.utxos.entries@, o);
                    lemma_entry_is_map_value(self.utxos.entries@, w);
                    assert(self.utxos.entries@[w].1@ == self.utxos@[o]);
                }
            }
            assert(self.index_exact());
            assert forall|o: OutPoint| #[trigger] self.utxos@.dom().contains(o)
                implies match self.utxos@[o].content {
                ContentV::Custom(HivemindContentV::Position { market, .. }) => self.markets@
                    .dom().contains(market),
                _ => true,
            } by {
                let w = crate::table::idx_of(self.utxos.entries@, o);
                lemma_entry_is_map_value(self.utxos.entries@, w);
            }
            assert(self.positions_reference_markets());
        }
        true
    }
}

} // verus!
