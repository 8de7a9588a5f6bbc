//! The data carried by outputs: the tagged union of UTXO payloads and the
//! records derived from it (transactions, blocks, persisted market records).
use vstd::prelude::*;

verus! {

/// A 256-bit identifier (a transaction id, a merkle root, or a decision's
/// query digest), held as four 64-bit words.
#[derive(Clone, Copy, PartialEq, Eq, Structural, Hash, Debug)]
pub struct Hash256 {
    pub w0: u64,
    pub w1: u64,
    pub w2: u64,
    pub w3: u64,
}

/// A stable reference to a specific output of a specific transaction, or to a
/// coinbase output of a specific block.
#[derive(Clone, Copy, PartialEq, Eq, Structural, Hash, Debug)]
pub enum OutPoint {
    Regular { txid: Hash256, vout: u32 },
    Coinbase { merkle_root: Hash256, vout: u32 },
}

/// The market-specific output payloads.
#[derive(Clone, Debug)]
pub enum HivemindContent {
    /// Declares the outcome of a specific decision.
    Resolution { decision: OutPoint, outcome: u32 },
    /// A future fact with `size` possible outcomes, resolvable no earlier
    /// than block height `resolvable_height`.
    Decision { query: Hash256, size: u32, resolvable_height: u32 },
    /// A combinatorial market over the cartesian product of the referenced
    /// decisions' outcomes, with liquidity parameter `b`.
    Market { b: u64, decisions: Vec<OutPoint> },
    /// A holding of `value` shares of the outcome coordinate `share` in
    /// `market`.
    Position { market: OutPoint, share: Vec<u32>, value: u64 },
}

/// An output's content: ordinary money, or a market-specific payload.
#[derive(Clone, Debug)]
pub enum Content {
    Value(u64),
    Custom(HivemindContent),
}

/// An output: an opaque address together with a content.
#[derive(Clone, Debug)]
pub struct Output {
    pub address: Hash256,
    pub content: Content,
}

/// A transaction: the outpoints it spends and the outputs it creates.
#[derive(Clone, Debug)]
pub struct Transaction {
    pub inputs: Vec<OutPoint>,
    pub outputs: Vec<Output>,
}

/// A transaction together with the outputs its inputs resolved to;
/// `spent_utxos[i]` is the output that `transaction.inputs[i]` referenced.
pub struct FilledTransaction {
    pub spent_utxos: Vec<Output>,
    pub transaction: Transaction,
}

/// A block body: its coinbase outputs and its transactions in block order.
pub struct Body {
    pub coinbase: Vec<Output>,
    pub transactions: Vec<Transaction>,
}

/// The record persisted alongside each live market: its liquidity parameter,
/// the per-axis outcome counts, the referenced decisions, and the outcome of
/// each decision once resolved.
#[derive(Clone, Debug)]
pub struct Market {
    pub b: u64,
    pub shape: Vec<u32>,
    pub decisions: Vec<OutPoint>,
    pub outcomes: Vec<Option<u32>>,
}

// ---------------------------------------------------------------------------
// Mathematical views
// ---------------------------------------------------------------------------

pub enum HivemindContentV {
    Resolution { decision: OutPoint, outcome: u32 },
    Decision { query: Hash256, size: u32, resolvable_height: u32 },
    Market { b: u64, decisions: Seq<OutPoint> },
    Position { market: OutPoint, share: Seq<u32>, value: u64 },
}

pub enum ContentV {
    Value(u64),
    Custom(HivemindContentV),
}

pub struct OutputV {
    pub address: Hash256,
    pub content: ContentV,
}

pub struct TransactionV {
    pub inputs: Seq<OutPoint>,
    pub outputs: Seq<OutputV>,
}

pub struct FilledTransactionV {
    pub spent_utxos: Seq<OutputV>,
    pub transaction: TransactionV,
}

pub struct BodyV {
    pub coinbase: Seq<OutputV>,
    pub transactions: Seq<TransactionV>,
}

pub struct MarketV {
    pub b: u64,
    pub shape: Seq<u32>,
    pub decisions: Seq<OutPoint>,
    pub outcomes: Seq<Option<u32>>,
}

impl View for HivemindContent {
    type V = HivemindContentV;

    open spec fn view(&self) -> HivemindContentV {
        match self {
            HivemindContent::Resolution { decision, outcome } => {
                HivemindContentV::Resolution { decision: *decision, outcome: *outcome }
            },
            HivemindContent::Decision { query, size, resolvable_height } => {
                HivemindContentV::Decision {
                    query: *query,
                    size: *size,
                    resolvable_height: *resolvable_height,
                }
            },
            HivemindContent::Market { b, decisions } => {
                HivemindContentV::Market { b: *b, decisions: decisions@ }
            },
            HivemindContent::Position { market, share, value } => {
                HivemindContentV::Position { market: *market, share: share@, value: *value }
            },
        }
    }
}

impl View for Content {
    type V = ContentV;

    open spec fn view(&self) -> ContentV {
        match self {
            Content::Value(v) => ContentV::Value(*v),
            Content::Custom(c) => ContentV::Custom(c@),
        }
    }
}

impl View for Output {
    type V = OutputV;

    open spec fn view(&self) -> OutputV {
        OutputV { address: self.address, content: self.content@ }
    }
}

impl View for Transaction {
    type V = TransactionV;

    open spec fn view(&self) -> TransactionV {
        TransactionV {
            inputs: self.inputs@,
            outputs: Seq::new(self.outputs@.len(), |i: int| self.outputs@[i]@),
        }
    }
}

impl View for FilledTransaction {
    type V = FilledTransactionV;

    open spec fn view(&self) -> FilledTransactionV {
        FilledTransactionV {
            spent_utxos: Seq::new(self.spent_utxos@.len(), |i: int| self.spent_utxos@[i]@),
            transaction: self.transaction@,
        }
    }
}

impl View for Body {
    type V = BodyV;

    open spec fn view(&self) -> BodyV {
        BodyV {
            coinbase: Seq::new(self.coinbase@.len(), |i: int| self.coinbase@[i]@),
            transactions: Seq::new(self.transactions@.len(), |i: int| self.transactions@[i]@),
        }
    }
}

impl View for Market {
    type V = MarketV;

    open spec fn view(&self) -> MarketV {
        MarketV {
            b: self.b,
            shape: self.shape@,
            decisions: self.decisions@,
            outcomes: self.outcomes@,
        }
    }
}

// ---------------------------------------------------------------------------
// Base value
// ---------------------------------------------------------------------------

impl ContentV {
    /// The face value a content contributes to input and output sums: the
    /// inner amount for ordinary money, zero for every market payload.
    pub open spec fn spec_get_value(self) -> u64 {
        match self {
            ContentV::Value(v) => v,
            ContentV::Custom(_) => 0u64,
        }
    }
}

impl Content {
    pub fn get_value(&self) -> (r: u64)
        ensures
            r == self@.spec_get_value(),
    {
        match self {
            Content::Value(v) => *v,
            Content::Custom(_) => 0u64,
        }
    }
}

impl HivemindContent {
    /// Market payloads carry no face value of their own.
    pub fn get_value(&self) -> (r: u64)
        ensures
            r == 0u64,
    {
        0u64
    }
}

impl Output {
    pub fn get_value(&self) -> (r: u64)
        ensures
            r == self@.content.spec_get_value(),
    {
        self.content.get_value()
    }
}

// ---------------------------------------------------------------------------
// Deep copies with known views
// ---------------------------------------------------------------------------

/// Copies a vector of outpoints; outpoints are plain scalars, so the view is
/// carried over exactly.
pub fn copy_outpoints(v: &Vec<OutPoint>) -> (r: Vec<OutPoint>)
    ensures
        r@ == v@,
{
    let mut r: Vec<OutPoint> = Vec::new();
    let mut i: usize = 0;
    while i < v.len()
        invariant
            i <= v.len(),
            r@ == v@.subrange(0, i as int),
        decreases v.len() - i,
    {
        r.push(v[i]);
        i = i + 1;
    }
    proof {
        assert(r@ == v@);
    }
    r
}

pub fn copy_u32s(v: &Vec<u32>) -> (r: Vec<u32>)
    ensures
        r@ == v@,
{
    let mut r: Vec<u32> = Vec::new();
    let mut i: usize = 0;
    while i < v.len()
        invariant
            i <= v.len(),
            r@ == v@.subrange(0, i as int),
        decreases v.len() - i,
    {
        r.push(v[i]);
        i = i + 1;
    }
    proof {
        assert(r@ == v@);
    }
    r
}

pub fn copy_outcomes(v: &Vec<Option<u32>>) -> (r: Vec<Option<u32>>)
    ensures
        r@ == v@,
{
    let mut r: Vec<Option<u32>> = Vec::new();
    let mut i: usize = 0;
    while i < v.len()
        invariant
            i <= v.len(),
            r@ == v@.subrange(0, i as int),
        decreases v.len() - i,
    {
        r.push(v[i]);
        i = i + 1;
    }
    proof {
        assert(r@ == v@);
    }
    r
}

pub fn copy_content(c: &Content) -> (r: Content)
    ensures
        r@ == c@,
{
    match c {
        Content::Value(v) => Content::Value(*v),
        Content::Custom(h) => Content::Custom(
            match h {
                HivemindContent::Resolution { decision, outcome } => {
                    HivemindContent::Resolution { decision: *decision, outcome: *outcome }
                },
                HivemindContent::Decision { query, size, resolvable_height } => {
                    HivemindContent::Decision {
                        query: *query,
                        size: *size,
                        resolvable_height: *resolvable_height,
                    }
                },
                HivemindContent::Market { b, decisions } => {
                    HivemindContent::Market { b: *b, decisions: copy_outpoints(decisions) }
                },
                HivemindContent::Position { market, share, value } => {
                    HivemindContent::Position {
                        market: *market,
                        share: copy_u32s(share),
                        value: *value,
                    }
                },
            },
        ),
    }
}

pub fn copy_output(o: &Output) -> (r: Output)
    ensures
        r@ == o@,
{
    Output { address: o.address, content: copy_content(&o.content) }
}

} // verus!
