use hivemind_state::content::Body;
use hivemind_state::content::Content;
use hivemind_state::content::Hash256;
use hivemind_state::content::HivemindContent;
use hivemind_state::content::OutPoint;
use hivemind_state::content::Output;
use hivemind_state::content::Transaction;
use hivemind_state::state::Error;
use hivemind_state::state::State;

fn h(n: u64) -> Hash256 {
    Hash256 { w0: n, w1: 0, w2: 0, w3: 0 }
}

fn op(n: u64, vout: u32) -> OutPoint {
    OutPoint::Regular { txid: h(n), vout }
}

fn value_output(amount: u64) -> Output {
    Output { address: h(7), content: Content::Value(amount) }
}

fn decision_output(size: u32, resolvable_height: u32) -> Output {
    Output {
        address: h(7),
        content: Content::Custom(HivemindContent::Decision {
            query: h(42),
            size,
            resolvable_height,
        }),
    }
}

fn market_output(b: u64, decisions: Vec<OutPoint>) -> Output {
    Output { address: h(7), content: Content::Custom(HivemindContent::Market { b, decisions }) }
}

fn position_output(market: OutPoint, share: Vec<u32>, value: u64) -> Output {
    Output {
        address: h(7),
        content: Content::Custom(HivemindContent::Position { market, share, value }),
    }
}

fn resolution_output(decision: OutPoint, outcome: u32) -> Output {
    Output {
        address: h(7),
        content: Content::Custom(HivemindContent::Resolution { decision, outcome }),
    }
}

/// A binary market funded at its creation charge: the block connects, the
/// market's record holds shape [2], and its state vector starts at zero.
#[test]
fn binary_market_single_creation() {
    let mut state = State::new();
    let d = op(1, 0);
    state.put_utxo(d, decision_output(2, 100));
    let funding = op(2, 0);
    // b * ln 2 at b = 10^8 truncates to 69_314_718.
    state.put_utxo(funding, value_output(69_314_719));
    let tx = Transaction {
        inputs: vec![funding],
        outputs: vec![market_output(100_000_000, vec![d])],
    };
    let body = Body { coinbase: vec![], transactions: vec![tx] };
    assert!(state.validate_body(&body).is_ok());
    assert!(state.connect_body(&body, &vec![h(10)]).is_ok());
    let m = OutPoint::Regular { txid: h(10), vout: 0 };
    let record = state.get_market(&m).expect("market record");
    assert_eq!(record.shape, vec![2]);
    assert_eq!(record.outcomes, vec![None]);
    let vector = state.get_vector(&m).expect("market vector");
    assert_eq!(vector.clone(), vec![0i128, 0i128]);
    let positions = state.get_positions(&m).expect("positions index");
    assert!(positions.is_empty());
}

/// The exact funding charge: one unit less than `trunc(b * ln 2)` in value
/// is rejected for not covering the market creation charge.
#[test]
fn market_creation_underfunded() {
    let mut state = State::new();
    let d = op(1, 0);
    state.put_utxo(d, decision_output(2, 100));
    let funding = op(2, 0);
    state.put_utxo(funding, value_output(69_314_717));
    let tx = Transaction {
        inputs: vec![funding],
        outputs: vec![market_output(100_000_000, vec![d])],
    };
    let filled = state.fill_transaction(&tx).expect("fill");
    assert_eq!(state.validate_transaction(&filled, 10), Err(Error::NotEnoughValueIn));
}

fn state_with_market() -> (State, OutPoint, OutPoint) {
    let mut state = State::new();
    let d = op(1, 0);
    state.put_utxo(d, decision_output(2, 100));
    let funding = op(2, 0);
    state.put_utxo(funding, value_output(69_314_719));
    let tx = Transaction {
        inputs: vec![funding],
        outputs: vec![market_output(100_000_000, vec![d])],
    };
    let body = Body { coinbase: vec![], transactions: vec![tx] };
    state.connect_body(&body, &vec![h(10)]).expect("connect market");
    (state, OutPoint::Regular { txid: h(10), vout: 0 }, d)
}

/// Buying the first coordinate: the trade validates while the input value
/// covers the scoring-rule cost, and connecting moves the market vector.
#[test]
fn buy_share_zero() {
    let (mut state, m, _d) = state_with_market();
    let coins = op(3, 0);
    state.put_utxo(coins, value_output(10_000_000));
    let tx = Transaction {
        inputs: vec![coins],
        outputs: vec![position_output(m, vec![0], 10_000_000)],
    };
    let filled = state.fill_transaction(&tx).expect("fill");
    assert!(state.validate_transaction(&filled, 11).is_ok());
    let body = Body { coinbase: vec![], transactions: vec![tx] };
    state.connect_body(&body, &vec![h(11)]).expect("connect buy");
    let vector = state.get_vector(&m).expect("vector");
    assert_eq!(vector.clone(), vec![10_000_000i128, 0i128]);
    let p = OutPoint::Regular { txid: h(11), vout: 0 };
    let positions = state.get_positions(&m).expect("index");
    assert_eq!(positions.clone(), vec![p]);
}

/// A buy and a sell of the same coordinate and value in one transaction
/// cancel: validation passes and the vector is unchanged after connecting.
#[test]
fn self_cancelling_trade() {
    let (mut state, m, _d) = state_with_market();
    // First create a position to sell later.
    let coins = op(3, 0);
    state.put_utxo(coins, value_output(10_000_000));
    let buy = Transaction {
        inputs: vec![coins],
        outputs: vec![position_output(m, vec![0], 10_000_000)],
    };
    let body = Body { coinbase: vec![], transactions: vec![buy] };
    state.connect_body(&body, &vec![h(11)]).expect("connect buy");
    let pos = OutPoint::Regular { txid: h(11), vout: 0 };
    let before = state.get_vector(&m).expect("vector").clone();
    // Now spend the position and recreate it in the same transaction.
    let churn = Transaction {
        inputs: vec![pos],
        outputs: vec![position_output(m, vec![0], 10_000_000)],
    };
    let filled = state.fill_transaction(&churn).expect("fill");
    let fee = state.validate_transaction(&filled, 12).expect("validate");
    assert_eq!(fee, 0);
    let body2 = Body { coinbase: vec![], transactions: vec![churn] };
    state.connect_body(&body2, &vec![h(12)]).expect("connect churn");
    let after = state.get_vector(&m).expect("vector").clone();
    assert_eq!(before, after);
}

/// Two transactions in one block sharing an input are a double spend.
#[test]
fn double_spend_in_block() {
    let mut state = State::new();
    let coins = op(3, 0);
    state.put_utxo(coins, value_output(1000));
    let t1 = Transaction { inputs: vec![coins], outputs: vec![value_output(100)] };
    let t2 = Transaction { inputs: vec![coins], outputs: vec![value_output(200)] };
    let body = Body { coinbase: vec![], transactions: vec![t1, t2] };
    assert_eq!(state.validate_body(&body), Err(Error::UtxoDoubleSpent { outpoint: coins }));
}

/// A decision spent before its resolvable height is rejected; at the
/// resolvable height, spending it alongside a matching resolution passes.
#[test]
fn decision_spent_early_then_resolved() {
    let mut state = State::new();
    let d = op(1, 0);
    state.put_utxo(d, decision_output(2, 100));
    let early = Transaction { inputs: vec![d], outputs: vec![] };
    let filled = state.fill_transaction(&early).expect("fill");
    assert_eq!(state.validate_transaction(&filled, 50), Err(Error::DecisionSpentEarly));

    let r = op(4, 0);
    state.put_utxo(r, resolution_output(d, 1));
    let resolved = Transaction { inputs: vec![d, r], outputs: vec![] };
    let filled2 = state.fill_transaction(&resolved).expect("fill");
    assert!(state.validate_transaction(&filled2, 100).is_ok());
}

/// A decision spent at its resolvable height without a matching resolution
/// in the same transaction is rejected.
#[test]
fn decision_spent_without_resolution() {
    let mut state = State::new();
    let d = op(1, 0);
    state.put_utxo(d, decision_output(2, 100));
    let tx = Transaction { inputs: vec![d], outputs: vec![] };
    let filled = state.fill_transaction(&tx).expect("fill");
    assert_eq!(
        state.validate_transaction(&filled, 150),
        Err(Error::DecisionSpentWithoutResolution)
    );
}

/// A block whose resolution decides the market pays winning positions out
/// as plain money and prunes the losing ones, along with the market's
/// record, vector, and index.
#[test]
fn resolution_pays_winners() {
    let (mut state, m, d) = state_with_market();
    let coins0 = op(3, 0);
    let coins1 = op(4, 0);
    state.put_utxo(coins0, value_output(10_000_000));
    state.put_utxo(coins1, value_output(10_000_000));
    let buy0 = Transaction {
        inputs: vec![coins0],
        outputs: vec![position_output(m, vec![0], 5_000_000)],
    };
    let buy1 = Transaction {
        inputs: vec![coins1],
        outputs: vec![position_output(m, vec![1], 5_000_000)],
    };
    let body = Body { coinbase: vec![], transactions: vec![buy0, buy1] };
    state.connect_body(&body, &vec![h(20), h(21)]).expect("connect buys");
    let winner = OutPoint::Regular { txid: h(20), vout: 0 };
    let loser = OutPoint::Regular { txid: h(21), vout: 0 };

    let coins2 = op(5, 0);
    state.put_utxo(coins2, value_output(1000));
    let resolve = Transaction {
        inputs: vec![coins2],
        outputs: vec![resolution_output(d, 0)],
    };
    let body2 = Body { coinbase: vec![], transactions: vec![resolve] };
    state.connect_body(&body2, &vec![h(22)]).expect("connect resolution");

    match &state.get_utxo(&winner).expect("winner survives").content {
        Content::Value(v) => assert_eq!(*v, 5_000_000),
        _ => panic!("winning position was not rewritten to plain value"),
    }
    assert!(state.get_utxo(&loser).is_none());
    assert!(state.get_market(&m).is_none());
    assert!(state.get_vector(&m).is_none());
    assert!(state.get_positions(&m).is_none());
}

/// Coinbase value above the block's accumulated fees is rejected.
#[test]
fn coinbase_exceeds_fees() {
    let state = State::new();
    let body = Body { coinbase: vec![value_output(1000)], transactions: vec![] };
    assert_eq!(state.validate_body(&body), Err(Error::NotEnoughFeeValue));
}

/// Creating more value than is spent violates conservation.
#[test]
fn not_enough_value_in() {
    let mut state = State::new();
    let coins = op(3, 0);
    state.put_utxo(coins, value_output(10));
    let tx = Transaction { inputs: vec![coins], outputs: vec![value_output(20)] };
    let filled = state.fill_transaction(&tx).expect("fill");
    assert_eq!(state.validate_transaction(&filled, 1), Err(Error::NotEnoughValueIn));
}

/// An input that references nothing cannot be filled.
#[test]
fn missing_utxo() {
    let state = State::new();
    let tx = Transaction { inputs: vec![op(9, 0)], outputs: vec![] };
    assert_eq!(
        state.fill_transaction(&tx).err(),
        Some(Error::NoUtxo { outpoint: op(9, 0) })
    );
}

/// A market resting on something that is no decision is rejected.
#[test]
fn market_over_non_decision() {
    let mut state = State::new();
    let v = op(1, 0);
    state.put_utxo(v, value_output(5));
    let coins = op(2, 0);
    state.put_utxo(coins, value_output(1_000_000_000));
    let tx = Transaction {
        inputs: vec![coins],
        outputs: vec![market_output(100, vec![v])],
    };
    let filled = state.fill_transaction(&tx).expect("fill");
    assert_eq!(
        state.validate_transaction(&filled, 1),
        Err(Error::InvalidOutPoint { outpoint: v })
    );
}

/// Creating a market over a decision that is already resolvable is
/// rejected.
#[test]
fn market_using_resolvable_decision() {
    let mut state = State::new();
    let d = op(1, 0);
    state.put_utxo(d, decision_output(2, 100));
    let coins = op(2, 0);
    state.put_utxo(coins, value_output(1_000_000_000));
    let tx = Transaction {
        inputs: vec![coins],
        outputs: vec![market_output(100, vec![d])],
    };
    let filled = state.fill_transaction(&tx).expect("fill");
    assert_eq!(
        state.validate_transaction(&filled, 200),
        Err(Error::MarketUsingResolvableDecision)
    );
}

/// Input values that overflow 64 bits are reported, not wrapped.
#[test]
fn input_value_overflow() {
    let mut state = State::new();
    let a = op(1, 0);
    let b = op(2, 0);
    state.put_utxo(a, value_output(u64::MAX));
    state.put_utxo(b, value_output(1));
    let tx = Transaction { inputs: vec![a, b], outputs: vec![] };
    let filled = state.fill_transaction(&tx).expect("fill");
    match state.validate_transaction(&filled, 1) {
        Err(Error::U64Overflow { .. }) => {},
        other => panic!("expected an overflow error, got {:?}", other),
    }
}

/// A connected block fails atomically: when one transaction cannot be
/// applied, the state is left untouched.
#[test]
fn connect_is_atomic() {
    let mut state = State::new();
    let coins = op(3, 0);
    state.put_utxo(coins, value_output(1000));
    let good = Transaction { inputs: vec![coins], outputs: vec![value_output(100)] };
    let bad = Transaction { inputs: vec![op(9, 9)], outputs: vec![] };
    let body = Body { coinbase: vec![], transactions: vec![good, bad] };
    let r = state.connect_body(&body, &vec![h(30), h(31)]);
    assert_eq!(r, Err(Error::NoUtxo { outpoint: op(9, 9) }));
    // The first transaction's effects were rolled back with the block.
    assert!(state.get_utxo(&coins).is_some());
    assert!(state.get_utxo(&OutPoint::Regular { txid: h(30), vout: 0 }).is_none());
}

/// Monetary amounts survive the round trip through the decimal domain.
#[test]
fn decimal_round_trip() {
    for x in [0u64, 1, 2, 69_314_718, 10_000_000, u64::MAX] {
        let d = hivemind_state::dec::dec_from_u64(x);
        assert_eq!(hivemind_state::dec::dec_to_u64(&d), Some(x));
    }
}

/// The flat index is the row-major mixed-radix encoding.
#[test]
fn flat_index_row_major() {
    let mut state = State::new();
    let d0 = op(1, 0);
    let d1 = op(1, 1);
    state.put_utxo(d0, decision_output(2, 100));
    state.put_utxo(d1, decision_output(3, 100));
    let coins = op(2, 0);
    state.put_utxo(coins, value_output(1_000_000_000));
    let tx = Transaction {
        inputs: vec![coins],
        outputs: vec![market_output(1000, vec![d0, d1])],
    };
    let body = Body { coinbase: vec![], transactions: vec![tx] };
    state.connect_body(&body, &vec![h(40)]).expect("connect market");
    let m = OutPoint::Regular { txid: h(40), vout: 0 };
    assert_eq!(state.get_size(&m), Ok(6));
    assert_eq!(state.share_to_flat_index(&m, &vec![0, 0]), Ok(0));
    assert_eq!(state.share_to_flat_index(&m, &vec![0, 2]), Ok(2));
    assert_eq!(state.share_to_flat_index(&m, &vec![1, 0]), Ok(3));
    assert_eq!(state.share_to_flat_index(&m, &vec![1, 2]), Ok(5));
    assert_eq!(
        state.share_to_flat_index(&m, &vec![2, 0]),
        Err(Error::InvalidOutPoint { outpoint: m })
    );
    assert_eq!(
        state.share_to_flat_index(&m, &vec![0]),
        Err(Error::InvalidOutPoint { outpoint: m })
    );
}

/// The cost function is positive on the zero state of a funded market, so
/// the decimal pipeline — scaling, division, exponential, logarithm — is
/// really computing.
#[test]
fn lmsr_cost_on_zero_state() {
    let b = hivemind_state::dec::dec_from_u64(100_000_000);
    let zero = hivemind_state::dec::dec_from_u64(0);
    let state_vec = vec![zero, zero];
    let cost = hivemind_state::lmsr::lmsr_cost(&b, &state_vec).expect("cost");
    assert!(cost.mantissa > 0);
}

/// Spending a position removes it from its market's index and the delta
/// walks the vector back down.
#[test]
fn position_spend_updates_index() {
    let (mut state, m, _d) = state_with_market();
    let coins = op(3, 0);
    state.put_utxo(coins, value_output(10_000_000));
    let buy = Transaction {
        inputs: vec![coins],
        outputs: vec![position_output(m, vec![0], 10_000_000)],
    };
    let body = Body { coinbase: vec![], transactions: vec![buy] };
    state.connect_body(&body, &vec![h(11)]).expect("connect buy");
    let pos = OutPoint::Regular { txid: h(11), vout: 0 };
    assert_eq!(state.get_positions(&m).expect("index").clone(), vec![pos]);

    let sell = Transaction { inputs: vec![pos], outputs: vec![] };
    let body2 = Body { coinbase: vec![], transactions: vec![sell] };
    state.connect_body(&body2, &vec![h(12)]).expect("connect sell");
    assert!(state.get_utxo(&pos).is_none());
    assert!(state.get_positions(&m).expect("index").is_empty());
    assert_eq!(state.get_vector(&m).expect("vector").clone(), vec![0i128, 0i128]);
}

/// Recorded outcomes persist: a decision resolved in an earlier block stays
/// resolved through later blocks, and a market whose decisions are decided
/// across different blocks resolves once the last one lands.
#[test]
fn outcomes_persist_across_blocks() {
    let mut state = State::new();
    let d0 = op(1, 0);
    let d1 = op(1, 1);
    state.put_utxo(d0, decision_output(2, 100));
    state.put_utxo(d1, decision_output(2, 100));
    let funding = op(2, 0);
    state.put_utxo(funding, value_output(1_000_000_000));
    let create = Transaction {
        inputs: vec![funding],
        outputs: vec![market_output(1000, vec![d0, d1])],
    };
    let body = Body { coinbase: vec![], transactions: vec![create] };
    state.connect_body(&body, &vec![h(10)]).expect("connect market");
    let m = OutPoint::Regular { txid: h(10), vout: 0 };

    let coins = op(3, 0);
    state.put_utxo(coins, value_output(5_000_000));
    let buy = Transaction {
        inputs: vec![coins],
        outputs: vec![position_output(m, vec![0, 1], 5_000_000)],
    };
    let body = Body { coinbase: vec![], transactions: vec![buy] };
    state.connect_body(&body, &vec![h(11)]).expect("connect buy");
    let pos = OutPoint::Regular { txid: h(11), vout: 0 };

    // First block resolves only the first decision.
    let coins2 = op(4, 0);
    state.put_utxo(coins2, value_output(10));
    let resolve0 = Transaction {
        inputs: vec![coins2],
        outputs: vec![resolution_output(d0, 0)],
    };
    let body = Body { coinbase: vec![], transactions: vec![resolve0] };
    state.connect_body(&body, &vec![h(12)]).expect("connect first resolution");
    assert_eq!(state.get_market(&m).expect("record").outcomes, vec![Some(0), None]);

    // An empty block changes nothing: the recorded outcome stays.
    let empty = Body { coinbase: vec![], transactions: vec![] };
    state.connect_body(&empty, &vec![]).expect("connect empty block");
    assert_eq!(state.get_market(&m).expect("record").outcomes, vec![Some(0), None]);

    // A later block resolves the second decision; the market resolves on
    // the merged outcomes and pays the winning position.
    let coins3 = op(5, 0);
    state.put_utxo(coins3, value_output(10));
    let resolve1 = Transaction {
        inputs: vec![coins3],
        outputs: vec![resolution_output(d1, 1)],
    };
    let body = Body { coinbase: vec![], transactions: vec![resolve1] };
    state.connect_body(&body, &vec![h(13)]).expect("connect second resolution");
    assert!(state.get_market(&m).is_none());
    match &state.get_utxo(&pos).expect("winner survives").content {
        Content::Value(v) => assert_eq!(*v, 5_000_000),
        _ => panic!("winning position was not rewritten to plain value"),
    }
}

/// The run-time auditor accepts states the engine built and rejects a
/// corrupted one.
#[test]
fn state_auditor() {
    let (mut state, m, _d) = state_with_market();
    assert!(state.check_inv());
    let coins = op(3, 0);
    state.put_utxo(coins, value_output(10_000_000));
    let buy = Transaction {
        inputs: vec![coins],
        outputs: vec![position_output(m, vec![0], 10_000_000)],
    };
    let body = Body { coinbase: vec![], transactions: vec![buy] };
    state.connect_body(&body, &vec![h(11)]).expect("connect buy");
    assert!(state.check_inv());

    // A position smuggled into the UTXO table without an index entry is
    // caught.
    let rogue = op(9, 9);
    state.utxos.entries.push((rogue, position_output(m, vec![1], 5)));
    assert!(!state.check_inv());
}

/// The market's record carries its liquidity parameter, so trades still
/// price after the market's own UTXO is spent; the record, vector and
/// index are retired only by resolution.
#[test]
fn market_outlives_its_utxo() {
    let (mut state, m, _d) = state_with_market();
    let spend_market = Transaction { inputs: vec![m], outputs: vec![] };
    let body = Body { coinbase: vec![], transactions: vec![spend_market] };
    state.connect_body(&body, &vec![h(11)]).expect("spend market output");
    assert!(state.get_utxo(&m).is_none());
    assert!(state.get_market(&m).is_some());

    let coins = op(3, 0);
    state.put_utxo(coins, value_output(10_000_000));
    let buy = Transaction {
        inputs: vec![coins],
        outputs: vec![position_output(m, vec![0], 10_000_000)],
    };
    let filled = state.fill_transaction(&buy).expect("fill");
    assert!(state.validate_transaction(&filled, 12).is_ok());
    let body2 = Body { coinbase: vec![], transactions: vec![buy] };
    state.connect_body(&body2, &vec![h(12)]).expect("connect buy");
    assert_eq!(state.get_vector(&m).expect("vector").clone(), vec![10_000_000i128, 0i128]);
}
