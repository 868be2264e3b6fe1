use ledger::codec::encode_tx;
use ledger::store::LedgerError;
use ledger::store::State;
use ledger::tx::Transaction;

fn tx(from: &str, to: &str, value: u64) -> Transaction {
    Transaction::new(String::from(from), String::from(to), value)
}

fn balance(st: &State, addr: &str) -> Option<u64> {
    st.balance_of(&String::from(addr))
}

fn fresh() -> State {
    State::new(&vec![]).expect("an empty log must replay")
}

#[test]
fn fresh_store_has_only_genesis() {
    let st = fresh();
    assert_eq!(balance(&st, "GENESIS"), Some(1_000_000_000));
    assert_eq!(balance(&st, "ABC"), None);
    assert_eq!(st.mempool_len(), 0);
    let list = st.balances_list();
    assert_eq!(list.len(), 1);
    assert_eq!(list[0].0, "GENESIS");
    assert_eq!(list[0].1, 1_000_000_000);
}

#[test]
fn scenario_add_save_replay() {
    let mut st = fresh();
    st.add(tx("GENESIS", "ABC", 1000)).expect("genesis covers it");
    assert_eq!(balance(&st, "GENESIS"), Some(999_999_000));
    assert_eq!(balance(&st, "ABC"), Some(1000));
    let lines = st.save();
    assert_eq!(lines.len(), 1);
    assert_eq!(lines[0], "{\"from\":\"GENESIS\",\"to\":\"ABC\",\"value\":1000}");
    assert_eq!(st.mempool_len(), 0);
    let st2 = State::new(&lines).expect("own log must replay");
    assert_eq!(balance(&st2, "GENESIS"), Some(999_999_000));
    assert_eq!(balance(&st2, "ABC"), Some(1000));
}

#[test]
fn scenario_unknown_sender_rejected() {
    let mut st = fresh();
    let r = st.add(tx("ABC", "DEF", 500));
    assert_eq!(r, Err(LedgerError::InsufficientBalance));
    assert_eq!(balance(&st, "GENESIS"), Some(1_000_000_000));
    assert_eq!(balance(&st, "ABC"), None);
    assert_eq!(balance(&st, "DEF"), None);
    assert_eq!(st.mempool_len(), 0);
}

#[test]
fn low_balance_rejected_and_state_unchanged() {
    let mut st = fresh();
    st.add(tx("GENESIS", "ABC", 1000)).expect("genesis covers it");
    let before = st.balances_list();
    let pending = st.mempool_len();
    let r = st.add(tx("ABC", "DEF", 2000));
    assert_eq!(r, Err(LedgerError::InsufficientBalance));
    let after = st.balances_list();
    assert_eq!(before.len(), after.len());
    for (b, a) in before.iter().zip(after.iter()) {
        assert_eq!(b, a);
    }
    assert_eq!(st.mempool_len(), pending);
}

#[test]
fn exact_balance_spends_to_zero_entry() {
    let mut st = fresh();
    st.add(tx("GENESIS", "ABC", 1000)).expect("genesis covers it");
    st.add(tx("ABC", "DEF", 1000)).expect("exactly covered");
    // ABC keeps an entry, now holding zero — an entry is not a balance
    assert_eq!(balance(&st, "ABC"), Some(0));
    assert_eq!(balance(&st, "DEF"), Some(1000));
    // a zero-holding entry may still send nothing, but not more
    st.add(tx("ABC", "DEF", 0)).expect("zero transfer from zero");
    assert_eq!(st.add(tx("ABC", "DEF", 1)), Err(LedgerError::InsufficientBalance));
}

#[test]
fn self_transfer_and_zero_value_are_permitted() {
    let mut st = fresh();
    st.add(tx("GENESIS", "GENESIS", 5)).expect("self transfer");
    assert_eq!(balance(&st, "GENESIS"), Some(1_000_000_000));
    st.add(tx("GENESIS", "ABC", 0)).expect("zero transfer");
    assert_eq!(balance(&st, "ABC"), Some(0));
    // both still count as logged transactions
    assert_eq!(st.mempool_len(), 2);
}

#[test]
fn conservation_of_total_value() {
    let mut st = fresh();
    st.add(tx("GENESIS", "ABC", 1000)).expect("covered");
    st.add(tx("ABC", "DEF", 500)).expect("covered");
    st.add(tx("DEF", "GHI", 250)).expect("covered");
    st.add(tx("GHI", "ABC", 125)).expect("covered");
    let total: u64 = st.balances_list().iter().map(|p| p.1).sum();
    assert_eq!(total, 1_000_000_000);
}

#[test]
fn save_drains_in_fifo_order() {
    let mut st = fresh();
    let t1 = tx("GENESIS", "ABC", 1000);
    let t2 = tx("ABC", "DEF", 500);
    let t3 = tx("GENESIS", "GENESIS", 0);
    st.add(t1.clone()).expect("covered");
    st.add(t2.clone()).expect("covered");
    st.add(t3.clone()).expect("covered");
    assert_eq!(st.mempool_len(), 3);
    let lines = st.save();
    assert_eq!(lines.len(), 3);
    assert_eq!(lines[0], encode_tx(&t1));
    assert_eq!(lines[1], encode_tx(&t2));
    assert_eq!(lines[2], encode_tx(&t3));
    assert_eq!(st.mempool_len(), 0);
    // a second save has nothing left to hand out
    assert_eq!(st.save().len(), 0);
}

#[test]
fn front_line_and_drop_front_walk_the_queue() {
    let mut st = fresh();
    let t1 = tx("GENESIS", "ABC", 1);
    let t2 = tx("GENESIS", "DEF", 2);
    st.add(t1.clone()).expect("covered");
    st.add(t2.clone()).expect("covered");
    assert_eq!(st.front_line(), Some(encode_tx(&t1)));
    st.drop_front();
    assert_eq!(st.front_line(), Some(encode_tx(&t2)));
    st.drop_front();
    assert_eq!(st.front_line(), None);
    // the balances were never touched by draining
    assert_eq!(balance(&st, "ABC"), Some(1));
    assert_eq!(balance(&st, "DEF"), Some(2));
}

#[test]
fn replay_is_deterministic_across_restarts() {
    let mut st = fresh();
    st.add(tx("GENESIS", "ABC", 1000)).expect("covered");
    st.add(tx("ABC", "DEF", 500)).expect("covered");
    let lines = st.save();
    let a = State::new(&lines).expect("own log must replay");
    let b = State::new(&lines).expect("own log must replay");
    let la = a.balances_list();
    let lb = b.balances_list();
    assert_eq!(la.len(), lb.len());
    for (x, y) in la.iter().zip(lb.iter()) {
        assert_eq!(x, y);
    }
    assert_eq!(balance(&a, "GENESIS"), Some(999_999_000));
    assert_eq!(balance(&a, "ABC"), Some(500));
    assert_eq!(balance(&a, "DEF"), Some(500));
}

#[test]
fn replay_appends_after_existing_content() {
    let mut st = fresh();
    st.add(tx("GENESIS", "ABC", 1000)).expect("covered");
    let mut log = st.save();
    let mut st2 = State::new(&log).expect("own log must replay");
    st2.add(tx("ABC", "DEF", 250)).expect("covered");
    log.extend(st2.save());
    let st3 = State::new(&log).expect("own log must replay");
    assert_eq!(balance(&st3, "GENESIS"), Some(999_999_000));
    assert_eq!(balance(&st3, "ABC"), Some(750));
    assert_eq!(balance(&st3, "DEF"), Some(250));
}

#[test]
fn corrupt_line_aborts_startup() {
    let r = State::new(&vec![String::from("garbage")]);
    assert_eq!(r.err(), Some(LedgerError::CorruptLog));
    let r = State::new(&vec![
        String::from("{\"from\":\"GENESIS\",\"to\":\"ABC\",\"value\":1000}"),
        String::from("{\"from\":\"GENESIS\""),
    ]);
    assert_eq!(r.err(), Some(LedgerError::CorruptLog));
}

#[test]
fn unpayable_logged_transaction_aborts_startup() {
    let r = State::new(&vec![String::from(
        "{\"from\":\"ABC\",\"to\":\"DEF\",\"value\":500}",
    )]);
    assert_eq!(r.err(), Some(LedgerError::InsufficientBalance));
}

#[test]
fn empty_lines_are_passed_over() {
    let st = State::new(&vec![
        String::from(""),
        String::from("{\"from\":\"GENESIS\",\"to\":\"ABC\",\"value\":7}"),
        String::from(""),
    ])
    .expect("empty lines are no records");
    assert_eq!(balance(&st, "ABC"), Some(7));
}

#[test]
fn crediting_genesis_from_the_log_is_additive() {
    // a logged transfer back to the genesis account simply credits it
    let st = State::new(&vec![
        String::from("{\"from\":\"GENESIS\",\"to\":\"ABC\",\"value\":10}"),
        String::from("{\"from\":\"ABC\",\"to\":\"GENESIS\",\"value\":4}"),
    ])
    .expect("both lines replay");
    assert_eq!(balance(&st, "GENESIS"), Some(999_999_994));
    assert_eq!(balance(&st, "ABC"), Some(6));
}
