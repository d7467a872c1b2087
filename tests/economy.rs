use bot_logic::economy::{
    confirmation_click, rank_accounts, rewarded_days, select_payouts, settle_remainder, ConfirmationOutcome, Economy,
    EconomyError, GamblingTable, Stake, UserAccount,
};
use bot_logic::format::{placement, table_name, Currency};

fn funded(users: &[(u64, u64)]) -> Economy {
    let mut e = Economy::new();
    for &(user, balance) in users {
        e.accounts.insert(user, UserAccount { balance, last_claim: None });
    }
    e
}

fn balance(e: &Economy, user: u64) -> u64 {
    e.accounts.get(&user).map(|a| a.balance).unwrap_or(0)
}

fn ledger_total(t: &GamblingTable) -> u64 {
    t.players.iter().map(|s| s.amount).sum()
}

#[test]
fn buy_in_moves_money_to_the_pot() {
    let mut e = funded(&[(10, 100), (20, 50)]);
    e.insert_table(1, GamblingTable::new(99, "Table".to_string(), 30));
    let t = e.buy_in(1, 20).unwrap();
    assert_eq!(t.pot, 30);
    assert_eq!(t.players, vec![Stake { user: 20, amount: 30 }]);
    e.buy_in(1, 10).unwrap();
    let t = e.buy_in(1, 10).unwrap();
    assert_eq!(t.pot, 90);
    assert_eq!(t.players, vec![Stake { user: 10, amount: 60 }, Stake { user: 20, amount: 30 }]);
    assert_eq!(ledger_total(&t), t.pot);
    assert_eq!(balance(&e, 10), 40);
    assert_eq!(balance(&e, 20), 20);
}

#[test]
fn buy_in_errors_change_nothing() {
    let mut e = funded(&[(10, 5)]);
    e.insert_table(1, GamblingTable::new(99, "Table".to_string(), 30));
    assert_eq!(e.buy_in(2, 10).unwrap_err(), EconomyError::NotFound);
    assert_eq!(e.buy_in(1, 10).unwrap_err(), EconomyError::InsufficientFunds { balance: 5 });
    assert_eq!(e.buy_in(1, 11).unwrap_err(), EconomyError::InsufficientFunds { balance: 0 });
    assert_eq!(balance(&e, 10), 5);
    assert!(e.accounts.get(&11).is_none());
    assert_eq!(e.tables.get(&1).unwrap().pot, 0);
}

#[test]
fn balance_covering_one_buy_in_buys_in_once() {
    let mut e = funded(&[(10, 30)]);
    e.insert_table(1, GamblingTable::new(99, "Table".to_string(), 30));
    let results: Vec<_> = (0..5).map(|_| e.buy_in(1, 10)).collect();
    assert_eq!(results.iter().filter(|r| r.is_ok()).count(), 1);
    for r in &results[1..] {
        assert_eq!(r.as_ref().unwrap_err(), &EconomyError::InsufficientFunds { balance: 0 });
    }
    assert_eq!(e.tables.get(&1).unwrap().pot, 30);
}

#[test]
fn buy_in_overflow_is_refused() {
    let mut e = funded(&[(10, u64::MAX)]);
    e.insert_table(1, GamblingTable::new(99, "Table".to_string(), u64::MAX));
    assert!(e.buy_in(1, 10).is_ok());
    e.accounts.insert(10, UserAccount { balance: u64::MAX, last_claim: None });
    assert_eq!(e.buy_in(1, 10).unwrap_err(), EconomyError::Overflow);
}

#[test]
fn partial_payout_keeps_table_open() {
    let mut e = funded(&[(10, 100), (20, 100)]);
    e.insert_table(1, GamblingTable::new(99, "Table".to_string(), 40));
    e.buy_in(1, 10).unwrap();
    e.buy_in(1, 20).unwrap();
    let t = e.apply_payout(1, &vec![(10, 40)]).unwrap();
    assert_eq!(t.pot, 40);
    assert_eq!(t.players, vec![Stake { user: 20, amount: 40 }]);
    assert_eq!(ledger_total(&t), t.pot);
    assert_eq!(balance(&e, 10), 100);
    assert!(e.tables.get(&1).is_some());
}

#[test]
fn full_payout_closes_table_once() {
    let mut e = funded(&[(10, 100), (20, 100)]);
    e.insert_table(1, GamblingTable::new(99, "Table".to_string(), 40));
    e.buy_in(1, 10).unwrap();
    e.buy_in(1, 20).unwrap();
    let t = e.apply_payout(1, &vec![(10, 70), (20, 10)]).unwrap();
    assert_eq!(t.pot, 0);
    assert!(t.players.is_empty());
    assert!(e.tables.get(&1).is_none());
    assert_eq!(balance(&e, 10), 130);
    assert_eq!(balance(&e, 20), 70);
    assert_eq!(e.apply_payout(1, &vec![(10, 70), (20, 10)]).unwrap_err(), EconomyError::NotFound);
    assert_eq!(balance(&e, 10), 130);
}

#[test]
fn payout_over_pot_is_refused() {
    let mut e = funded(&[(10, 100)]);
    e.insert_table(1, GamblingTable::new(99, "Table".to_string(), 40));
    e.buy_in(1, 10).unwrap();
    assert_eq!(e.apply_payout(1, &vec![(10, 41)]).unwrap_err(), EconomyError::PayoutExceedsPot { pot: 40 });
    assert_eq!(e.apply_payout(1, &vec![(10, u64::MAX), (10, 2)]).unwrap_err(), EconomyError::PayoutExceedsPot { pot: 40 });
    assert_eq!(balance(&e, 10), 60);
}

#[test]
fn payout_credit_overflow_is_refused() {
    let mut e = funded(&[(10, 100), (20, u64::MAX)]);
    e.insert_table(1, GamblingTable::new(99, "Table".to_string(), 40));
    e.buy_in(1, 10).unwrap();
    assert_eq!(e.apply_payout(1, &vec![(20, 40)]).unwrap_err(), EconomyError::Overflow);
    assert_eq!(e.tables.get(&1).unwrap().pot, 40);
}

#[test]
fn exact_pay_out_requires_whole_pot() {
    let mut e = funded(&[(10, 100)]);
    e.insert_table(1, GamblingTable::new(99, "Table".to_string(), 40));
    e.buy_in(1, 10).unwrap();
    assert_eq!(e.pay_out(1, &vec![(10, 39)]).unwrap_err(), EconomyError::PayoutMismatch { pot: 40 });
    let before = e.pay_out(1, &vec![(10, 40)]).unwrap();
    assert_eq!(before.pot, 40);
    assert!(e.tables.get(&1).is_none());
    assert_eq!(balance(&e, 10), 100);
    assert_eq!(e.pay_out(1, &vec![(10, 40)]).unwrap_err(), EconomyError::NotFound);
}

#[test]
fn timed_out_confirmation_changes_nothing() {
    let mut e = funded(&[(10, 100)]);
    e.insert_table(1, GamblingTable::new(99, "Table".to_string(), 40));
    e.buy_in(1, 10).unwrap();
    let payouts = vec![(10, 40)];
    assert!(e.finish_payout(1, &payouts, ConfirmationOutcome::TimedOut).unwrap().is_none());
    assert!(e.finish_payout(1, &payouts, ConfirmationOutcome::Cancelled).unwrap().is_none());
    let t = e.tables.get(&1).unwrap();
    assert_eq!(t.pot, 40);
    assert_eq!(t.players, vec![Stake { user: 10, amount: 40 }]);
    // a later operation on the same table goes through
    let closed = e.finish_payout(1, &payouts, ConfirmationOutcome::Confirmed).unwrap().unwrap();
    assert_eq!(closed.pot, 0);
}

#[test]
fn only_the_dealer_answers_the_confirmation() {
    assert_eq!(confirmation_click(5, 6, true), None);
    assert_eq!(confirmation_click(5, 5, true), Some(ConfirmationOutcome::Confirmed));
    assert_eq!(confirmation_click(5, 5, false), Some(ConfirmationOutcome::Cancelled));
}

#[test]
fn payout_gate_checks_dealer_and_players() {
    let mut e = funded(&[(10, 100)]);
    e.insert_table(1, GamblingTable::new(99, "Table".to_string(), 40));
    assert_eq!(e.table_for_payout(2, 99).unwrap_err(), EconomyError::NotFound);
    assert_eq!(e.table_for_payout(1, 10).unwrap_err(), EconomyError::Forbidden);
    assert_eq!(e.table_for_payout(1, 99).unwrap_err(), EconomyError::NoPlayers);
    e.buy_in(1, 10).unwrap();
    assert_eq!(e.table_for_payout(1, 99).unwrap().pot, 40);
}

#[test]
fn open_table_registers_an_empty_table() {
    let mut e = Economy::new();
    let id = e.open_table(3, table_name("Ann", Some("Poker")), 25).unwrap();
    let t = e.tables.get(&id).unwrap();
    assert_eq!(t.name, "Ann's Poker Table");
    assert_eq!(t.pot, 0);
    assert_eq!(t.dealer, 3);
    assert!(t.players.is_empty());
}

#[test]
fn remainder_goes_to_last_largest_payout() {
    let mut p = vec![(1, 33), (2, 33), (3, 10)];
    settle_remainder(&mut p, 80);
    assert_eq!(p, vec![(1, 33), (2, 37), (3, 10)]);
    let mut q = vec![(1, 0)];
    settle_remainder(&mut q, 9);
    assert_eq!(q, vec![(1, 9)]);
}

#[test]
fn income_is_claimed_once_per_day() {
    assert_eq!(rewarded_days(7, None, 100), 7);
    assert_eq!(rewarded_days(7, Some(98), 100), 2);
    assert_eq!(rewarded_days(7, Some(50), 100), 7);
    assert_eq!(rewarded_days(7, Some(101), 100), 0);

    let mut e = Economy::new();
    let (acct, income) = e.claim_income(4, true, 3, 10, 1_000).unwrap();
    assert_eq!(income, 30);
    assert_eq!(acct, UserAccount { balance: 30, last_claim: Some(1_000) });
    let (acct, income) = e.claim_income(5, false, 3, 10, 1_000).unwrap();
    assert_eq!(income, 30);
    assert_eq!(acct, UserAccount { balance: 0, last_claim: None });
    assert!(e.accounts.contains_key(&5));
    assert_eq!(e.claim_income(4, true, u32::MAX, u64::MAX, 1).unwrap_err(), EconomyError::Overflow);
}

#[test]
fn money_and_ranks_are_formatted() {
    let cur = Currency { symbol: "coins".to_string() };
    assert_eq!(cur.fmt(1234), "1234 coins");
    assert_eq!(cur.fmt(0), "0 coins");
    assert_eq!(placement(1), "🥇");
    assert_eq!(placement(2), "🥈");
    assert_eq!(placement(3), "🥉");
    assert_eq!(placement(12), "12.");
    assert_eq!(table_name("Bob", None), "Bob's Table");
}

#[test]
fn selected_players_are_paid_in_table_order() {
    let players = vec![Stake { user: 1, amount: 10 }, Stake { user: 2, amount: 10 }, Stake { user: 3, amount: 10 }];
    assert_eq!(select_payouts(&players, &vec![(3, 15), (1, 5), (9, 100)]), vec![(1, 5), (3, 15)]);
    assert_eq!(select_payouts(&players, &vec![]), vec![]);
}

#[test]
fn leaderboard_is_richest_first() {
    let ranked = rank_accounts(&vec![(1, 50), (2, 80), (3, 50), (4, 0), (5, 80)]);
    assert_eq!(ranked, vec![(2, 80), (5, 80), (1, 50), (3, 50), (4, 0)]);
    assert_eq!(rank_accounts(&vec![]), vec![]);
}

#[test]
fn member_involvement() {
    let mut e = funded(&[(10, 100)]);
    e.insert_table(1, GamblingTable::new(99, "Table".to_string(), 40));
    e.buy_in(1, 10).unwrap();
    let t = e.tables.get(&1).unwrap();
    assert!(t.involves(99));
    assert!(t.involves(10));
    assert!(!t.involves(11));
}

#[test]
fn table_lookup() {
    let mut e = Economy::new();
    e.insert_table(1, GamblingTable::new(99, "Table".to_string(), 40));
    assert_eq!(e.table(1).unwrap().buyin, 40);
    assert_eq!(e.table(2).unwrap_err(), EconomyError::NotFound);
}

#[test]
fn paying_less_than_a_stake_is_refused() {
    let mut e = funded(&[(2, 10)]);
    e.insert_table(1, GamblingTable::new(99, "Table".to_string(), 10));
    e.buy_in(1, 2).unwrap();
    assert_eq!(
        e.apply_payout(1, &vec![(2, 5)]).unwrap_err(),
        EconomyError::InvariantViolation { remaining_pot: 5 }
    );
    let t = e.tables.get(&1).unwrap();
    assert_eq!(t.pot, 10);
    assert_eq!(t.players, vec![Stake { user: 2, amount: 10 }]);
    assert_eq!(balance(&e, 2), 0);
}

#[test]
fn paid_players_may_share_their_stakes() {
    let mut e = funded(&[(1, 10), (2, 10), (3, 10)]);
    e.insert_table(1, GamblingTable::new(99, "Table".to_string(), 10));
    for u in 1..=3 {
        e.buy_in(1, u).unwrap();
    }
    let t = e.apply_payout(1, &vec![(1, 20), (2, 0)]).unwrap();
    assert_eq!(t.pot, 10);
    assert_eq!(t.players, vec![Stake { user: 3, amount: 10 }]);
    assert_eq!(ledger_total(&t), t.pot);
    assert_eq!(balance(&e, 1), 20);
    // the winner may also take the pot of players who stay
    let t = e.apply_payout(1, &vec![(1, 10)]).unwrap();
    assert_eq!(t.pot, 0);
    assert!(e.tables.get(&1).is_none());
}

#[test]
fn opening_a_table_under_a_taken_id_changes_nothing() {
    let mut e = Economy::new();
    assert_eq!(e.open_table_with_id(7, 3, "A".to_string(), 25), Ok(7));
    assert_eq!(e.open_table_with_id(7, 4, "B".to_string(), 50), Err(EconomyError::IdInUse));
    let t = e.tables.get(&7).unwrap();
    assert_eq!((t.dealer, t.buyin, t.name.as_str()), (3, 25, "A"));
    assert_eq!(e.tables.len(), 1);
}
