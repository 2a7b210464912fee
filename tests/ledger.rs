use koi_ledger::accrual::{arrival_of, exponent_of, interest_of, unlock_of, MS_PER_YEAR, NEGLIGIBLE};
use koi_ledger::ledger::{split_pool, Ledger, LedgerError, LOTTERY_PAYOUT};
use koi_ledger::model::{Account, Rates, ISSUER, TOTAL_SUPPLY, UNIT};

const T0: u64 = 1_700_000_000_000;
const BOB: usize = 2;
const CAROL: usize = 3;
const LOTTERY: usize = 6;

fn roster(n: usize) -> Vec<String> {
    let named = ["Koi", "Alice", "Bob", "Carol", "Dan", "Eve", "Millionaire"];
    (0..n)
        .map(|i| if i < named.len() { named[i].to_string() } else { format!("W{:05}", i) })
        .collect()
}

fn rates() -> Rates {
    Rates { interest_ppb: 370_370_370, vesting_ppb: 500_000_000, reserve_scaled: true, phased_deposits: false }
}

fn ledger(seed: u64) -> Ledger {
    Ledger::new(roster(7), LOTTERY, rates(), seed, T0)
}

fn holdings(a: &Account) -> u64 {
    a.balance + a.locked + a.vested
}

fn total_held(l: &Ledger) -> u64 {
    (0..l.len()).map(|i| holdings(&l.account(i))).sum()
}

fn same_account(a: &Account, b: &Account) -> bool {
    a.balance == b.balance
        && a.locked == b.locked
        && a.vested == b.vested
        && a.sent == b.sent
        && a.last_settled == b.last_settled
}

fn same_accounts(l: &Ledger, before: &[Account]) -> bool {
    (0..l.len()).all(|i| same_account(&l.account(i), &before[i]))
}

fn accounts(l: &Ledger) -> Vec<Account> {
    (0..l.len()).map(|i| l.account(i)).collect()
}

fn rel_close(got: f64, want: f64, tol: f64) -> bool {
    ((got - want) / want).abs() <= tol
}

/// Gives `who` a spendable balance of exactly `units` coins and nothing
/// locked: a gift of 6/5 of it, then an early claim of all that may be
/// claimed, whose penalty empties the locked funds.
fn fund_spendable(l: &mut Ledger, who: usize, units: u64) {
    let gift = units * UNIT / 5 * 6;
    l.transfer(ISSUER, who, gift as i64, T0).unwrap();
    let locked = l.account(who).locked;
    l.redeem(who, (3 * locked / 4) as i64, T0).unwrap();
}

#[test]
fn new_ledger_gives_issuer_everything() {
    let l = ledger(1);
    assert_eq!(l.len(), 7);
    assert_eq!(l.account(ISSUER).balance, TOTAL_SUPPLY);
    for i in 1..7 {
        assert_eq!(holdings(&l.account(i)), 0);
    }
    assert_eq!(l.log().len(), 0);
    assert_eq!(l.revision(), 0);
    assert_eq!(l.lottery(), LOTTERY);
}

#[test]
fn gift_from_issuer_splits_into_balance_and_locked() {
    let mut l = ledger(1);
    assert_eq!(l.transfer(ISSUER, BOB, (1000 * UNIT) as i64, T0), Ok(()));
    let bob = l.account(BOB);
    assert_eq!(bob.balance, 333_333_333);
    assert_eq!(bob.locked, 666_666_667);
    assert_eq!(l.account(ISSUER).balance, TOTAL_SUPPLY - 1000 * UNIT);
    assert_eq!(l.log().len(), 1);
    assert_eq!(l.log()[0].fee, 0);
    assert_eq!(l.log()[0].amount, 1000 * UNIT);
    assert_eq!(l.revision(), 1);
}

#[test]
fn settle_at_same_time_then_after_a_year_unlocks_exponentially() {
    let mut l = ledger(1);
    l.transfer(ISSUER, BOB, (1000 * UNIT) as i64, T0).unwrap();
    let before = accounts(&l);
    l.settle(BOB, T0);
    assert!(same_accounts(&l, &before));

    let bob = l.account(BOB);
    let issuer = l.account(ISSUER).balance;
    l.settle(BOB, T0 + MS_PER_YEAR);
    let after = l.account(BOB);
    let want_vested = bob.locked as f64 * ((0.5f64).exp() - 1.0);
    assert!(rel_close(after.vested as f64, want_vested, 1e-6));
    assert_eq!(after.locked + after.vested, bob.locked);
    let erate = 370_370_370.0 / 1e9 * issuer as f64 / TOTAL_SUPPLY as f64;
    let want_interest = (bob.balance as f64 + after.vested as f64) * ((erate).exp() - 1.0);
    let interest = after.balance - bob.balance;
    assert!(rel_close(interest as f64, want_interest, 1e-6));
    assert_eq!(l.account(ISSUER).balance, issuer - interest);
    assert_eq!(total_held(&l), TOTAL_SUPPLY);
    assert_eq!(after.last_settled, T0 + MS_PER_YEAR);
}

#[test]
fn settle_twice_at_same_time_changes_nothing_more() {
    let mut l = ledger(1);
    l.transfer(ISSUER, BOB, (5000 * UNIT) as i64, T0).unwrap();
    l.settle(BOB, T0 + 1_000_000_000);
    let once = accounts(&l);
    l.settle(BOB, T0 + 1_000_000_000);
    assert!(same_accounts(&l, &once));
}

#[test]
fn settle_never_goes_back_in_time() {
    let mut l = ledger(1);
    l.transfer(ISSUER, BOB, (5000 * UNIT) as i64, T0).unwrap();
    let before = accounts(&l);
    l.settle(BOB, T0 - 10_000);
    assert!(same_accounts(&l, &before));
}

#[test]
fn settle_of_issuer_and_lottery_only_moves_time() {
    let mut l = ledger(1);
    l.settle(ISSUER, T0 + 5_000);
    l.settle(LOTTERY, T0 + 7_000);
    assert_eq!(l.account(ISSUER).balance, TOTAL_SUPPLY);
    assert_eq!(l.account(ISSUER).last_settled, T0 + 5_000);
    assert_eq!(l.account(LOTTERY).last_settled, T0 + 7_000);
}

#[test]
fn long_settlement_unlocks_at_most_what_is_locked() {
    let mut l = ledger(1);
    l.transfer(ISSUER, BOB, (1000 * UNIT) as i64, T0).unwrap();
    let locked = l.account(BOB).locked;
    l.settle(BOB, T0 + 30 * MS_PER_YEAR);
    let bob = l.account(BOB);
    assert_eq!(bob.locked, 0);
    assert_eq!(bob.vested, locked);
    assert_eq!(total_held(&l), TOTAL_SUPPLY);
}

#[test]
fn transfer_between_wallets_routes_shortfall_fee_out_of_amount() {
    let mut l = ledger(1);
    fund_spendable(&mut l, BOB, 100);
    let bob = l.account(BOB);
    assert_eq!(bob.balance, 100 * UNIT);
    assert_eq!(bob.locked, 0);
    let issuer = l.account(ISSUER).balance;
    assert_eq!(l.transfer(BOB, CAROL, (100 * UNIT) as i64, T0), Ok(()));
    let fee = 100 * UNIT / 1000;
    assert_eq!(l.account(ISSUER).balance, issuer + fee);
    assert_eq!(holdings(&l.account(CAROL)), 100 * UNIT - fee);
    assert_eq!(l.account(CAROL).balance, (100 * UNIT - fee) / 3);
    assert_eq!(holdings(&l.account(BOB)), 0);
    let last = l.log()[l.log().len() - 1];
    assert_eq!((last.from, last.to, last.amount, last.fee), (BOB, CAROL, 100 * UNIT - fee, fee));
    assert_eq!(total_held(&l), TOTAL_SUPPLY);
}

#[test]
fn transfer_fee_comes_from_locked_funds_first() {
    let mut l = ledger(1);
    l.transfer(ISSUER, BOB, (3000 * UNIT) as i64, T0).unwrap();
    let bob = l.account(BOB);
    let issuer = l.account(ISSUER).balance;
    assert_eq!(l.transfer(BOB, CAROL, (100 * UNIT) as i64, T0), Ok(()));
    let fee = 100 * UNIT / 1000;
    let after = l.account(BOB);
    assert_eq!(after.balance, bob.balance - 100 * UNIT);
    assert_eq!(after.locked, bob.locked - fee);
    assert_eq!(after.sent, 100 * UNIT);
    assert_eq!(holdings(&l.account(CAROL)), 100 * UNIT);
    assert_eq!(l.account(ISSUER).balance, issuer + fee);
    assert_eq!(total_held(&l), TOTAL_SUPPLY);
}

#[test]
fn transfer_to_issuer_pays_no_fee_and_credits_directly() {
    let mut l = ledger(1);
    l.transfer(ISSUER, BOB, (3000 * UNIT) as i64, T0).unwrap();
    let issuer = l.account(ISSUER).balance;
    assert_eq!(l.transfer(BOB, ISSUER, (10 * UNIT) as i64, T0), Ok(()));
    assert_eq!(l.account(ISSUER).balance, issuer + 10 * UNIT);
    assert_eq!(l.log()[l.log().len() - 1].fee, 0);
}

#[test]
fn non_positive_transfer_is_invalid_and_changes_nothing() {
    let mut l = ledger(1);
    l.transfer(ISSUER, BOB, (3000 * UNIT) as i64, T0).unwrap();
    let before = accounts(&l);
    for amount in [0i64, -5, i64::MIN] {
        assert_eq!(l.transfer(BOB, CAROL, amount, T0 + 1_000), Err(LedgerError::InvalidAmount));
        assert!(same_accounts(&l, &before));
        assert_eq!(l.log().len(), 1);
        assert_eq!(l.revision(), 1);
    }
}

#[test]
fn transfer_beyond_balance_is_refused_and_changes_nothing() {
    let mut l = ledger(1);
    l.transfer(ISSUER, BOB, (3000 * UNIT) as i64, T0).unwrap();
    let before = accounts(&l);
    assert_eq!(l.transfer(BOB, CAROL, (1001 * UNIT) as i64, T0 + 60_000), Err(LedgerError::InsufficientFunds));
    assert!(same_accounts(&l, &before));
    assert_eq!(l.log().len(), 1);
}

#[test]
fn transfer_with_unknown_wallet_is_refused() {
    let mut l = ledger(1);
    assert_eq!(l.transfer(ISSUER, 7, 10, T0), Err(LedgerError::UnknownWallet));
    assert_eq!(l.transfer(9, 1, 10, T0), Err(LedgerError::UnknownWallet));
    assert_eq!(l.redeem(7, 10, T0), Err(LedgerError::UnknownWallet));
    assert_eq!(l.revision(), 0);
}

#[test]
fn issuer_cannot_redeem() {
    let mut l = ledger(1);
    assert_eq!(l.transfer(ISSUER, ISSUER, 10, T0), Err(LedgerError::SelfIssuerOperation));
    assert_eq!(l.account(ISSUER).balance, TOTAL_SUPPLY);
}

#[test]
fn negative_redemption_is_invalid() {
    let mut l = ledger(1);
    l.transfer(ISSUER, BOB, (3000 * UNIT) as i64, T0).unwrap();
    let before = accounts(&l);
    assert_eq!(l.transfer(BOB, BOB, -1, T0 + 5_000), Err(LedgerError::InvalidAmount));
    assert!(same_accounts(&l, &before));
}

#[test]
fn early_claim_pays_penalty_to_issuer() {
    let mut l = ledger(1);
    l.transfer(ISSUER, BOB, (1200 * UNIT) as i64, T0).unwrap();
    let bob = l.account(BOB);
    let issuer = l.account(ISSUER).balance;
    assert_eq!(l.transfer(BOB, BOB, (300 * UNIT) as i64, T0), Ok(()));
    let after = l.account(BOB);
    assert_eq!(after.balance, bob.balance + 300 * UNIT);
    assert_eq!(after.locked, bob.locked - 400 * UNIT);
    assert_eq!(l.account(ISSUER).balance, issuer + 100 * UNIT);
    let last = l.log()[l.log().len() - 1];
    assert_eq!((last.from, last.to, last.amount, last.fee), (BOB, BOB, 300 * UNIT, 100 * UNIT));
}

#[test]
fn over_large_claim_fails_but_vested_funds_are_released() {
    let mut l = ledger(1);
    l.transfer(ISSUER, BOB, (1200 * UNIT) as i64, T0).unwrap();
    let later = T0 + MS_PER_YEAR / 12;
    let mut probe = ledger(1);
    probe.transfer(ISSUER, BOB, (1200 * UNIT) as i64, T0).unwrap();
    probe.settle(BOB, later);
    let settled = probe.account(BOB);
    assert!(settled.vested > 0);
    let log_len = l.log().len();
    assert_eq!(l.redeem(BOB, (800 * UNIT) as i64, later), Err(LedgerError::ExceedsAvailable));
    let bob = l.account(BOB);
    assert_eq!(bob.vested, 0);
    assert_eq!(bob.balance, settled.balance + settled.vested);
    assert_eq!(bob.locked, settled.locked);
    assert_eq!(l.log().len(), log_len + 1);
    assert_eq!(l.log()[log_len].amount, settled.vested);
    assert_eq!(total_held(&l), TOTAL_SUPPLY);
}

#[test]
fn redemption_of_zero_only_releases_vested() {
    let mut l = ledger(1);
    l.transfer(ISSUER, BOB, (1200 * UNIT) as i64, T0).unwrap();
    let later = T0 + MS_PER_YEAR / 4;
    assert_eq!(l.redeem(BOB, 0, later), Ok(()));
    let bob = l.account(BOB);
    assert_eq!(bob.vested, 0);
    assert!(bob.balance > 400 * UNIT);
    assert_eq!(total_held(&l), TOTAL_SUPPLY);
}

#[test]
fn transfers_conserve_the_supply() {
    let mut l = ledger(3);
    l.transfer(ISSUER, BOB, (5000 * UNIT) as i64, T0).unwrap();
    l.transfer(ISSUER, CAROL, (7000 * UNIT) as i64, T0).unwrap();
    let mut t = T0;
    for k in 0..20u64 {
        t += 86_400_000 * 7;
        let (from, to) = if k % 2 == 0 { (BOB, CAROL) } else { (CAROL, BOB) };
        let avail = {
            l.settle(from, t);
            l.account(from).balance
        };
        let before_from = l.account(from).balance;
        let amount = avail / 10 + 1;
        l.transfer(from, to, amount as i64, t).unwrap();
        assert!(l.account(from).balance <= before_from - amount);
        assert_eq!(total_held(&l), TOTAL_SUPPLY);
    }
}

#[test]
fn contributions_to_lottery_are_counted() {
    let mut l = ledger(1);
    fund_spendable(&mut l, BOB, 100);
    l.transfer(BOB, LOTTERY, (50 * UNIT) as i64, T0).unwrap();
    let fee = 50 * UNIT / 1000;
    assert_eq!(l.contributions()[BOB], 50 * UNIT);
    assert_eq!(l.account(LOTTERY).balance, 50 * UNIT);
    assert_eq!(l.account(BOB).balance, 50 * UNIT - fee);
    assert_eq!(l.account(LOTTERY).locked, 0);
}

#[test]
fn lottery_waits_for_threshold() {
    let mut l = ledger(1);
    fund_spendable(&mut l, BOB, 100);
    l.transfer(BOB, LOTTERY, (50 * UNIT) as i64, T0).unwrap();
    let rev = l.revision();
    assert_eq!(l.check_lottery(T0), None);
    assert_eq!(l.revision(), rev);
    assert!(l.contributions()[BOB] > 0);
}

fn lottery_round(seed: u64) -> (usize, Ledger) {
    let mut l = ledger(seed);
    let shares = [(BOB, 200_000u64), (CAROL, 400_000), (4, 600_000)];
    for &(who, units) in &shares {
        fund_spendable(&mut l, who, units + units / 500);
    }
    for &(who, units) in &shares {
        l.transfer(who, LOTTERY, (units * UNIT) as i64, T0).unwrap();
    }
    let winner = l.check_lottery(T0).expect("the lottery draws");
    (winner, l)
}

#[test]
fn lottery_winners_follow_contributions() {
    let trials = 600;
    let mut wins = [0usize; 7];
    for seed in 0..trials {
        let (winner, l) = lottery_round(seed as u64);
        wins[winner] += 1;
        assert!(l.contributions().iter().all(|&c| c == 0));
    }
    assert_eq!(wins[BOB] + wins[CAROL] + wins[4], trials);
    let share = |w: usize| wins[w] as f64 / trials as f64;
    assert!((share(BOB) - 1.0 / 6.0).abs() < 0.06);
    assert!((share(CAROL) - 2.0 / 6.0).abs() < 0.07);
    assert!((share(4) - 3.0 / 6.0).abs() < 0.07);
}

#[test]
fn lottery_payout_is_an_ordinary_transfer() {
    let (winner, l) = lottery_round(42);
    let last = l.log()[l.log().len() - 1];
    assert_eq!(last.from, LOTTERY);
    assert_eq!(last.to, winner);
    assert_eq!(last.fee, LOTTERY_PAYOUT / 1000);
    assert_eq!(total_held(&l), TOTAL_SUPPLY);
    assert!(l.contributions().iter().all(|&c| c == 0));
}

#[test]
fn lottery_after_payout_waits_for_new_contributors() {
    let (_, mut l) = lottery_round(7);
    assert!(l.account(LOTTERY).balance > 0);
    let mut m = ledger(7);
    fund_spendable(&mut m, BOB, 2_600_000);
    m.transfer(BOB, LOTTERY, (2_500_000 * UNIT) as i64, T0).unwrap();
    assert_eq!(m.check_lottery(T0), Some(BOB));
    assert!(m.account(LOTTERY).balance > 1_001_001 * UNIT);
    let rev = m.revision();
    assert_eq!(m.check_lottery(T0), None);
    assert_eq!(m.revision(), rev);
    assert_eq!(l.check_lottery(T0), None);
}

#[test]
fn redemption_moving_nothing_still_logs() {
    let mut l = ledger(1);
    assert_eq!(l.redeem(BOB, 0, T0), Ok(()));
    assert_eq!(l.log().len(), 1);
    let e = l.log()[0];
    assert_eq!((e.from, e.to, e.amount, e.fee, e.time), (BOB, BOB, 0, 0, T0));
    assert_eq!(l.revision(), 1);
}

#[test]
fn give_gifts_makes_one_transfer_per_gift() {
    let mut l = ledger(1);
    let gifts: Vec<u64> = vec![5, 7, 300 * UNIT, 0, 600 * UNIT, 900 * UNIT, 50 * UNIT];
    l.give_gifts(1200 * UNIT, &gifts, T0);
    assert_eq!(holdings(&l.account(1)), 1200 * UNIT);
    assert_eq!(l.account(1).balance, 400 * UNIT);
    assert_eq!(holdings(&l.account(BOB)), 300 * UNIT);
    assert_eq!(holdings(&l.account(CAROL)), 0);
    assert_eq!(holdings(&l.account(4)), 600 * UNIT);
    assert_eq!(holdings(&l.account(5)), 900 * UNIT);
    assert_eq!(holdings(&l.account(LOTTERY)), 0);
    assert_eq!(l.account(ISSUER).balance, TOTAL_SUPPLY - 3000 * UNIT);
    assert_eq!(l.account(ISSUER).sent, 3000 * UNIT);
    let to: Vec<usize> = l.log().iter().map(|e| e.to).collect();
    assert_eq!(to, vec![1, BOB, 4, 5]);
    assert!(l.log().iter().all(|e| e.from == ISSUER && e.fee == 0));
}

#[test]
fn give_gifts_skips_what_the_issuer_cannot_cover() {
    let mut l = ledger(1);
    let gifts: Vec<u64> = vec![0, 0, TOTAL_SUPPLY, 10 * UNIT, 0, 0, 0];
    l.give_gifts(TOTAL_SUPPLY - 5 * UNIT, &gifts, T0);
    assert_eq!(holdings(&l.account(1)), TOTAL_SUPPLY - 5 * UNIT);
    assert_eq!(holdings(&l.account(BOB)), 0);
    assert_eq!(holdings(&l.account(CAROL)), 0);
    assert_eq!(l.log().len(), 1);
    assert_eq!(total_held(&l), TOTAL_SUPPLY);
}

#[test]
fn split_pool_is_proportional() {
    let shares = split_pool(90, &vec![0, 1, 2, 3, 0]);
    assert_eq!(shares, vec![0, 15, 30, 45, 0]);
    let shares = split_pool(10, &vec![1, 1, 1]);
    assert_eq!(shares, vec![3, 3, 3]);
    assert_eq!(split_pool(10, &vec![0, 0]), vec![0, 0]);
    assert_eq!(split_pool(10, &vec![]), Vec::<u64>::new());
}

#[test]
fn gifts_are_handed_out_by_transfers() {
    let mut l = Ledger::new(roster(100), LOTTERY, rates(), 9, T0);
    l.distribute_gifts(10_000_000 * UNIT, 90_000_000 * UNIT, T0);
    assert_eq!(holdings(&l.account(1)), 10_000_000 * UNIT);
    assert_eq!(holdings(&l.account(LOTTERY)), 0);
    assert!(l.log().len() <= 98);
    assert_eq!(l.log().iter().map(|e| e.amount).sum::<u64>(), TOTAL_SUPPLY - l.account(ISSUER).balance);
    let rest: u64 = (2..100).filter(|&i| i != LOTTERY).map(|i| holdings(&l.account(i))).sum();
    assert!(rest <= 90_000_000 * UNIT);
    assert!(rest > 90_000_000 * UNIT - 100);
    assert_eq!(total_held(&l), TOTAL_SUPPLY);
}

#[test]
fn find_looks_up_names() {
    let l = Ledger::new(roster(20), LOTTERY, rates(), 1, T0);
    assert_eq!(l.find(&"Carol".to_string()), Some(3));
    assert_eq!(l.find(&"W00012".to_string()), Some(12));
    assert_eq!(l.find(&"Mallory".to_string()), None);
    assert_eq!(l.name(6), "Millionaire");
}

#[test]
fn snapshot_settles_everyone() {
    let mut l = ledger(1);
    l.transfer(ISSUER, BOB, (1000 * UNIT) as i64, T0).unwrap();
    let v = l.snapshot(T0 + MS_PER_YEAR);
    assert_eq!(v.accounts.len(), 7);
    assert!(v.accounts.iter().all(|a| a.last_settled == T0 + MS_PER_YEAR));
    assert!(v.accounts[BOB].vested > 0);
    assert_eq!(v.names[BOB], "Bob");
    assert_eq!(v.log.len(), 1);
    assert_eq!(v.supply, TOTAL_SUPPLY);
    assert_eq!(v.time, T0 + MS_PER_YEAR);
    assert_eq!(v.accounts.iter().map(holdings).sum::<u64>(), TOTAL_SUPPLY);
}

#[test]
fn fixed_rate_policy_ignores_reserve() {
    let fixed = Rates { interest_ppb: 100_000_000, vesting_ppb: 500_000_000, reserve_scaled: false, phased_deposits: false };
    let mut l = Ledger::new(roster(7), LOTTERY, fixed, 1, T0);
    l.transfer(ISSUER, BOB, (600_000_000 * UNIT) as i64, T0).unwrap();
    let bob = l.account(BOB);
    l.settle(BOB, T0 + MS_PER_YEAR);
    let after = l.account(BOB);
    let want = (bob.balance + after.vested) as f64 * ((0.1f64).exp() - 1.0);
    assert!(rel_close((after.balance - bob.balance) as f64, want, 1e-6));

    let mut scaled = ledger(1);
    scaled.transfer(ISSUER, BOB, (600_000_000 * UNIT) as i64, T0).unwrap();
    scaled.settle(BOB, T0 + MS_PER_YEAR);
    let reserve = 0.4 * 370_370_370.0 / 1e9;
    let sb = scaled.account(BOB);
    let want = (bob.balance + sb.vested) as f64 * ((reserve as f64).exp() - 1.0);
    assert!(rel_close((sb.balance - bob.balance) as f64, want, 1e-6));
}

fn phased() -> Rates {
    Rates { interest_ppb: 370_370_370, vesting_ppb: 500_000_000, reserve_scaled: true, phased_deposits: true }
}

#[test]
fn phased_deposit_is_pending_then_arrives_as_it_decays() {
    let mut l = Ledger::new(roster(7), LOTTERY, phased(), 1, T0);
    l.transfer(ISSUER, BOB, (1000 * UNIT) as i64, T0).unwrap();
    let bob = l.account(BOB);
    assert_eq!(bob.balance, 0);
    assert_eq!(bob.locked, 1000 * UNIT);
    l.settle(BOB, T0);
    assert!(same_account(&l.account(BOB), &bob));
    let issuer = l.account(ISSUER).balance;
    l.settle(BOB, T0 + MS_PER_YEAR);
    let after = l.account(BOB);
    let remaining = 1000.0 * UNIT as f64 * (-0.5f64).exp();
    assert!(rel_close(after.locked as f64, remaining, 1e-6));
    assert_eq!(after.vested, 0);
    let arrived = 1000 * UNIT - after.locked;
    let erate = 370_370_370.0 / 1e9 * issuer as f64 / TOTAL_SUPPLY as f64;
    let want_interest = arrived as f64 * (erate.exp() - 1.0);
    let interest = after.balance - arrived;
    assert!(rel_close(interest as f64, want_interest, 1e-6));
    assert_eq!(total_held(&l), TOTAL_SUPPLY);
}

#[test]
fn phased_negligible_remainder_arrives_in_full() {
    let mut l = Ledger::new(roster(7), LOTTERY, phased(), 1, T0);
    l.transfer(ISSUER, BOB, (NEGLIGIBLE - 1) as i64, T0).unwrap();
    assert_eq!(l.account(BOB).locked, NEGLIGIBLE - 1);
    l.settle(BOB, T0);
    assert_eq!(l.account(BOB).locked, 0);
    assert_eq!(l.account(BOB).balance, NEGLIGIBLE - 1);
    l.settle(BOB, T0);
    assert_eq!(l.account(BOB).balance, NEGLIGIBLE - 1);
}

#[test]
fn arrival_decays_exponentially() {
    let got = arrival_of(1_000_000_000, 500_000_000, MS_PER_YEAR);
    assert!(rel_close(got as f64, 1e9 * (1.0 - (-0.5f64).exp()), 1e-8));
    assert_eq!(arrival_of(1_000_000_000, 500_000_000, 0), 0);
    assert_eq!(arrival_of(500, 500_000_000, 0), 500);
    assert_eq!(arrival_of(1_000_000_000, 1_000_000_000, 100 * MS_PER_YEAR), 1_000_000_000);
}

#[test]
fn exponent_scales_rate_by_years() {
    assert_eq!(exponent_of(500_000_000, MS_PER_YEAR), 500_000_000);
    assert_eq!(exponent_of(1_000_000_000, MS_PER_YEAR / 2), 500_000_000);
    assert_eq!(exponent_of(123, 0), 0);
}

#[test]
fn unlock_follows_exponential_and_caps() {
    let got = unlock_of(1_000_000_000, 500_000_000, MS_PER_YEAR);
    assert!(rel_close(got as f64, 1e9 * ((0.5f64).exp() - 1.0), 1e-8));
    assert_eq!(unlock_of(1_000_000_000, 500_000_000, 0), 0);
    assert_eq!(unlock_of(1_000_000_000, 3_703_703_703, MS_PER_YEAR), 1_000_000_000);
}

#[test]
fn interest_compounds_and_caps() {
    let got = interest_of(1_000_000_000, 1_000_000_000, 3 * MS_PER_YEAR + MS_PER_YEAR / 2, u64::MAX);
    assert!(rel_close(got as f64, 1e9 * ((3.5f64).exp() - 1.0), 1e-7));
    assert_eq!(interest_of(1_000_000_000, 1_000_000_000, MS_PER_YEAR, 5), 5);
    assert_eq!(interest_of(1_000_000_000, 1_000_000_000, 0, 5), 0);
    assert_eq!(interest_of(0, 1_000_000_000, MS_PER_YEAR, 5), 0);
}
