//! The state of a wallet and the rules that settle it, as mathematics.
use crate::accrual::{
    arrival_amount, lemma_arrival_bounded, compound, exponent, growth_factor, interest_amount, lemma_series_zero,
    unlock_amount, NEGLIGIBLE, ONE, TERMS,
};
use vstd::prelude::*;

verus! {

/// Smallest amount that can be held: a millionth of a coin.
pub const UNIT: u64 = 1_000_000;

/// All the money there is: a billion coins, held by the issuer at creation.
pub const TOTAL_SUPPLY: u64 = 1_000_000_000_000_000;

/// Index of the issuer wallet.
pub const ISSUER: usize = 0;

/// The amounts a wallet holds and when they were last brought up to date.
#[derive(Clone, Copy, Debug)]
pub struct Account {
    /// Freely spendable amount.
    pub balance: u64,
    /// Amount still vesting; not spendable.
    pub locked: u64,
    /// Amount that has vested and waits to be moved into `balance`.
    pub vested: u64,
    /// Everything this wallet has sent, saturating.
    pub sent: u64,
    /// Time of the last settlement, in milliseconds.
    pub last_settled: u64,
}

/// The annual rates of the economy, in parts per billion, and the policies
/// of accrual.
#[derive(Clone, Copy, Debug)]
pub struct Rates {
    /// Base interest rate, scaled by the issuer's share of the supply.
    pub interest_ppb: u64,
    /// Rate at which locked funds vest.
    pub vesting_ppb: u64,
    /// Interest policy: whether the interest rate is scaled by the issuer's
    /// reserve fraction (`true`) or fixed at `interest_ppb` (`false`).
    pub reserve_scaled: bool,
    /// Deposit policy. With `false`, a wallet takes a third of a deposit
    /// into its balance and locks the rest, which vests into `vested` at
    /// `vesting_ppb` as `locked * (e^x - 1)`. With `true`, a deposit is held
    /// pending in `locked` and arrives into the balance as it decays at
    /// `vesting_ppb`, `pending * e^-x` remaining.
    pub phased_deposits: bool,
}

/// Everything a wallet holds.
pub open spec fn holdings(a: Account) -> nat {
    a.balance as nat + a.locked as nat + a.vested as nat
}

/// Everything all wallets hold.
pub open spec fn total(s: Seq<Account>) -> nat
    decreases s.len(),
{
    if s.len() == 0 {
        0
    } else {
        total(s.drop_last()) + holdings(s.last())
    }
}

/// Replacing one account changes the total by the difference of holdings,
/// and no account holds more than the total.
pub proof fn lemma_total_update(s: Seq<Account>, i: int, a: Account)
    requires
        0 <= i < s.len(),
    ensures
        total(s.update(i, a)) == total(s) - holdings(s[i]) + holdings(a),
        holdings(s[i]) <= total(s),
    decreases s.len(),
{
    let u = s.update(i, a);
    if i == s.len() - 1 {
        assert(u.drop_last() =~= s.drop_last());
    } else {
        lemma_total_update(s.drop_last(), i, a);
        assert(u.drop_last() =~= s.drop_last().update(i, a));
    }
}

/// Every account holds at most the total.
pub proof fn lemma_holdings_le_total(s: Seq<Account>, i: int)
    requires
        0 <= i < s.len(),
    ensures
        holdings(s[i]) <= total(s),
{
    lemma_total_update(s, i, s[i]);
}

pub open spec fn max_u64(a: u64, b: u64) -> u64 {
    if a >= b { a } else { b }
}

/// Time elapsed since `since`; none if `now` lies before it.
pub open spec fn elapsed_since(since: u64, now: u64) -> u64 {
    if now > since { (now - since) as u64 } else { 0 }
}

/// Interest rate in effect: the base rate, scaled by the issuer's reserve
/// fraction of the total supply where the rates say so.
pub open spec fn interest_rate(rates: Rates, issuer_balance: u64) -> u64 {
    if rates.reserve_scaled {
        (rates.interest_ppb as nat * issuer_balance as nat / TOTAL_SUPPLY as nat) as u64
    } else {
        rates.interest_ppb
    }
}

/// The issuer and the lottery wallet do not accrue.
pub open spec fn accrues(i: int, lottery: int) -> bool {
    i != ISSUER && i != lottery
}

/// What leaves the locked funds over the elapsed time under the deposit
/// policy: what vests, or what arrives.
pub open spec fn unlocking(locked: u64, dt: u64, rates: Rates) -> nat {
    if rates.phased_deposits {
        arrival_amount(locked, rates.vesting_ppb, dt)
    } else {
        unlock_amount(locked, rates.vesting_ppb, dt)
    }
}

/// Wallet `i` brought up to time `now`: part of its locked funds vests (into
/// `vested`) or arrives (into the balance), its balance and vested funds
/// (including what is freed now) earn interest that the issuer pays, and the
/// settlement time advances. The issuer and the lottery wallet only advance
/// their settlement time.
#[verifier::opaque]
pub open spec fn settled(s: Seq<Account>, i: int, now: u64, lottery: int, rates: Rates) -> Seq<Account> {
    let w = s[i];
    let t = max_u64(w.last_settled, now);
    if !accrues(i, lottery) {
        s.update(i, Account { last_settled: t, ..w })
    } else {
        let dt = elapsed_since(w.last_settled, now);
        let unlocked = unlocking(w.locked, dt, rates);
        let issuer = s[ISSUER as int].balance;
        let base = (w.balance + w.vested + unlocked) as u64;
        let interest = interest_amount(base, interest_rate(rates, issuer), dt, issuer);
        let w2 = if rates.phased_deposits {
            Account {
                balance: (w.balance + unlocked + interest) as u64,
                locked: (w.locked - unlocked) as u64,
                vested: w.vested,
                sent: w.sent,
                last_settled: t,
            }
        } else {
            Account {
                balance: (w.balance + interest) as u64,
                locked: (w.locked - unlocked) as u64,
                vested: (w.vested + unlocked) as u64,
                sent: w.sent,
                last_settled: t,
            }
        };
        s.update(i, w2).update(ISSUER as int, Account { balance: (issuer - interest) as u64, ..s[ISSUER as int] })
    }
}

/// Wallets `0..k` settled at `now`, one after another in index order.
pub open spec fn settled_upto(s: Seq<Account>, k: nat, now: u64, lottery: int, rates: Rates) -> Seq<Account>
    decreases k,
{
    if k == 0 {
        s
    } else {
        settled(settled_upto(s, (k - 1) as nat, now, lottery, rates), k - 1, now, lottery, rates)
    }
}

/// Settlement keeps every wallet's balance non-negative and in range, never
/// unlocks more than was locked, moves what vests only from `locked` to
/// `vested`, leaves the settlement time at or after `now` without ever
/// moving it back, and conserves the total held. Under phased deposits what
/// remains pending is nothing or more than negligible.
pub proof fn lemma_settle_sound(s: Seq<Account>, i: int, now: u64, lottery: int, rates: Rates)
    requires
        0 <= i < s.len(),
        total(s) <= u64::MAX,
    ensures
        ({
            let r = settled(s, i, now, lottery, rates);
            &&& r.len() == s.len()
            &&& r[i].locked <= s[i].locked
            &&& !rates.phased_deposits ==> r[i].locked + r[i].vested == s[i].locked + s[i].vested
            &&& rates.phased_deposits ==> r[i].vested == s[i].vested
            &&& rates.phased_deposits && accrues(i, lottery) ==> r[i].locked == 0 || r[i].locked >= NEGLIGIBLE
            &&& r[i].balance >= s[i].balance
            &&& r[i].last_settled >= now
            &&& r[i].last_settled >= s[i].last_settled
            &&& r[ISSUER as int].balance <= s[ISSUER as int].balance
            &&& i != ISSUER ==> r[ISSUER as int].last_settled == s[ISSUER as int].last_settled
            &&& total(r) == total(s)
            &&& forall|j: int| 0 <= j < s.len() && j != i && j != ISSUER ==> r[j] == s[j]
        }),
{
    reveal(settled);
    let w = s[i];
    let t = max_u64(w.last_settled, now);
    lemma_holdings_le_total(s, i);
    lemma_arrival_bounded(w.locked, rates.vesting_ppb, elapsed_since(w.last_settled, now));
    if !accrues(i, lottery) {
        lemma_total_update(s, i, Account { last_settled: t, ..w });
    } else {
        let dt = elapsed_since(w.last_settled, now);
        let unlocked = unlocking(w.locked, dt, rates);
        let issuer = s[ISSUER as int].balance;
        let base = (w.balance + w.vested + unlocked) as u64;
        let interest = interest_amount(base, interest_rate(rates, issuer), dt, issuer);
        let w2 = if rates.phased_deposits {
            Account {
                balance: (w.balance + unlocked + interest) as u64,
                locked: (w.locked - unlocked) as u64,
                vested: w.vested,
                sent: w.sent,
                last_settled: t,
            }
        } else {
            Account {
                balance: (w.balance + interest) as u64,
                locked: (w.locked - unlocked) as u64,
                vested: (w.vested + unlocked) as u64,
                sent: w.sent,
                last_settled: t,
            }
        };
        let k = Account { balance: (issuer - interest) as u64, ..s[ISSUER as int] };
        crate::accrual::lemma_compound_grows(base as nat, exponent(interest_rate(rates, issuer), dt));
        let s0 = s.update(ISSUER as int, k);
        lemma_total_update(s, ISSUER as int, k);
        lemma_holdings_le_total(s0, i);
        lemma_total_update(s0, i, w2);
        assert(s0.update(i, w2) =~= s.update(i, w2).update(ISSUER as int, k));
    }
}

/// Settling a wallet twice at the same time is the same as settling it once.
pub proof fn lemma_settle_idempotent(s: Seq<Account>, i: int, now: u64, lottery: int, rates: Rates)
    requires
        0 <= i < s.len(),
        total(s) <= u64::MAX,
    ensures
        settled(settled(s, i, now, lottery, rates), i, now, lottery, rates)
            == settled(s, i, now, lottery, rates),
{
    reveal(settled);
    let r = settled(s, i, now, lottery, rates);
    lemma_settle_sound(s, i, now, lottery, rates);
    let w = r[i];
    assert(elapsed_since(w.last_settled, now) == 0);
    assert(exponent(rates.vesting_ppb, 0) == 0);
    lemma_series_zero(w.locked as nat, TERMS as nat);
    let issuer = r[ISSUER as int].balance;
    let base = (w.balance + w.vested) as u64;
    assert(exponent(interest_rate(rates, issuer), 0) == 0);
    lemma_series_zero(base as nat, TERMS as nat);
    assert(compound(base as nat, 0) == base);
    assert(unlock_amount(w.locked, rates.vesting_ppb, 0) == 0);
    if accrues(i, lottery) {
        lemma_series_zero(ONE as nat, TERMS as nat);
        assert(compound(ONE as nat, 0) == ONE);
        assert(growth_factor(rates.vesting_ppb, 0) == ONE);
        assert(w.locked as nat * ONE as nat / ONE as nat == w.locked) by (nonlinear_arith);
        assert(unlocking(w.locked, 0, rates) == 0);
    }
    assert(interest_amount(base, interest_rate(rates, issuer), 0, issuer) == 0);
    let rr = settled(r, i, now, lottery, rates);
    assert(rr =~= r);
}

/// Two different accounts together hold at most the total.
pub proof fn lemma_pair_le_total(s: Seq<Account>, i: int, j: int)
    requires
        0 <= i < s.len(),
        0 <= j < s.len(),
        i != j,
    ensures
        holdings(s[i]) + holdings(s[j]) <= total(s),
{
    let z = Account { balance: 0, locked: 0, vested: 0, ..s[j] };
    lemma_total_update(s, j, z);
    lemma_holdings_le_total(s.update(j, z), i);
}

pub open spec fn min_u64(a: u64, b: u64) -> u64 {
    if a <= b { a } else { b }
}

/// `a + b`, or the largest `u64` where that does not fit.
pub open spec fn sat_add(a: u64, b: u64) -> u64 {
    if a + b <= u64::MAX { (a + b) as u64 } else { u64::MAX }
}

/// Fee on a transfer: a thousandth of the amount between two wallets that
/// are not the issuer, nothing otherwise.
pub open spec fn fee_for(from: int, to: int, amount: u64) -> u64 {
    if from != ISSUER && to != ISSUER { amount / 1000 } else { 0 }
}

/// The sender's account once `fee` is drawn from its locked funds first, then
/// its vested funds, then its balance; and the part of the fee none of them
/// could cover.
pub open spec fn charge_fee(a: Account, fee: u64) -> (Account, u64) {
    let from_locked = min_u64(fee, a.locked);
    let r1 = (fee - from_locked) as u64;
    let from_vested = min_u64(r1, a.vested);
    let r2 = (r1 - from_vested) as u64;
    let from_balance = min_u64(r2, a.balance);
    (
        Account {
            balance: (a.balance - from_balance) as u64,
            locked: (a.locked - from_locked) as u64,
            vested: (a.vested - from_vested) as u64,
            ..a
        },
        (r2 - from_balance) as u64,
    )
}

/// The sender's side of a transfer: the sender is settled, pays `amount` out
/// of its balance and the fee out of what it holds, and the issuer receives
/// the fee. Gives the accounts, the amount that goes on to the recipient (the
/// amount less the fee that the sender could not cover) and the fee.
pub open spec fn debited(s: Seq<Account>, from: int, to: int, amount: u64, now: u64, lottery: int, rates: Rates) -> (Seq<Account>, u64, u64) {
    let s1 = settled(s, from, now, lottery, rates);
    let w = s1[from];
    let d = Account { balance: (w.balance - amount) as u64, sent: sat_add(w.sent, amount), ..w };
    let fee = fee_for(from, to, amount);
    let charged = charge_fee(d, fee);
    let s2 = s1.update(from, charged.0);
    let k = s2[ISSUER as int];
    (s2.update(ISSUER as int, Account { balance: (k.balance + fee) as u64, ..k }), (amount - charged.1) as u64, fee)
}

/// The part of a deposit that an ordinary wallet takes straight into its
/// balance: a third, or nothing under phased deposits.
pub open spec fn direct_share(amount: u64, rates: Rates) -> u64 {
    if rates.phased_deposits { 0 } else { amount / 3 }
}

/// The recipient's side of a transfer: the issuer and the lottery wallet take
/// `amount` into their balance; any other wallet takes its direct share into
/// its balance and locks the rest (as vesting or pending funds).
pub open spec fn credited(s: Seq<Account>, to: int, amount: u64, lottery: int, rates: Rates) -> Seq<Account> {
    let w = s[to];
    if to == ISSUER || to == lottery {
        s.update(to, Account { balance: (w.balance + amount) as u64, ..w })
    } else {
        let direct = direct_share(amount, rates);
        s.update(to, Account {
            balance: (w.balance + direct) as u64,
            locked: (w.locked + (amount - direct)) as u64,
            ..w
        })
    }
}

/// A whole transfer of `amount` from `from` to `to` at time `now`: the
/// sender's side, then the recipient settled and credited.
pub open spec fn transferred(s: Seq<Account>, from: int, to: int, amount: u64, now: u64, lottery: int, rates: Rates) -> Seq<Account> {
    let d = debited(s, from, to, amount, now, lottery, rates);
    credited(settled(d.0, to, now, lottery, rates), to, d.1, lottery, rates)
}

/// Drawing a fee from an account takes from it exactly the part of the fee
/// that it covers, all of the fee when it holds that much, and none of it
/// when it holds nothing.
pub proof fn lemma_charge_fee(a: Account, fee: u64)
    ensures
        ({
            let c = charge_fee(a, fee);
            &&& c.1 <= fee
            &&& holdings(c.0) + (fee - c.1) == holdings(a)
            &&& holdings(a) >= fee ==> c.1 == 0
            &&& holdings(a) == 0 ==> c.1 == fee
            &&& c.0.balance <= a.balance
            &&& c.0.sent == a.sent
            &&& c.0.last_settled == a.last_settled
        }),
{
}

/// A transfer moves value and creates none: the total held is unchanged.
/// The issuer gains the fee (beyond what the recipient's settlement pays out
/// as interest), the recipient gains exactly what goes on to it, which is
/// the amount less at most the fee, and the full amount whenever the sender
/// holds enough besides it to cover the fee. When the sender holds exactly
/// the amount, what the recipient gains plus the fee is the amount.
pub proof fn lemma_transfer_conserves(s: Seq<Account>, from: int, to: int, amount: u64, now: u64, lottery: int, rates: Rates)
    requires
        0 <= from < s.len(),
        0 <= to < s.len(),
        from != to,
        total(s) <= u64::MAX,
        settled(s, from, now, lottery, rates)[from].balance >= amount,
    ensures
        ({
            let s1 = settled(s, from, now, lottery, rates);
            let d = debited(s, from, to, amount, now, lottery, rates);
            let s3 = settled(d.0, to, now, lottery, rates);
            let r = transferred(s, from, to, amount, now, lottery, rates);
            &&& r.len() == s.len()
            &&& d.0.len() == s.len()
            &&& total(d.0) + d.1 == total(s)
            &&& total(r) == total(s)
            &&& d.2 == fee_for(from, to, amount)
            &&& d.1 <= amount
            &&& amount - d.1 <= d.2
            &&& holdings(s1[from]) >= amount + d.2 ==> d.1 == amount
            &&& holdings(s1[from]) == amount ==> d.1 + d.2 == amount
            &&& holdings(r[to]) == holdings(s3[to]) + d.1
            &&& to != ISSUER && from != ISSUER ==> d.0[ISSUER as int].balance == s1[ISSUER as int].balance + d.2
            &&& r[from].balance <= s1[from].balance - amount
            &&& forall|j: int| 0 <= j < s.len() && j != from && j != to && j != ISSUER ==> r[j] == s[j]
        }),
{
    let s1 = settled(s, from, now, lottery, rates);
    lemma_settle_sound(s, from, now, lottery, rates);
    let w = s1[from];
    let d = Account { balance: (w.balance - amount) as u64, sent: sat_add(w.sent, amount), ..w };
    let fee = fee_for(from, to, amount);
    let charged = charge_fee(d, fee);
    lemma_charge_fee(d, fee);
    let s2 = s1.update(from, charged.0);
    lemma_holdings_le_total(s1, from);
    lemma_total_update(s1, from, charged.0);
    let k = s2[ISSUER as int];
    let k2 = Account { balance: (k.balance + fee) as u64, ..k };
    lemma_holdings_le_total(s2, ISSUER as int);
    if from != ISSUER as int {
        lemma_pair_le_total(s1, from, ISSUER as int);
    }
    lemma_total_update(s2, ISSUER as int, k2);
    let dd = debited(s, from, to, amount, now, lottery, rates);
    assert(dd.0 == s2.update(ISSUER as int, k2));
    lemma_settle_sound(dd.0, to, now, lottery, rates);
    let s3 = settled(dd.0, to, now, lottery, rates);
    lemma_holdings_le_total(s3, to);
    let w3 = s3[to];
    let direct = direct_share(dd.1, rates);
    if to == ISSUER || to == lottery {
        lemma_total_update(s3, to, Account { balance: (w3.balance + dd.1) as u64, ..w3 });
    } else {
        lemma_total_update(s3, to, Account {
            balance: (w3.balance + direct) as u64,
            locked: (w3.locked + (dd.1 - direct)) as u64,
            ..w3
        });
    }
}

/// Wallet `i` settled, with everything that has vested moved into its
/// balance at no cost.
pub open spec fn released(s: Seq<Account>, i: int, now: u64, lottery: int, rates: Rates) -> Seq<Account> {
    let s1 = settled(s, i, now, lottery, rates);
    let w = s1[i];
    s1.update(i, Account { balance: (w.balance + w.vested) as u64, vested: 0, ..w })
}

/// The most that may be claimed early out of `locked`: three quarters of it.
pub open spec fn claim_ceiling(locked: u64) -> u64 {
    (3 * locked as nat / 4) as u64
}

/// Penalty on an early claim: a third of the claim.
pub open spec fn claim_penalty(claim: u64) -> u64 {
    claim / 3
}

/// A self-redemption of `claim` by wallet `i`: the release above, then the
/// claim moves from `locked` into the balance, and the penalty moves from
/// `locked` to the issuer.
pub open spec fn redeemed(s: Seq<Account>, i: int, claim: u64, now: u64, lottery: int, rates: Rates) -> Seq<Account> {
    let s2 = released(s, i, now, lottery, rates);
    let w = s2[i];
    let fee = claim_penalty(claim);
    let s3 = s2.update(i, Account {
        balance: (w.balance + claim) as u64,
        locked: (w.locked - claim - fee) as u64,
        ..w
    });
    let k = s3[ISSUER as int];
    s3.update(ISSUER as int, Account { balance: (k.balance + fee) as u64, ..k })
}

/// A claim within the ceiling, with its penalty, is covered by the locked
/// funds.
pub proof fn lemma_claim_covered(locked: u64, claim: u64)
    requires
        claim <= claim_ceiling(locked),
    ensures
        claim + claim_penalty(claim) <= locked,
{
    assert(claim + claim / 3 <= locked) by (nonlinear_arith)
        requires
            claim <= 3 * locked / 4,
    ;
}

/// Self-redemption conserves the total held; the release moves exactly the
/// vested funds into the balance, and a claim within the ceiling moves the
/// claim into the balance and the penalty to the issuer, out of `locked`.
pub proof fn lemma_redeem_conserves(s: Seq<Account>, i: int, claim: u64, now: u64, lottery: int, rates: Rates)
    requires
        0 < i < s.len(),
        total(s) <= u64::MAX,
        claim <= claim_ceiling(settled(s, i, now, lottery, rates)[i].locked),
    ensures
        ({
            let w = settled(s, i, now, lottery, rates)[i];
            let r1 = released(s, i, now, lottery, rates);
            let r = redeemed(s, i, claim, now, lottery, rates);
            &&& total(r1) == total(s)
            &&& r1[i].balance == w.balance + w.vested
            &&& r1[i].vested == 0
            &&& total(r) == total(s)
            &&& r[i].balance == w.balance + w.vested + claim
            &&& r[i].locked == w.locked - claim - claim_penalty(claim)
            &&& r[ISSUER as int].balance == r1[ISSUER as int].balance + claim_penalty(claim)
        }),
{
    lemma_settle_sound(s, i, now, lottery, rates);
    let s1 = settled(s, i, now, lottery, rates);
    let w = s1[i];
    lemma_holdings_le_total(s1, i);
    let w1 = Account { balance: (w.balance + w.vested) as u64, vested: 0, ..w };
    lemma_total_update(s1, i, w1);
    let s2 = s1.update(i, w1);
    lemma_claim_covered(w.locked, claim);
    let fee = claim_penalty(claim);
    let w2 = Account { balance: (w1.balance + claim) as u64, locked: (w1.locked - claim - fee) as u64, ..w1 };
    lemma_pair_le_total(s2, i, ISSUER as int);
    lemma_total_update(s2, i, w2);
    let s3 = s2.update(i, w2);
    let k = s3[ISSUER as int];
    lemma_pair_le_total(s3, i, ISSUER as int);
    lemma_total_update(s3, ISSUER as int, Account { balance: (k.balance + fee) as u64, ..k });
}

} // verus!
