//! The ledger: the wallets, the transaction log and the lottery, behind
//! `transfer` and `snapshot`.
use crate::accrual::{arrival_of, interest_of, unlock_of};
use crate::draw::{
    draw_below, lemma_weight_sum_bounds, lemma_zero_weights, pick_weighted, seeded, sum_weights,
    weight_sum,
};
use crate::model::{
    accrues, charge_fee, claim_ceiling, claim_penalty, credited, debited, lemma_charge_fee,
    lemma_holdings_le_total, lemma_pair_le_total, lemma_redeem_conserves, lemma_settle_sound,
    lemma_total_update, lemma_transfer_conserves, redeemed, released, interest_rate, sat_add,
    settled, settled_upto, total, transferred, Account, Rates, ISSUER, TOTAL_SUPPLY, UNIT,
};
use rand::rngs::StdRng;
use vstd::prelude::*;

verus! {

/// What the lottery pays its winner.
pub const LOTTERY_PAYOUT: u64 = 1_000_000 * UNIT;

/// The lottery draws once its wallet holds more than this.
pub const LOTTERY_THRESHOLD: u64 = 1_001_001 * UNIT;

/// Why an operation was refused. A refused operation changes nothing, but
/// for the release that an over-large early claim still performs.
#[derive(Clone, Copy, Debug, PartialEq, Eq)]
pub enum LedgerError {
    /// A non-positive amount where a positive one is needed, or a negative
    /// one where a non-negative one is needed.
    InvalidAmount,
    /// The sender's settled balance is below the amount.
    InsufficientFunds,
    /// An early claim beyond the allowed share of the locked funds.
    ExceedsAvailable,
    /// The issuer cannot redeem.
    SelfIssuerOperation,
    /// No wallet has this index.
    UnknownWallet,
}

/// One entry of the transaction log.
#[derive(Clone, Copy, Debug)]
pub struct TxRecord {
    pub from: usize,
    pub to: usize,
    /// What reached the recipient (for a redemption: what was moved).
    pub amount: u64,
    /// What the issuer received.
    pub fee: u64,
    /// When, in milliseconds.
    pub time: u64,
}

/// A self-contained copy of the ledger's state.
pub struct LedgerView {
    pub names: Vec<String>,
    pub accounts: Vec<Account>,
    pub log: Vec<TxRecord>,
    pub rates: Rates,
    pub supply: u64,
    pub lottery: usize,
    pub time: u64,
    pub revision: u64,
}

/// The wallets of the economy, wallet `ISSUER` being the issuer and wallet
/// `lottery` the contribution-tracked lottery wallet.
pub struct Ledger {
    names: Vec<String>,
    accounts: Vec<Account>,
    log: Vec<TxRecord>,
    contributions: Vec<u64>,
    lottery: usize,
    rates: Rates,
    revision: u64,
    rng: StdRng,
}

/// `r + 1`, or `r` where that does not fit.
pub open spec fn bump(r: u64) -> u64 {
    sat_add(r, 1)
}

/// The interest rate in effect for an issuer balance within the supply.
fn interest_rate_of(rates: Rates, issuer_balance: u64) -> (r: u64)
    requires
        issuer_balance <= TOTAL_SUPPLY,
    ensures
        r == interest_rate(rates, issuer_balance),
{
    if !rates.reserve_scaled {
        return rates.interest_ppb;
    }
    let rate_ppb = rates.interest_ppb;
    assert((rate_ppb as int) * (issuer_balance as int) <= (u64::MAX as int) * (u64::MAX as int)) by (nonlinear_arith)
        requires
            rate_ppb <= u64::MAX,
            issuer_balance <= u64::MAX,
    ;
    let p = (rate_ppb as u128) * (issuer_balance as u128);
    assert(p <= (rate_ppb as u128) * (TOTAL_SUPPLY as u128)) by (nonlinear_arith)
        requires
            p == rate_ppb * issuer_balance,
            issuer_balance <= TOTAL_SUPPLY,
    ;
    assert(p / (TOTAL_SUPPLY as u128) <= rate_ppb) by (nonlinear_arith)
        requires
            p <= rate_ppb * TOTAL_SUPPLY,
    ;
    (p / (TOTAL_SUPPLY as u128)) as u64
}

/// Initial gift weights are drawn below this bound.
pub const GIFT_WEIGHT_RANGE: u64 = 4_294_967_296;

/// Splits `pool` in proportion to `weights`, rounding each share down;
/// nothing is handed out where all weights are zero.
pub fn split_pool(pool: u64, weights: &Vec<u128>) -> (r: Vec<u64>)
    requires
        forall|i: int| 0 <= i < weights.len() ==> weights@[i] <= u64::MAX,
    ensures
        r.len() == weights.len(),
        weight_sum(weights@) == 0 ==> forall|i: int| 0 <= i < r.len() ==> r@[i] == 0,
        weight_sum(weights@) > 0 ==> forall|i: int| 0 <= i < r.len() ==> r@[i] == pool as nat * weights@[i] as nat / weight_sum(weights@),
        r@ == shares(pool, weights@),
{
    let sum = sum_weights(weights);
    proof {
        lemma_weight_sum_bounds(weights@);
    }
    let mut r: Vec<u64> = Vec::new();
    let mut i: usize = 0;
    while i < weights.len()
        invariant
            i <= weights.len(),
            r@.len() == i,
            sum == weight_sum(weights@),
            forall|j: int| 0 <= j < weights.len() ==> weights@[j] <= u64::MAX,
            forall|j: int| 0 <= j < weights.len() ==> weights@[j] <= weight_sum(weights@),
            sum == 0 ==> forall|j: int| 0 <= j < i ==> r@[j] == 0,
            sum > 0 ==> forall|j: int| 0 <= j < i ==> r@[j] == pool as nat * weights@[j] as nat / weight_sum(weights@),
        decreases weights.len() - i,
    {
        let w = weights[i];
        if sum == 0 {
            r.push(0);
        } else {
            assert((pool as int) * (w as int) <= (u64::MAX as int) * (u64::MAX as int)) by (nonlinear_arith)
                requires
                    pool <= u64::MAX,
                    w <= u64::MAX,
            ;
            let p = (pool as u128) * w;
            assert(p / sum <= pool) by (nonlinear_arith)
                requires
                    p == pool * w,
                    w <= sum,
                    sum > 0,
            ;
            r.push((p / sum) as u64);
        }
        i = i + 1;
    }
    assert(r@ =~= shares(pool, weights@));
    r
}

/// The shares of `pool` in proportion to `w`, each rounded down; all zero
/// where the weights are.
pub open spec fn shares(pool: u64, w: Seq<u128>) -> Seq<u64> {
    Seq::new(
        w.len(),
        |j: int|
            if weight_sum(w) == 0 {
                0u64
            } else {
                (pool as nat * w[j] as nat / weight_sum(w)) as u64
            },
    )
}

/// The gift meant for wallet `j`: `first` for wallet 1, `gifts[j]` beyond.
pub open spec fn gift_amount(first: u64, gifts: Seq<u64>, j: int) -> u64 {
    if j == 1 { first } else { gifts[j] }
}

/// Accounts and log after the gifts to wallets `1..k`, each an ordinary
/// transfer from the issuer with its log entry, made where the wallet is not
/// the lottery wallet, the gift is positive and within the range of a
/// transfer, and the settled issuer covers it.
pub open spec fn gifted(
    s: Seq<Account>,
    log: Seq<TxRecord>,
    first: u64,
    gifts: Seq<u64>,
    k: nat,
    now: u64,
    lottery: int,
    rates: Rates,
) -> (Seq<Account>, Seq<TxRecord>)
    decreases k,
{
    if k <= 1 {
        (s, log)
    } else {
        let p = gifted(s, log, first, gifts, (k - 1) as nat, now, lottery, rates);
        let j = k - 1;
        let g = gift_amount(first, gifts, j);
        if j != lottery && 0 < g <= i64::MAX
            && settled(p.0, ISSUER as int, now, lottery, rates)[ISSUER as int].balance >= g {
            let d = debited(p.0, ISSUER as int, j, g, now, lottery, rates);
            (
                transferred(p.0, ISSUER as int, j, g, now, lottery, rates),
                p.1.push(TxRecord { from: ISSUER, to: j as usize, amount: d.1, fee: d.2, time: now }),
            )
        } else {
            p
        }
    }
}

/// Draws `fee` from an account: see `charge_fee`.
fn charge(a: Account, fee: u64) -> (r: (Account, u64))
    ensures
        r == charge_fee(a, fee),
{
    let from_locked = if fee <= a.locked { fee } else { a.locked };
    let r1 = fee - from_locked;
    let from_vested = if r1 <= a.vested { r1 } else { a.vested };
    let r2 = r1 - from_vested;
    let from_balance = if r2 <= a.balance { r2 } else { a.balance };
    (
        Account {
            balance: a.balance - from_balance,
            locked: a.locked - from_locked,
            vested: a.vested - from_vested,
            ..a
        },
        r2 - from_balance,
    )
}

impl Ledger {
    pub closed spec fn accounts_view(&self) -> Seq<Account> {
        self.accounts@
    }

    pub closed spec fn names_view(&self) -> Seq<String> {
        self.names@
    }

    pub closed spec fn log_view(&self) -> Seq<TxRecord> {
        self.log@
    }

    pub closed spec fn contributions_view(&self) -> Seq<u64> {
        self.contributions@
    }

    pub closed spec fn lottery_index(&self) -> int {
        self.lottery as int
    }

    pub closed spec fn rates_view(&self) -> Rates {
        self.rates
    }

    pub closed spec fn revision_view(&self) -> u64 {
        self.revision
    }

    /// At least two wallets, one contribution counter each, the lottery
    /// wallet not the issuer and never counted as a contributor, and all
    /// wallets together holding exactly the total supply.
    pub closed spec fn wf(&self) -> bool {
        &&& self.accounts@.len() == self.names@.len()
        &&& self.contributions@.len() == self.accounts@.len()
        &&& 1 <= self.lottery < self.accounts@.len()
        &&& total(self.accounts@) == TOTAL_SUPPLY
        &&& self.contributions@[self.lottery as int] == 0
    }

    /// What well-formedness guarantees a caller: the wallets hold exactly
    /// the total supply, the lottery wallet is a wallet other than the
    /// issuer, and every wallet has a name and a contribution counter.
    pub proof fn lemma_wf(&self)
        requires
            self.wf(),
        ensures
            total(self.accounts_view()) == TOTAL_SUPPLY,
            1 <= self.lottery_index() < self.accounts_view().len(),
            self.names_view().len() == self.accounts_view().len(),
            self.contributions_view().len() == self.accounts_view().len(),
            self.contributions_view()[self.lottery_index()] == 0,
    {
    }

    /// Names, lottery wallet and rates are those of `o`.
    pub open spec fn same_setup(&self, o: &Ledger) -> bool {
        &&& self.names_view() == o.names_view()
        &&& self.lottery_index() == o.lottery_index()
        &&& self.rates_view() == o.rates_view()
    }

    /// A ledger over the named wallets in which the issuer, wallet `ISSUER`,
    /// holds the whole supply, everything settled at `now`.
    pub fn new(names: Vec<String>, lottery: usize, rates: Rates, seed: u64, now: u64) -> (r: Ledger)
        requires
            1 <= lottery < names.len(),
        ensures
            r.wf(),
            r.names_view() == names@,
            r.lottery_index() == lottery,
            r.rates_view() == rates,
            r.accounts_view().len() == names.len(),
            r.accounts_view()[ISSUER as int] == (Account {
                balance: TOTAL_SUPPLY,
                locked: 0,
                vested: 0,
                sent: 0,
                last_settled: now,
            }),
            forall|i: int| 1 <= i < names.len() ==> r.accounts_view()[i] == (Account {
                balance: 0,
                locked: 0,
                vested: 0,
                sent: 0,
                last_settled: now,
            }),
            r.log_view().len() == 0,
            forall|i: int| 0 <= i < names.len() ==> r.contributions_view()[i] == 0,
            r.revision_view() == 0,
    {
        let n = names.len();
        let mut accounts: Vec<Account> = Vec::new();
        let mut contributions: Vec<u64> = Vec::new();
        let mut i: usize = 0;
        while i < n
            invariant
                i <= n,
                n == names.len(),
                accounts@.len() == i,
                contributions@.len() == i,
                forall|j: int| 0 <= j < i ==> contributions@[j] == 0,
                i > 0 ==> accounts@[0] == (Account {
                    balance: TOTAL_SUPPLY,
                    locked: 0,
                    vested: 0,
                    sent: 0,
                    last_settled: now,
                }),
                forall|j: int| 1 <= j < i ==> accounts@[j] == (Account {
                    balance: 0,
                    locked: 0,
                    vested: 0,
                    sent: 0,
                    last_settled: now,
                }),
                total(accounts@) == if i == 0 { 0 } else { TOTAL_SUPPLY as nat },
            decreases n - i,
        {
            let balance: u64 = if i == ISSUER { TOTAL_SUPPLY } else { 0 };
            let a = Account { balance, locked: 0, vested: 0, sent: 0, last_settled: now };
            let ghost before = accounts@;
            accounts.push(a);
            assert(accounts@.drop_last() =~= before);
            contributions.push(0);
            i = i + 1;
        }
        Ledger {
            names,
            accounts,
            log: Vec::new(),
            contributions,
            lottery,
            rates,
            revision: 0,
            rng: seeded(seed),
        }
    }

    /// What settling wallet `i` at `now` makes of it, and the interest the
    /// issuer pays for it.
    fn settle_outcome(&self, i: usize, now: u64) -> (r: (Account, u64))
        requires
            i < self.accounts@.len(),
            total(self.accounts@) <= TOTAL_SUPPLY,
        ensures
            ({
                let s = self.accounts@;
                let t = settled(s, i as int, now, self.lottery as int, self.rates);
                &&& t[i as int] == r.0
                &&& accrues(i as int, self.lottery as int) ==> r.1 <= s[ISSUER as int].balance && t
                    == s.update(i as int, r.0).update(
                    ISSUER as int,
                    Account { balance: (s[ISSUER as int].balance - r.1) as u64, ..s[ISSUER as int] },
                )
                &&& !accrues(i as int, self.lottery as int) ==> t == s.update(i as int, r.0)
            }),
    {
        proof {
            reveal(settled);
        }
        let w = self.accounts[i];
        let t = if w.last_settled >= now { w.last_settled } else { now };
        if i == ISSUER || i == self.lottery {
            return (Account { last_settled: t, ..w }, 0);
        }
        let dt = if now > w.last_settled { now - w.last_settled } else { 0 };
        let unlocked = if self.rates.phased_deposits {
            arrival_of(w.locked, self.rates.vesting_ppb, dt)
        } else {
            unlock_of(w.locked, self.rates.vesting_ppb, dt)
        };
        let issuer = self.accounts[ISSUER].balance;
        proof {
            lemma_pair_le_total(self.accounts@, i as int, ISSUER as int);
        }
        let base = w.balance + w.vested + unlocked;
        let rate = interest_rate_of(self.rates, issuer);
        let interest = interest_of(base, rate, dt, issuer);
        let a = if self.rates.phased_deposits {
            Account {
                balance: w.balance + unlocked + interest,
                locked: w.locked - unlocked,
                vested: w.vested,
                sent: w.sent,
                last_settled: t,
            }
        } else {
            Account {
                balance: w.balance + interest,
                locked: w.locked - unlocked,
                vested: w.vested + unlocked,
                sent: w.sent,
                last_settled: t,
            }
        };
        proof {
            let s = self.accounts@;
            let k = Account { balance: (issuer - interest) as u64, ..s[ISSUER as int] };
            assert(s.update(i as int, a).update(ISSUER as int, k)[i as int] == a);
        }
        (a, interest)
    }

    /// Settles wallet `i` at `now` on accounts that may be mid-operation.
    fn settle_in(&mut self, i: usize, now: u64)
        requires
            i < old(self).accounts@.len(),
            total(old(self).accounts@) <= TOTAL_SUPPLY,
        ensures
            final(self).accounts@ == settled(old(self).accounts@, i as int, now, old(self).lottery as int, old(self).rates),
            final(self).names == old(self).names,
            final(self).log == old(self).log,
            final(self).contributions == old(self).contributions,
            final(self).lottery == old(self).lottery,
            final(self).rates == old(self).rates,
            final(self).revision == old(self).revision,
            final(self).rng == old(self).rng,
    {
        let (a, interest) = self.settle_outcome(i, now);
        self.accounts.set(i, a);
        if i != ISSUER && i != self.lottery {
            let mut k = self.accounts[ISSUER];
            k.balance = k.balance - interest;
            self.accounts.set(ISSUER, k);
        }
        assert(self.accounts@ =~= settled(old(self).accounts@, i as int, now, old(self).lottery as int, old(self).rates));
    }

    /// Brings wallet `i` up to time `now`: see `settled`.
    pub fn settle(&mut self, i: usize, now: u64)
        requires
            old(self).wf(),
            i < old(self).accounts_view().len(),
        ensures
            final(self).wf(),
            final(self).same_setup(old(self)),
            final(self).accounts_view() == settled(old(self).accounts_view(), i as int, now, old(self).lottery_index(), old(self).rates_view()),
            final(self).log_view() == old(self).log_view(),
            final(self).contributions_view() == old(self).contributions_view(),
            final(self).revision_view() == old(self).revision_view(),
    {
        proof {
            lemma_settle_sound(self.accounts@, i as int, now, self.lottery as int, self.rates);
        }
        self.settle_in(i, now);
    }

    /// What a successful transfer of `amount` from `from` to `to` at `now`
    /// leaves, starting from `o`: the accounts of `transferred`, one log
    /// entry with what reached the recipient and the fee, the contribution
    /// of the sender grown by what reached the lottery wallet, and the
    /// revision advanced.
    pub open spec fn transfer_done(&self, o: &Ledger, from: int, to: int, amount: u64, now: u64) -> bool {
        let d = debited(o.accounts_view(), from, to, amount, now, o.lottery_index(), o.rates_view());
        &&& self.accounts_view() == transferred(o.accounts_view(), from, to, amount, now, o.lottery_index(), o.rates_view())
        &&& self.log_view() == o.log_view().push(TxRecord { from: from as usize, to: to as usize, amount: d.1, fee: d.2, time: now })
        &&& self.contributions_view() == if to == o.lottery_index() {
            o.contributions_view().update(from, sat_add(o.contributions_view()[from], d.1))
        } else {
            o.contributions_view()
        }
        &&& self.revision_view() == bump(o.revision_view())
    }

    /// What a self-redemption of `claim` by wallet `i` at `now` leaves,
    /// starting from `o`, with its result `r`. The release of the vested
    /// funds always happens; a claim beyond the ceiling of the settled locked
    /// funds is then refused, any other is paid out. A self-to-self log
    /// entry always records what moved and the penalty.
    pub open spec fn redeem_done(&self, o: &Ledger, i: int, claim: u64, now: u64, r: Result<(), LedgerError>) -> bool {
        let w = settled(o.accounts_view(), i, now, o.lottery_index(), o.rates_view())[i];
        &&& self.contributions_view() == o.contributions_view()
        &&& self.revision_view() == bump(o.revision_view())
        &&& if claim > 0 && claim > claim_ceiling(w.locked) {
            &&& r == Err::<(), LedgerError>(LedgerError::ExceedsAvailable)
            &&& self.accounts_view() == released(o.accounts_view(), i, now, o.lottery_index(), o.rates_view())
            &&& self.log_view() == o.log_view().push(
                TxRecord { from: i as usize, to: i as usize, amount: w.vested, fee: 0, time: now },
            )
        } else {
            &&& r == Ok::<(), LedgerError>(())
            &&& self.accounts_view() == redeemed(o.accounts_view(), i, claim, now, o.lottery_index(), o.rates_view())
            &&& self.log_view() == o.log_view().push(
                TxRecord {
                    from: i as usize,
                    to: i as usize,
                    amount: (w.vested + claim) as u64,
                    fee: claim_penalty(claim),
                    time: now,
                },
            )
        }
    }

    fn bump_revision(&mut self)
        ensures
            final(self).revision == bump(old(self).revision),
            final(self).names == old(self).names,
            final(self).accounts == old(self).accounts,
            final(self).log == old(self).log,
            final(self).contributions == old(self).contributions,
            final(self).lottery == old(self).lottery,
            final(self).rates == old(self).rates,
            final(self).rng == old(self).rng,
    {
        if self.revision < u64::MAX {
            self.revision = self.revision + 1;
        }
    }

    /// Early settlement of wallet `i`: releases its vested funds into its
    /// balance and, for a positive `amount`, claims that much of its locked
    /// funds early at a penalty of a third of the claim, paid to the issuer.
    pub fn redeem(&mut self, i: usize, amount: i64, now: u64) -> (r: Result<(), LedgerError>)
        requires
            old(self).wf(),
        ensures
            final(self).wf(),
            final(self).same_setup(old(self)),
            i >= old(self).accounts_view().len() ==> r == Err::<(), LedgerError>(LedgerError::UnknownWallet) && *final(self) == *old(self),
            i < old(self).accounts_view().len() && i == ISSUER ==> r == Err::<(), LedgerError>(LedgerError::SelfIssuerOperation) && *final(self) == *old(self),
            i < old(self).accounts_view().len() && i != ISSUER && amount < 0 ==> r == Err::<(), LedgerError>(LedgerError::InvalidAmount) && *final(self) == *old(self),
            i < old(self).accounts_view().len() && i != ISSUER && amount >= 0 ==> final(self).redeem_done(old(self), i as int, amount as u64, now, r),
    {
        if i >= self.accounts.len() {
            return Err(LedgerError::UnknownWallet);
        }
        if i == ISSUER {
            return Err(LedgerError::SelfIssuerOperation);
        }
        if amount < 0 {
            return Err(LedgerError::InvalidAmount);
        }
        let claim = amount as u64;
        let ghost s = self.accounts@;
        proof {
            lemma_settle_sound(s, i as int, now, self.lottery as int, self.rates);
            lemma_redeem_conserves(s, i as int, 0, now, self.lottery as int, self.rates);
        }
        self.settle_in(i, now);
        let mut w = self.accounts[i];
        let freed = w.vested;
        proof {
            lemma_holdings_le_total(self.accounts@, i as int);
        }
        w.balance = w.balance + w.vested;
        w.vested = 0;
        self.accounts.set(i, w);
        let ceiling = 3 * w.locked / 4;
        if claim > 0 && claim > ceiling {
            self.log.push(TxRecord { from: i, to: i, amount: freed, fee: 0, time: now });
            self.bump_revision();
            return Err(LedgerError::ExceedsAvailable);
        }
        proof {
            lemma_redeem_conserves(s, i as int, claim, now, self.lottery as int, self.rates);
        }
        let fee = claim / 3;
        w.balance = w.balance + claim;
        w.locked = w.locked - claim - fee;
        self.accounts.set(i, w);
        let mut k = self.accounts[ISSUER];
        k.balance = k.balance + fee;
        self.accounts.set(ISSUER, k);
        self.log.push(TxRecord { from: i, to: i, amount: freed + claim, fee, time: now });
        self.bump_revision();
        assert(self.accounts@ =~= redeemed(s, i as int, claim, now, self.lottery as int, self.rates));
        Ok(())
    }

    /// Transfers `amount` from wallet `from` to wallet `to` at time `now`.
    /// A transfer to oneself is a redemption (`redeem`). Otherwise the amount
    /// must be positive and within the sender's settled balance; the sender
    /// is settled and pays the amount, and between two wallets that are not
    /// the issuer also a fee of a thousandth, drawn from its locked funds,
    /// then its vested funds, then its balance, with what none covers taken
    /// off what goes on; the recipient is settled and credited (see
    /// `transferred`), a contribution to the lottery wallet is counted, and
    /// the transfer is logged.
    #[verifier::rlimit(50)]
    pub fn transfer(&mut self, from: usize, to: usize, amount: i64, now: u64) -> (r: Result<(), LedgerError>)
        requires
            old(self).wf(),
        ensures
            final(self).wf(),
            final(self).same_setup(old(self)),
            from >= old(self).accounts_view().len() || to >= old(self).accounts_view().len() ==> r == Err::<(), LedgerError>(LedgerError::UnknownWallet) && *final(self) == *old(self),
            from < old(self).accounts_view().len() && from == to ==> (
                if from == ISSUER {
                    r == Err::<(), LedgerError>(LedgerError::SelfIssuerOperation) && *final(self) == *old(self)
                } else if amount < 0 {
                    r == Err::<(), LedgerError>(LedgerError::InvalidAmount) && *final(self) == *old(self)
                } else {
                    final(self).redeem_done(old(self), from as int, amount as u64, now, r)
                }),
            from < old(self).accounts_view().len() && to < old(self).accounts_view().len() && from != to ==> (
                if amount <= 0 {
                    r == Err::<(), LedgerError>(LedgerError::InvalidAmount) && *final(self) == *old(self)
                } else if settled(old(self).accounts_view(), from as int, now, old(self).lottery_index(), old(self).rates_view())[from as int].balance < amount {
                    r == Err::<(), LedgerError>(LedgerError::InsufficientFunds) && *final(self) == *old(self)
                } else {
                    r == Ok::<(), LedgerError>(()) && final(self).transfer_done(old(self), from as int, to as int, amount as u64, now)
                }),
    {
        if from >= self.accounts.len() || to >= self.accounts.len() {
            return Err(LedgerError::UnknownWallet);
        }
        if from == to {
            return self.redeem(from, amount, now);
        }
        if amount <= 0 {
            return Err(LedgerError::InvalidAmount);
        }
        let amt = amount as u64;
        let (preview, _) = self.settle_outcome(from, now);
        if preview.balance < amt {
            return Err(LedgerError::InsufficientFunds);
        }
        let ghost s = self.accounts@;
        let ghost lottery = self.lottery as int;
        let ghost rates = self.rates;
        proof {
            lemma_settle_sound(s, from as int, now, lottery, rates);
            lemma_transfer_conserves(s, from as int, to as int, amt, now, lottery, rates);
        }
        self.settle_in(from, now);
        let mut d = self.accounts[from];
        proof {
            lemma_holdings_le_total(self.accounts@, from as int);
        }
        d.balance = d.balance - amt;
        d.sent = if d.sent <= u64::MAX - amt { d.sent + amt } else { u64::MAX };
        let fee = if from != ISSUER && to != ISSUER { amt / 1000 } else { 0 };
        let (d2, short) = charge(d, fee);
        proof {
            lemma_charge_fee(d, fee);
        }
        self.accounts.set(from, d2);
        let ghost s2 = self.accounts@;
        proof {
            lemma_holdings_le_total(s2, ISSUER as int);
            if from != ISSUER {
                lemma_pair_le_total(s2, from as int, ISSUER as int);
                lemma_total_update(self.accounts@, from as int, d2);
            }
        }
        let mut k = self.accounts[ISSUER];
        k.balance = k.balance + fee;
        self.accounts.set(ISSUER, k);
        let sent = amt - short;
        let ghost dd = debited(s, from as int, to as int, amt, now, lottery, rates);
        assert(self.accounts@ =~= dd.0);
        if to == self.lottery {
            let c = self.contributions[from];
            let c2 = if c <= u64::MAX - sent { c + sent } else { u64::MAX };
            self.contributions.set(from, c2);
        }
        proof {
            lemma_settle_sound(self.accounts@, to as int, now, lottery, rates);
        }
        self.settle_in(to, now);
        let ghost s3 = self.accounts@;
        let mut w = self.accounts[to];
        proof {
            let r = transferred(s, from as int, to as int, amt, now, lottery, rates);
            lemma_holdings_le_total(r, to as int);
        }
        if to == ISSUER || to == self.lottery {
            w.balance = w.balance + sent;
        } else {
            let direct = if self.rates.phased_deposits { 0 } else { sent / 3 };
            w.balance = w.balance + direct;
            w.locked = w.locked + (sent - direct);
        }
        self.accounts.set(to, w);
        assert(self.accounts@ =~= credited(s3, to as int, sent, lottery, rates));
        self.log.push(TxRecord { from, to, amount: sent, fee, time: now });
        self.bump_revision();
        Ok(())
    }

    /// The lottery: once the lottery wallet holds more than the threshold
    /// and some wallet has contributed, one contributor, drawn with
    /// probability proportional to its contribution, is paid the payout by an
    /// ordinary transfer, and every contribution returns to zero. Gives the
    /// winner; otherwise nothing changes.
    pub fn check_lottery(&mut self, now: u64) -> (r: Option<usize>)
        requires
            old(self).wf(),
        ensures
            final(self).wf(),
            final(self).same_setup(old(self)),
            r is None <==> (old(self).accounts_view()[old(self).lottery_index()].balance <= LOTTERY_THRESHOLD
                || forall|i: int| 0 <= i < old(self).contributions_view().len() ==> old(self).contributions_view()[i] == 0),
            r is None ==> *final(self) == *old(self),
            r matches Some(w) ==> {
                let d = debited(old(self).accounts_view(), old(self).lottery_index(), w as int, LOTTERY_PAYOUT, now, old(self).lottery_index(), old(self).rates_view());
                &&& w < old(self).accounts_view().len()
                &&& old(self).contributions_view()[w as int] > 0
                &&& final(self).accounts_view() == transferred(old(self).accounts_view(), old(self).lottery_index(), w as int, LOTTERY_PAYOUT, now, old(self).lottery_index(), old(self).rates_view())
                &&& final(self).log_view() == old(self).log_view().push(TxRecord {
                    from: old(self).lottery_index() as usize,
                    to: w,
                    amount: d.1,
                    fee: d.2,
                    time: now,
                })
                &&& final(self).revision_view() == bump(old(self).revision_view())
                &&& final(self).contributions_view().len() == old(self).contributions_view().len()
                &&& forall|i: int| 0 <= i < final(self).contributions_view().len() ==> final(self).contributions_view()[i] == 0
            },
    {
        let ghost init = *self;
        let lot = self.lottery;
        if self.accounts[lot].balance <= LOTTERY_THRESHOLD {
            return None;
        }
        let n = self.contributions.len();
        let mut weights: Vec<u128> = Vec::new();
        let mut i: usize = 0;
        while i < n
            invariant
                i <= n,
                n == self.contributions@.len(),
                weights@.len() == i,
                forall|j: int| 0 <= j < i ==> weights@[j] == self.contributions@[j] as u128,
            decreases n - i,
        {
            weights.push(self.contributions[i] as u128);
            i = i + 1;
        }
        let sum = sum_weights(&weights);
        if sum == 0 {
            proof {
                lemma_zero_weights(weights@);
                assert forall|j: int| 0 <= j < self.contributions@.len() implies self.contributions@[j] == 0 by {
                    assert(weights@[j] == 0);
                }
            }
            return None;
        }
        proof {
            lemma_weight_sum_bounds(weights@);
            assert(weights@.len() == n);
        }
        let winner = pick_weighted(&mut self.rng, &weights);
        let ghost before = *self;
        proof {
            lemma_settle_sound(self.accounts@, lot as int, now, lot as int, self.rates);
        }
        assert(self.contributions@[winner as int] > 0);
        assert(self.contributions@ == init.contributions@);
        assert(!(forall|j: int| 0 <= j < init.contributions_view().len() ==> init.contributions_view()[j] == 0));
        assert(!(init.accounts_view()[init.lottery_index()].balance <= LOTTERY_THRESHOLD));
        let _ = self.transfer(lot, winner, LOTTERY_PAYOUT as i64, now);
        let ghost after = *self;
        let mut k: usize = 0;
        while k < n
            invariant
                k <= n,
                n == self.contributions@.len(),
                self.accounts == after.accounts,
                self.names == after.names,
                self.log == after.log,
                self.lottery == after.lottery,
                self.rates == after.rates,
                self.revision == after.revision,
                after.wf(),
                forall|j: int| 0 <= j < k ==> self.contributions@[j] == 0,
            decreases n - k,
        {
            self.contributions.set(k, 0);
            k = k + 1;
        }
        Some(winner)
    }

    /// Gives wallet `j` its gift `gift_amount(first_gift, gifts@, j)` as a
    /// transfer from the issuer, for `j` in `1..` in index order: see
    /// `gifted`. Gifts to the lottery wallet, zero gifts, gifts beyond the
    /// range of a transfer and gifts the issuer cannot cover are skipped.
    pub fn give_gifts(&mut self, first_gift: u64, gifts: &Vec<u64>, now: u64)
        requires
            old(self).wf(),
            gifts.len() == old(self).accounts_view().len(),
        ensures
            final(self).wf(),
            final(self).same_setup(old(self)),
            (final(self).accounts_view(), final(self).log_view()) == gifted(
                old(self).accounts_view(),
                old(self).log_view(),
                first_gift,
                gifts@,
                old(self).accounts_view().len(),
                now,
                old(self).lottery_index(),
                old(self).rates_view(),
            ),
            final(self).contributions_view() == old(self).contributions_view(),
    {
        let n = self.accounts.len();
        let ghost start = *self;
        let mut i: usize = 1;
        while i < n
            invariant
                1 <= i <= n,
                n == self.accounts_view().len(),
                gifts@.len() == n,
                self.wf(),
                self.same_setup(&start),
                self.contributions_view() == start.contributions_view(),
                (self.accounts_view(), self.log_view()) == gifted(
                    start.accounts_view(),
                    start.log_view(),
                    first_gift,
                    gifts@,
                    i as nat,
                    now,
                    start.lottery_index(),
                    start.rates_view(),
                ),
            decreases n - i,
        {
            let gift = if i == 1 { first_gift } else { gifts[i] };
            if i != self.lottery && gift > 0 && gift <= i64::MAX as u64 {
                let _ = self.transfer(ISSUER, i, gift as i64, now);
            }
            i = i + 1;
        }
    }

    /// Gives out the initial gifts: `first_gift` to wallet 1, and `pool`
    /// split among the other wallets but the lottery wallet in proportion to
    /// weights drawn at random below `GIFT_WEIGHT_RANGE` (see `give_gifts`).
    pub fn distribute_gifts(&mut self, first_gift: u64, pool: u64, now: u64)
        requires
            old(self).wf(),
        ensures
            final(self).wf(),
            final(self).same_setup(old(self)),
            final(self).contributions_view() == old(self).contributions_view(),
            exists|w: Seq<u128>|
                #![trigger shares(pool, w)]
                {
                    &&& w.len() == old(self).accounts_view().len()
                    &&& forall|j: int| 0 <= j < w.len() ==> w[j] < GIFT_WEIGHT_RANGE
                    &&& forall|j: int| 0 <= j < w.len() && (j < 2 || j == old(self).lottery_index()) ==> w[j] == 0
                    &&& (final(self).accounts_view(), final(self).log_view()) == gifted(
                        old(self).accounts_view(),
                        old(self).log_view(),
                        first_gift,
                        shares(pool, w),
                        old(self).accounts_view().len(),
                        now,
                        old(self).lottery_index(),
                        old(self).rates_view(),
                    )
                },
    {
        let n = self.accounts.len();
        let ghost first = *self;
        let mut weights: Vec<u128> = Vec::new();
        let mut i: usize = 0;
        while i < n
            invariant
                i <= n,
                n == self.accounts@.len(),
                self.wf(),
                self.same_setup(&first),
                self.accounts_view() == first.accounts_view(),
                self.log_view() == first.log_view(),
                self.contributions_view() == first.contributions_view(),
                weights@.len() == i,
                forall|j: int| 0 <= j < i ==> weights@[j] < GIFT_WEIGHT_RANGE,
                forall|j: int| 0 <= j < i && (j < 2 || j == self.lottery as int) ==> weights@[j] == 0,
            decreases n - i,
        {
            let w = if i < 2 || i == self.lottery { 0 } else { draw_below(&mut self.rng, GIFT_WEIGHT_RANGE) };
            weights.push(w as u128);
            i = i + 1;
        }
        let gifts = split_pool(pool, &weights);
        self.give_gifts(first_gift, &gifts, now);
        assert(gifts@ == shares(pool, weights@));
    }

    /// Settles every wallet at `now` and gives a copy of the whole state.
    pub fn snapshot(&mut self, now: u64) -> (v: LedgerView)
        requires
            old(self).wf(),
        ensures
            final(self).wf(),
            final(self).same_setup(old(self)),
            final(self).accounts_view().len() == old(self).accounts_view().len(),
            final(self).accounts_view() == settled_upto(old(self).accounts_view(), old(self).accounts_view().len(), now, old(self).lottery_index(), old(self).rates_view()),
            total(final(self).accounts_view()) == total(old(self).accounts_view()),
            forall|i: int| 0 <= i < final(self).accounts_view().len() ==> final(self).accounts_view()[i].last_settled >= now,
            final(self).log_view() == old(self).log_view(),
            final(self).contributions_view() == old(self).contributions_view(),
            final(self).revision_view() == old(self).revision_view(),
            v.accounts@ == final(self).accounts_view(),
            v.log@ == final(self).log_view(),
            v.names@.len() == final(self).names_view().len(),
            forall|i: int| 0 <= i < v.names@.len() ==> v.names@[i]@ == final(self).names_view()[i]@,
            v.rates == final(self).rates_view(),
            v.supply == TOTAL_SUPPLY,
            v.lottery == final(self).lottery_index(),
            v.time == now,
            v.revision == final(self).revision_view(),
    {
        let n = self.accounts.len();
        let ghost start = *self;
        let mut i: usize = 0;
        while i < n
            invariant
                i <= n,
                n == self.accounts@.len(),
                self.wf(),
                self.same_setup(&start),
                self.log@ == start.log@,
                self.contributions@ == start.contributions@,
                self.revision == start.revision,
                forall|j: int| 0 <= j < i ==> self.accounts@[j].last_settled >= now,
                self.accounts@ == settled_upto(start.accounts@, i as nat, now, start.lottery as int, start.rates),
            decreases n - i,
        {
            proof {
                lemma_settle_sound(self.accounts@, i as int, now, self.lottery as int, self.rates);
            }
            self.settle(i, now);
            i = i + 1;
        }
        let mut names: Vec<String> = Vec::new();
        let mut accounts: Vec<Account> = Vec::new();
        let mut j: usize = 0;
        while j < n
            invariant
                j <= n,
                n == self.accounts@.len(),
                n == self.names@.len(),
                names@.len() == j,
                accounts@ == self.accounts@.take(j as int),
                forall|k: int| 0 <= k < j ==> names@[k]@ == self.names@[k]@,
            decreases n - j,
        {
            names.push(self.names[j].clone());
            accounts.push(self.accounts[j]);
            assert(accounts@ =~= self.accounts@.take(j as int + 1));
            j = j + 1;
        }
        assert(accounts@ =~= self.accounts@);
        let mut log: Vec<TxRecord> = Vec::new();
        let mut k: usize = 0;
        while k < self.log.len()
            invariant
                k <= self.log@.len(),
                log@ == self.log@.take(k as int),
            decreases self.log@.len() - k,
        {
            log.push(self.log[k]);
            assert(log@ =~= self.log@.take(k as int + 1));
            k = k + 1;
        }
        assert(log@ =~= self.log@);
        LedgerView {
            names,
            accounts,
            log,
            rates: self.rates,
            supply: TOTAL_SUPPLY,
            lottery: self.lottery,
            time: now,
            revision: self.revision,
        }
    }

    /// Number of wallets.
    pub fn len(&self) -> (r: usize)
        ensures
            r == self.accounts_view().len(),
    {
        self.accounts.len()
    }

    /// The account of wallet `i`.
    pub fn account(&self, i: usize) -> (r: Account)
        requires
            i < self.accounts_view().len(),
        ensures
            r == self.accounts_view()[i as int],
    {
        self.accounts[i]
    }

    /// The name of wallet `i`.
    pub fn name(&self, i: usize) -> (r: &String)
        requires
            i < self.names_view().len(),
        ensures
            r == self.names_view()[i as int],
    {
        &self.names[i]
    }

    /// The transaction log, oldest entry first.
    pub fn log(&self) -> (r: &Vec<TxRecord>)
        ensures
            r@ == self.log_view(),
    {
        &self.log
    }

    /// What each wallet has sent to the lottery wallet since the last draw.
    pub fn contributions(&self) -> (r: &Vec<u64>)
        ensures
            r@ == self.contributions_view(),
    {
        &self.contributions
    }

    /// Index of the lottery wallet.
    pub fn lottery(&self) -> (r: usize)
        ensures
            r == self.lottery_index(),
    {
        self.lottery
    }

    /// The configured rates.
    pub fn rates(&self) -> (r: Rates)
        ensures
            r == self.rates_view(),
    {
        self.rates
    }

    /// Counts the operations that changed the ledger (saturating).
    pub fn revision(&self) -> (r: u64)
        ensures
            r == self.revision_view(),
    {
        self.revision
    }

    /// The index of the wallet called `name`, if there is one.
    pub fn find(&self, name: &String) -> (r: Option<usize>)
        ensures
            match r {
                Some(i) => i < self.names_view().len() && self.names_view()[i as int]@ == name@,
                None => forall|i: int| 0 <= i < self.names_view().len() ==> self.names_view()[i]@ != name@,
            },
    {
        let mut i: usize = 0;
        while i < self.names.len()
            invariant
                i <= self.names@.len(),
                forall|j: int| 0 <= j < i ==> self.names@[j]@ != name@,
            decreases self.names@.len() - i,
        {
            if self.names[i] == *name {
                return Some(i);
            }
            i = i + 1;
        }
        None
    }
}

} // verus!
