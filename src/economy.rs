use std::collections::BTreeMap;
use vstd::prelude::*;

verus! {

/// One player's stake at a gambling table.
#[derive(Clone, Copy, Debug, PartialEq, Eq, Structural)]
pub struct Stake {
    pub user: u64,
    pub amount: u64,
}

/// A member's bank account; `last_claim` is the time income was last collected.
#[derive(Clone, Copy, Debug, PartialEq, Eq, Structural)]
pub struct UserAccount {
    pub balance: u64,
    pub last_claim: Option<i64>,
}

/// Why an economy operation was refused. Nothing is changed when one is returned.
#[derive(Clone, Copy, Debug, PartialEq, Eq, Structural)]
pub enum EconomyError {
    /// No table has the given id.
    NotFound,
    /// The caller is not the table's dealer.
    Forbidden,
    /// The account holds less than the buy-in.
    InsufficientFunds { balance: u64 },
    /// The pay-outs add up to more than the pot.
    PayoutExceedsPot { pot: u64 },
    /// The pay-outs do not add up to the whole pot.
    PayoutMismatch { pot: u64 },
    /// After the pay-out, the pot left at the open table would not equal the stakes left.
    InvariantViolation { remaining_pot: u64 },
    /// The table has no players to pay.
    NoPlayers,
    /// The fresh id drawn for a new table is already taken.
    IdInUse,
    /// An amount would leave the range of `u64`.
    Overflow,
}

/// How the dealer answered a pay-out confirmation.
#[derive(Clone, Copy, Debug, PartialEq, Eq, Structural)]
pub enum ConfirmationOutcome {
    Confirmed,
    Cancelled,
    TimedOut,
}

/// A gambling table: players buy in, and the dealer pays the pot out.
#[derive(Clone, Debug)]
pub struct GamblingTable {
    pub dealer: u64,
    pub name: String,
    pub buyin: u64,
    /// Stakes sorted by user id, one per user.
    pub players: Vec<Stake>,
    pub pot: u64,
}

/// What a table holds, as mathematical values.
pub struct TableView {
    pub dealer: u64,
    pub name: Seq<char>,
    pub buyin: u64,
    pub players: Seq<Stake>,
    pub pot: u64,
}

impl View for GamblingTable {
    type V = TableView;

    open spec fn view(&self) -> TableView {
        TableView {
            dealer: self.dealer,
            name: self.name@,
            buyin: self.buyin,
            players: self.players@,
            pot: self.pot,
        }
    }
}

/// Sum of the stakes of a ledger.
pub open spec fn total(s: Seq<Stake>) -> int
    decreases s.len(),
{
    if s.len() == 0 {
        0
    } else {
        total(s.drop_last()) + s.last().amount
    }
}

/// Users appear in increasing order, hence at most once.
pub open spec fn ledger_sorted(s: Seq<Stake>) -> bool {
    forall|j: int, k: int| 0 <= j < k < s.len() ==> (#[trigger] s[j]).user < (#[trigger] s[k]).user
}

/// Index of the first stake whose user is not below `u`.
pub open spec fn lower_bound(s: Seq<Stake>, u: u64) -> int
    decreases s.len(),
{
    if s.len() == 0 {
        0
    } else if s[0].user >= u {
        0
    } else {
        1 + lower_bound(s.drop_first(), u)
    }
}

/// What `u` has staked in the ledger (zero when absent).
pub open spec fn stake_of(s: Seq<Stake>, u: u64) -> int {
    let i = lower_bound(s, u);
    if 0 <= i < s.len() && s[i].user == u {
        s[i].amount as int
    } else {
        0
    }
}

/// The ledger after `u` adds `amount` to their stake, joining in order if new.
pub open spec fn credit(s: Seq<Stake>, u: u64, amount: u64) -> Seq<Stake> {
    let i = lower_bound(s, u);
    if 0 <= i < s.len() && s[i].user == u {
        s.update(i, Stake { user: u, amount: (s[i].amount + amount) as u64 })
    } else {
        s.insert(i, Stake { user: u, amount })
    }
}

/// The table ledger agrees with its pot.
pub open spec fn ledger_balanced(t: TableView) -> bool {
    &&& ledger_sorted(t.players)
    &&& t.pot == total(t.players)
}

pub proof fn lemma_total_update(s: Seq<Stake>, i: int, x: Stake)
    requires
        0 <= i < s.len(),
    ensures
        total(s.update(i, x)) == total(s) - s[i].amount + x.amount,
    decreases s.len(),
{
    if i == s.len() - 1 {
        assert(s.update(i, x).drop_last() =~= s.drop_last());
    } else {
        assert(s.update(i, x).drop_last() =~= s.drop_last().update(i, x));
        lemma_total_update(s.drop_last(), i, x);
    }
}

pub proof fn lemma_total_insert(s: Seq<Stake>, i: int, x: Stake)
    requires
        0 <= i <= s.len(),
    ensures
        total(s.insert(i, x)) == total(s) + x.amount,
    decreases s.len(),
{
    if i == s.len() {
        assert(s.insert(i, x).drop_last() =~= s);
    } else {
        assert(s.insert(i, x).drop_last() =~= s.drop_last().insert(i, x));
        lemma_total_insert(s.drop_last(), i, x);
    }
}

pub proof fn lemma_total_nonneg(s: Seq<Stake>)
    ensures
        total(s) >= 0,
    decreases s.len(),
{
    if s.len() > 0 {
        lemma_total_nonneg(s.drop_last());
    }
}

/// In a sorted ledger, the first index not below `u` is the lower bound.
pub proof fn lemma_lower_bound(s: Seq<Stake>, u: u64, i: int)
    requires
        ledger_sorted(s),
        0 <= i <= s.len(),
        forall|k: int| 0 <= k < i ==> (#[trigger] s[k]).user < u,
        i == s.len() || s[i].user >= u,
    ensures
        lower_bound(s, u) == i,
    decreases s.len(),
{
    if s.len() > 0 && i > 0 {
        let t = s.drop_first();
        assert forall|k: int| 0 <= k < i - 1 implies (#[trigger] t[k]).user < u by {
            assert(t[k] == s[k + 1]);
        }
        lemma_lower_bound(t, u, i - 1);
    }
}

/// `lower_bound` stays within the ledger and splits it at `u`.
pub proof fn lemma_lower_bound_bounds(s: Seq<Stake>, u: u64)
    requires
        ledger_sorted(s),
    ensures
        0 <= lower_bound(s, u) <= s.len(),
        forall|k: int| 0 <= k < lower_bound(s, u) ==> (#[trigger] s[k]).user < u,
        forall|k: int| lower_bound(s, u) <= k < s.len() ==> (#[trigger] s[k]).user >= u,
    decreases s.len(),
{
    if s.len() > 0 && s[0].user < u {
        let t = s.drop_first();
        assert(ledger_sorted(t));
        lemma_lower_bound_bounds(t, u);
        assert forall|k: int| 0 <= k < lower_bound(s, u) implies (#[trigger] s[k]).user < u by {
            if k > 0 {
                assert(s[k] == t[k - 1]);
            }
        }
        assert forall|k: int| lower_bound(s, u) <= k < s.len() implies (#[trigger] s[k]).user
            >= u by {
            assert(s[k] == t[k - 1]);
        }
    } else if s.len() > 0 {
        assert forall|k: int| 0 <= k < s.len() implies (#[trigger] s[k]).user >= u by {
            if k > 0 {
                assert(s[0].user < s[k].user);
            }
        }
    }
}

/// Crediting keeps the ledger sorted and adds the amount to its total.
pub proof fn lemma_credit(s: Seq<Stake>, u: u64, amount: u64)
    requires
        ledger_sorted(s),
        stake_of(s, u) + amount <= u64::MAX,
    ensures
        ledger_sorted(credit(s, u, amount)),
        total(credit(s, u, amount)) == total(s) + amount,
{
    lemma_lower_bound_bounds(s, u);
    let i = lower_bound(s, u);
    if 0 <= i < s.len() && s[i].user == u {
        lemma_total_update(s, i, Stake { user: u, amount: (s[i].amount + amount) as u64 });
    } else {
        let c = credit(s, u, amount);
        lemma_total_insert(s, i, Stake { user: u, amount });
        assert forall|j: int, k: int| 0 <= j < k < c.len() implies (#[trigger] c[j]).user < (
        #[trigger] c[k]).user by {
            if k < i {
            } else if k == i {
                if j < i {
                }
            } else if j < i {
                assert(c[k] == s[k - 1]);
            } else if j == i {
                assert(c[k] == s[k - 1]);
                if k - 1 > i {
                    assert(s[i].user < s[k - 1].user);
                }
            } else {
                assert(c[k] == s[k - 1]);
                assert(c[j] == s[j - 1]);
            }
        }
    }
}

/// Index of the first stake whose user is not below `user`.
fn position(players: &Vec<Stake>, user: u64) -> (i: usize)
    requires
        ledger_sorted(players@),
    ensures
        i == lower_bound(players@, user),
        i <= players@.len(),
{
    let mut i: usize = 0;
    while i < players.len() && players[i].user < user
        invariant
            0 <= i <= players@.len(),
            forall|k: int| 0 <= k < i ==> (#[trigger] players@[k]).user < user,
        decreases players@.len() - i,
    {
        i += 1;
    }
    proof {
        lemma_lower_bound(players@, user, i as int);
    }
    i
}

/// What `user` has staked at the table.
pub fn stake_in(players: &Vec<Stake>, user: u64) -> (r: u64)
    requires
        ledger_sorted(players@),
    ensures
        r == stake_of(players@, user),
{
    let i = position(players, user);
    if i < players.len() && players[i].user == user {
        players[i].amount
    } else {
        0
    }
}

fn credit_stake(players: &mut Vec<Stake>, user: u64, amount: u64)
    requires
        ledger_sorted(old(players)@),
        stake_of(old(players)@, user) + amount <= u64::MAX,
    ensures
        final(players)@ == credit(old(players)@, user, amount),
{
    let i = position(players, user);
    if i < players.len() && players[i].user == user {
        let s = players[i];
        players.set(i, Stake { user, amount: s.amount + amount });
    } else {
        players.insert(i, Stake { user, amount });
    }
}

impl GamblingTable {
    /// A new table with an empty pot.
    pub fn new(dealer: u64, name: String, buyin: u64) -> (r: GamblingTable)
        ensures
            r.dealer == dealer,
            r.name@ == name@,
            r.buyin == buyin,
            r.players@ == Seq::<Stake>::empty(),
            r.pot == 0,
            ledger_balanced(r@),
    {
        GamblingTable { dealer, name, buyin, players: Vec::new(), pot: 0 }
    }

    /// Whether `member` deals this table or has a stake in it.
    pub fn involves(&self, member: u64) -> (r: bool)
        ensures
            r == (self.dealer == member || exists|k: int|
                0 <= k < self.players@.len() && (#[trigger] self.players@[k]).user == member),
    {
        if self.dealer == member {
            return true;
        }
        let mut i: usize = 0;
        while i < self.players.len()
            invariant
                0 <= i <= self.players@.len(),
                self.dealer != member,
                forall|k: int| 0 <= k < i ==> (#[trigger] self.players@[k]).user != member,
            decreases self.players@.len() - i,
        {
            if self.players[i].user == member {
                return true;
            }
            i += 1;
        }
        false
    }

    /// A copy of the table.
    pub fn snapshot(&self) -> (r: GamblingTable)
        ensures
            r@ == self@,
    {
        let players = self.players.clone();
        assert(players@ =~= self.players@);
        GamblingTable {
            dealer: self.dealer,
            name: self.name.clone(),
            buyin: self.buyin,
            players,
            pot: self.pot,
        }
    }
}

/// Every account and every table of a guild.
pub struct Economy {
    pub accounts: BTreeMap<u64, UserAccount>,
    pub tables: BTreeMap<u128, GamblingTable>,
}

/// The economy as mathematical maps.
pub struct EconomyView {
    pub accounts: Map<u64, UserAccount>,
    pub tables: Map<u128, TableView>,
}

impl View for Economy {
    type V = EconomyView;

    open spec fn view(&self) -> EconomyView {
        EconomyView {
            accounts: self.accounts@,
            tables: self.tables@.map_values(|t: GamblingTable| t@),
        }
    }
}

/// The account of `u`, or a fresh one.
pub open spec fn account_of(accounts: Map<u64, UserAccount>, u: u64) -> UserAccount {
    if accounts.contains_key(u) {
        accounts[u]
    } else {
        UserAccount { balance: 0, last_claim: None }
    }
}

pub open spec fn table_result(r: Result<GamblingTable, EconomyError>) -> Result<TableView, EconomyError> {
    match r {
        Ok(t) => Ok(t@),
        Err(e) => Err(e),
    }
}

/// A buy-in of `u` at table `id`: the new economy and the updated table, or the refusal.
pub open spec fn buy_in_spec(e: EconomyView, id: u128, u: u64) -> (EconomyView, Result<
    TableView,
    EconomyError,
>) {
    if !e.tables.contains_key(id) {
        (e, Err(EconomyError::NotFound))
    } else {
        let t = e.tables[id];
        let acct = account_of(e.accounts, u);
        if acct.balance < t.buyin {
            (e, Err(EconomyError::InsufficientFunds { balance: acct.balance }))
        } else if t.pot + t.buyin > u64::MAX || stake_of(t.players, u) + t.buyin > u64::MAX {
            (e, Err(EconomyError::Overflow))
        } else {
            let nt = TableView {
                players: credit(t.players, u, t.buyin),
                pot: (t.pot + t.buyin) as u64,
                ..t
            };
            let na = UserAccount { balance: (acct.balance - t.buyin) as u64, ..acct };
            (EconomyView { accounts: e.accounts.insert(u, na), tables: e.tables.insert(id, nt) }, Ok(nt))
        }
    }
}

/// Sum of the amounts of a list of pay-outs `(user, amount)`.
pub open spec fn payout_sum(ps: Seq<(u64, u64)>) -> int
    decreases ps.len(),
{
    if ps.len() == 0 {
        0
    } else {
        payout_sum(ps.drop_last()) + ps.last().1
    }
}

/// Whether `u` receives a pay-out.
pub open spec fn is_payee(ps: Seq<(u64, u64)>, u: u64) -> bool {
    exists|k: int| 0 <= k < ps.len() && (#[trigger] ps[k]).0 == u
}

/// The accounts after each pay-out is credited, in order.
pub open spec fn pay_accounts(a: Map<u64, UserAccount>, ps: Seq<(u64, u64)>) -> Map<u64, UserAccount>
    decreases ps.len(),
{
    if ps.len() == 0 {
        a
    } else {
        let prev = pay_accounts(a, ps.drop_last());
        let acct = account_of(prev, ps.last().0);
        prev.insert(ps.last().0, UserAccount { balance: (acct.balance + ps.last().1) as u64, ..acct })
    }
}

/// No credited balance leaves the range of `u64`.
pub open spec fn pay_fits(a: Map<u64, UserAccount>, ps: Seq<(u64, u64)>) -> bool
    decreases ps.len(),
{
    ps.len() == 0 || (pay_fits(a, ps.drop_last()) && account_of(
        pay_accounts(a, ps.drop_last()),
        ps.last().0,
    ).balance + ps.last().1 <= u64::MAX)
}

/// The stakes of the players who receive no pay-out.
pub open spec fn unpaid(s: Seq<Stake>, ps: Seq<(u64, u64)>) -> Seq<Stake>
    decreases s.len(),
{
    if s.len() == 0 {
        s
    } else {
        let rest = unpaid(s.drop_last(), ps);
        if is_payee(ps, s.last().user) {
            rest
        } else {
            rest.push(s.last())
        }
    }
}

/// Whether a pay-out would leave an open table whose pot differs from its stakes.
pub open spec fn breaks_ledger(t: TableView, ps: Seq<(u64, u64)>) -> bool {
    t.pot - payout_sum(ps) != 0 && total(unpaid(t.players, ps)) != t.pot - payout_sum(ps)
}

/// A pay-out of table `id`: paid players leave the ledger, the pot shrinks by the sum,
/// and a table whose pot is empty is closed. A pay-out after which the open table's pot
/// would not equal the stakes left is refused.
pub open spec fn payout_spec(e: EconomyView, id: u128, ps: Seq<(u64, u64)>) -> (EconomyView, Result<
    TableView,
    EconomyError,
>) {
    if !e.tables.contains_key(id) {
        (e, Err(EconomyError::NotFound))
    } else {
        let t = e.tables[id];
        if payout_sum(ps) > t.pot {
            (e, Err(EconomyError::PayoutExceedsPot { pot: t.pot }))
        } else if breaks_ledger(t, ps) {
            (e, Err(EconomyError::InvariantViolation { remaining_pot: (t.pot - payout_sum(ps)) as u64 }))
        } else if !pay_fits(e.accounts, ps) {
            (e, Err(EconomyError::Overflow))
        } else {
            let nt = TableView {
                players: unpaid(t.players, ps),
                pot: (t.pot - payout_sum(ps)) as u64,
                ..t
            };
            let tables = if nt.pot == 0 {
                e.tables.remove(id)
            } else {
                e.tables.insert(id, nt)
            };
            (EconomyView { accounts: pay_accounts(e.accounts, ps), tables }, Ok(nt))
        }
    }
}

pub proof fn lemma_payout_sum_prefix(ps: Seq<(u64, u64)>, i: int)
    requires
        0 <= i <= ps.len(),
    ensures
        payout_sum(ps.subrange(0, i)) <= payout_sum(ps),
        payout_sum(ps.subrange(0, i)) >= 0,
    decreases ps.len(),
{
    if i == ps.len() {
        assert(ps.subrange(0, i) =~= ps);
        if ps.len() > 0 {
            lemma_payout_sum_prefix(ps.drop_last(), i - 1);
            assert(ps.drop_last().subrange(0, i - 1) =~= ps.drop_last());
        }
    } else {
        lemma_payout_sum_prefix(ps.drop_last(), i);
        assert(ps.drop_last().subrange(0, i) =~= ps.subrange(0, i));
    }
}

pub proof fn lemma_pay_fits_prefix(a: Map<u64, UserAccount>, ps: Seq<(u64, u64)>, i: int)
    requires
        0 <= i <= ps.len(),
        pay_fits(a, ps),
    ensures
        pay_fits(a, ps.subrange(0, i)),
    decreases ps.len(),
{
    if i == ps.len() {
        assert(ps.subrange(0, i) =~= ps);
    } else {
        lemma_pay_fits_prefix(a, ps.drop_last(), i);
        assert(ps.drop_last().subrange(0, i) =~= ps.subrange(0, i));
    }
}

/// Every stake left unpaid comes from the ledger, so the order is kept.
pub proof fn lemma_unpaid_sorted(s: Seq<Stake>, ps: Seq<(u64, u64)>)
    requires
        ledger_sorted(s),
    ensures
        ledger_sorted(unpaid(s, ps)),
        unpaid(s, ps).len() <= s.len(),
        forall|k: int|
            0 <= k < unpaid(s, ps).len() ==> exists|j: int|
                0 <= j < s.len() && s[j] == #[trigger] unpaid(s, ps)[k],
    decreases s.len(),
{
    if s.len() > 0 {
        let d = s.drop_last();
        lemma_unpaid_sorted(d, ps);
        let rest = unpaid(d, ps);
        assert forall|k: int| 0 <= k < rest.len() implies (#[trigger] rest[k]).user < s.last().user by {
            let j = choose|j: int| 0 <= j < d.len() && d[j] == rest[k];
            assert(s[j] == d[j]);
        }
        let u = unpaid(s, ps);
        assert forall|k: int| 0 <= k < u.len() implies exists|j: int|
            0 <= j < s.len() && s[j] == #[trigger] u[k] by {
            if k < rest.len() {
                let j = choose|j: int| 0 <= j < d.len() && d[j] == rest[k];
                assert(s[j] == u[k]);
            } else {
                assert(s[s.len() - 1] == u[k]);
            }
        }
    }
}

/// Every table's ledger agrees with its pot.
pub open spec fn all_balanced(e: EconomyView) -> bool {
    forall|id: u128| #[trigger] e.tables.contains_key(id) ==> ledger_balanced(e.tables[id])
}

/// A buy-in keeps every table's pot equal to the sum of its stakes.
pub proof fn lemma_buy_in_keeps_tables_balanced(e: EconomyView, id: u128, u: u64)
    requires
        all_balanced(e),
    ensures
        all_balanced(buy_in_spec(e, id, u).0),
{
    if e.tables.contains_key(id) {
        let t = e.tables[id];
        assert(ledger_balanced(t));
        if stake_of(t.players, u) + t.buyin <= u64::MAX {
            lemma_credit(t.players, u, t.buyin);
        }
    }
}

/// A pay-out keeps every table's pot equal to the sum of its stakes.
pub proof fn lemma_payout_keeps_tables_balanced(e: EconomyView, id: u128, ps: Seq<(u64, u64)>)
    requires
        all_balanced(e),
    ensures
        all_balanced(payout_spec(e, id, ps).0),
{
    if e.tables.contains_key(id) {
        let t = e.tables[id];
        assert(ledger_balanced(t));
        lemma_unpaid_sorted(t.players, ps);
        lemma_payout_sum_prefix(ps, ps.len() as int);
        assert(ps.subrange(0, ps.len() as int) =~= ps);
        let e2 = payout_spec(e, id, ps).0;
        assert forall|k: u128| #[trigger] e2.tables.contains_key(k) implies ledger_balanced(
            e2.tables[k],
        ) by {
            if k != id {
                assert(e.tables.contains_key(k));
            } else if payout_sum(ps) <= t.pot && !breaks_ledger(t, ps) && pay_fits(e.accounts, ps) {
                assert(t.pot - payout_sum(ps) == total(unpaid(t.players, ps)));
                assert(e2.tables[k].players == unpaid(t.players, ps));
                assert(e2.tables[k].pot == t.pot - payout_sum(ps));
            }
        }
    }
}

/// Once a member whose balance covered exactly one buy-in has bought in, any further
/// buy-in of theirs at a table with a positive buy-in is refused and changes nothing.
pub proof fn lemma_no_double_spend(e: EconomyView, first: u128, second: u128, u: u64)
    requires
        e.tables.contains_key(first),
        account_of(e.accounts, u).balance == e.tables[first].buyin,
        buy_in_spec(e, first, u).1 is Ok,
        buy_in_spec(e, first, u).0.tables.contains_key(second),
        buy_in_spec(e, first, u).0.tables[second].buyin > 0,
    ensures
        ({
            let e2 = buy_in_spec(e, first, u).0;
            buy_in_spec(e2, second, u) == (e2, Err::<TableView, EconomyError>(
                EconomyError::InsufficientFunds { balance: 0 },
            ))
        }),
{
}

/// A pay-out of the whole pot closes the table: any later pay-out of it finds nothing
/// and changes nothing.
pub proof fn lemma_no_double_payout(
    e: EconomyView,
    id: u128,
    first: Seq<(u64, u64)>,
    second: Seq<(u64, u64)>,
)
    requires
        e.tables.contains_key(id),
        payout_sum(first) == e.tables[id].pot,
        payout_spec(e, id, first).1 is Ok,
    ensures
        ({
            let e2 = payout_spec(e, id, first).0;
            payout_spec(e2, id, second) == (e2, Err::<TableView, EconomyError>(
                EconomyError::NotFound,
            ))
        }),
{
}

/// A successful buy-in moves exactly the buy-in from the member's balance into the pot;
/// every other account and table stays as it was.
pub proof fn lemma_buy_in_moves_money(e: EconomyView, id: u128, u: u64)
    requires
        buy_in_spec(e, id, u).1 is Ok,
    ensures
        ({
            let e2 = buy_in_spec(e, id, u).0;
            &&& e.tables.contains_key(id) && e2.tables.contains_key(id)
            &&& account_of(e2.accounts, u).balance + e2.tables[id].pot == account_of(e.accounts, u).balance
                + e.tables[id].pot
            &&& e2.tables[id].pot == e.tables[id].pot + e.tables[id].buyin
            &&& account_of(e2.accounts, u).balance == account_of(e.accounts, u).balance - e.tables[id].buyin
            &&& forall|v: u64| v != u ==> account_of(e2.accounts, v) == account_of(e.accounts, v)
            &&& forall|k: u128| k != id ==> e2.tables.contains_key(k) == e.tables.contains_key(k) && (
            e.tables.contains_key(k) ==> e2.tables[k] == e.tables[k])
        }),
{
}

/// A buy-in succeeds exactly when the table exists, the balance covers the buy-in and the
/// new pot and stake fit in `u64`; the table then stays balanced.
pub proof fn lemma_buy_in_succeeds(e: EconomyView, id: u128, u: u64)
    requires
        e.tables.contains_key(id),
        ledger_balanced(e.tables[id]),
        account_of(e.accounts, u).balance >= e.tables[id].buyin,
        e.tables[id].pot + e.tables[id].buyin <= u64::MAX,
        stake_of(e.tables[id].players, u) + e.tables[id].buyin <= u64::MAX,
    ensures
        buy_in_spec(e, id, u).1 is Ok,
        ledger_balanced(buy_in_spec(e, id, u).0.tables[id]),
        stake_of(buy_in_spec(e, id, u).0.tables[id].players, u) == stake_of(e.tables[id].players, u)
            + e.tables[id].buyin,
{
    let t = e.tables[id];
    lemma_credit(t.players, u, t.buyin);
    lemma_lower_bound_bounds(t.players, u);
    let c = credit(t.players, u, t.buyin);
    let i = lower_bound(t.players, u);
    if !(0 <= i < t.players.len() && t.players[i].user == u) {
        assert forall|k: int| 0 <= k < i implies (#[trigger] c[k]).user < u by {
            assert(c[k] == t.players[k]);
        }
    }
    lemma_lower_bound(c, u, i);
}

/// The economy after `n` buy-ins of `u` at table `id` in a row, and how many succeeded.
pub open spec fn repeated_buy_ins(e: EconomyView, id: u128, u: u64, n: nat) -> (EconomyView, nat)
    decreases n,
{
    if n == 0 {
        (e, 0)
    } else {
        let (e1, ok) = repeated_buy_ins(e, id, u, (n - 1) as nat);
        let (e2, r) = buy_in_spec(e1, id, u);
        (e2, if r is Ok { ok + 1 } else { ok })
    }
}

/// Any number of buy-ins in a row by a member whose balance covers exactly one: exactly
/// one succeeds, the others are refused and change nothing.
pub proof fn lemma_buy_ins_in_a_row(e: EconomyView, id: u128, u: u64, n: nat)
    requires
        n >= 1,
        e.tables.contains_key(id),
        e.tables[id].buyin > 0,
        account_of(e.accounts, u).balance == e.tables[id].buyin,
        buy_in_spec(e, id, u).1 is Ok,
    ensures
        repeated_buy_ins(e, id, u, n) == (buy_in_spec(e, id, u).0, 1nat),
    decreases n,
{
    let e2 = buy_in_spec(e, id, u).0;
    if n == 1 {
        assert(repeated_buy_ins(e, id, u, 0) == (e, 0nat));
    } else {
        lemma_buy_ins_in_a_row(e, id, u, (n - 1) as nat);
        assert(e2.tables.contains_key(id) && e2.tables[id].buyin == e.tables[id].buyin);
        lemma_no_double_spend(e, id, id, u);
        assert(buy_in_spec(e2, id, u).1 is Err);
    }
}

/// A pay-out of the whole pot that every payee's balance can take succeeds.
pub proof fn lemma_whole_pot_payout_succeeds(e: EconomyView, id: u128, ps: Seq<(u64, u64)>)
    requires
        e.tables.contains_key(id),
        payout_sum(ps) == e.tables[id].pot,
        pay_fits(e.accounts, ps),
    ensures
        payout_spec(e, id, ps).1 is Ok,
        !payout_spec(e, id, ps).0.tables.contains_key(id),
{
}

/// The economy after the pay-outs `calls` of table `id` in order, and how many succeeded.
pub open spec fn repeated_payouts(e: EconomyView, id: u128, calls: Seq<Seq<(u64, u64)>>) -> (EconomyView, nat)
    decreases calls.len(),
{
    if calls.len() == 0 {
        (e, 0)
    } else {
        let (e1, ok) = repeated_payouts(e, id, calls.drop_last());
        let (e2, r) = payout_spec(e1, id, calls.last());
        (e2, if r is Ok { ok + 1 } else { ok })
    }
}

/// Of several pay-outs of a table in a row, the first of which pays the whole pot and
/// succeeds, exactly that one changes the economy: the others find no table.
pub proof fn lemma_payouts_in_a_row(e: EconomyView, id: u128, calls: Seq<Seq<(u64, u64)>>)
    requires
        calls.len() >= 1,
        e.tables.contains_key(id),
        payout_sum(calls[0]) == e.tables[id].pot,
        pay_fits(e.accounts, calls[0]),
    ensures
        repeated_payouts(e, id, calls) == (payout_spec(e, id, calls[0]).0, 1nat),
    decreases calls.len(),
{
    lemma_whole_pot_payout_succeeds(e, id, calls[0]);
    let e2 = payout_spec(e, id, calls[0]).0;
    if calls.len() == 1 {
        assert(calls.drop_last() =~= Seq::<Seq<(u64, u64)>>::empty());
        assert(repeated_payouts(e, id, calls.drop_last()) == (e, 0nat));
        assert(calls.last() == calls[0]);
    } else {
        assert(calls.drop_last()[0] == calls[0]);
        lemma_payouts_in_a_row(e, id, calls.drop_last());
        lemma_no_double_payout(e, id, calls[0], calls.last());
        assert(payout_spec(e2, id, calls.last()).1 is Err);
    }
}

/// The last index holding the largest amount.
pub open spec fn is_last_max(ps: Seq<(u64, u64)>, w: int) -> bool {
    &&& 0 <= w < ps.len()
    &&& forall|k: int| 0 <= k < ps.len() ==> (#[trigger] ps[k]).1 <= ps[w].1
    &&& forall|k: int| w < k < ps.len() ==> (#[trigger] ps[k]).1 < ps[w].1
}

pub proof fn lemma_payout_sum_update(ps: Seq<(u64, u64)>, i: int, x: (u64, u64))
    requires
        0 <= i < ps.len(),
    ensures
        payout_sum(ps.update(i, x)) == payout_sum(ps) - ps[i].1 + x.1,
    decreases ps.len(),
{
    if i == ps.len() - 1 {
        assert(ps.update(i, x).drop_last() =~= ps.drop_last());
    } else {
        assert(ps.update(i, x).drop_last() =~= ps.drop_last().update(i, x));
        lemma_payout_sum_update(ps.drop_last(), i, x);
    }
}

pub proof fn lemma_payout_sum_bounds(ps: Seq<(u64, u64)>, i: int)
    requires
        0 <= i < ps.len(),
    ensures
        ps[i].1 <= payout_sum(ps),
    decreases ps.len(),
{
    lemma_payout_sum_prefix(ps.drop_last(), ps.len() - 1);
    if i < ps.len() - 1 {
        lemma_payout_sum_bounds(ps.drop_last(), i);
    }
}

/// The stakes of the players not paid, and their total (`over` when it exceeds `u64`).
fn remaining_stakes(players: &Vec<Stake>, payouts: &Vec<(u64, u64)>) -> (r: (Vec<Stake>, u64, bool))
    ensures
        r.0@ == unpaid(players@, payouts@),
        !r.2 ==> r.1 == total(r.0@),
        r.2 ==> total(r.0@) > u64::MAX,
{
    let ghost players0 = players@;
    let ghost ps = payouts@;
    let mut kept: Vec<Stake> = Vec::new();
    let mut kept_total: u64 = 0;
    let mut over = false;
    let mut j: usize = 0;
    while j < players.len()
        invariant
            0 <= j <= players0.len(),
            players@ == players0,
            ps == payouts@,
            kept@ == unpaid(players0.subrange(0, j as int), ps),
            !over ==> kept_total == total(kept@),
            over ==> total(kept@) > u64::MAX,
        decreases players0.len() - j,
    {
        let p = players[j];
        let mut paid = false;
        let mut k: usize = 0;
        while k < payouts.len()
            invariant
                0 <= k <= ps.len(),
                ps == payouts@,
                paid <==> exists|m: int| 0 <= m < k && (#[trigger] ps[m]).0 == p.user,
            decreases ps.len() - k,
        {
            if payouts[k].0 == p.user {
                paid = true;
            }
            k += 1;
        }
        assert(players0.subrange(0, j + 1).drop_last() =~= players0.subrange(0, j as int));
        if !paid {
            let ghost before = kept@;
            kept.push(p);
            assert(kept@.drop_last() =~= before);
            if !over {
                if p.amount > u64::MAX - kept_total {
                    over = true;
                } else {
                    kept_total = kept_total + p.amount;
                }
            }
        }
        j += 1;
    }
    assert(players0.subrange(0, players0.len() as int) =~= players0);
    (kept, kept_total, over)
}

/// Every table's ledger is sorted by user.
pub open spec fn tables_sorted(e: EconomyView) -> bool {
    forall|id: u128| #[trigger] e.tables.contains_key(id) ==> ledger_sorted(e.tables[id].players)
}

impl Economy {
    pub open spec fn wf(&self) -> bool {
        tables_sorted(self@)
    }

    pub fn new() -> (r: Economy)
        ensures
            r@.accounts == Map::<u64, UserAccount>::empty(),
            r@.tables == Map::<u128, TableView>::empty(),
            r.wf(),
    {
        let r = Economy { accounts: BTreeMap::new(), tables: BTreeMap::new() };
        assert(r@.tables =~= Map::<u128, TableView>::empty());
        r
    }

    /// Moves the buy-in of table `table_id` from `user`'s account into the table's pot,
    /// adding it to the user's stake.
    pub fn buy_in(&mut self, table_id: u128, user: u64) -> (r: Result<GamblingTable, EconomyError>)
        requires
            old(self).wf(),
        ensures
            final(self).wf(),
            (final(self)@, table_result(r)) == buy_in_spec(old(self)@, table_id, user),
            all_balanced(old(self)@) ==> all_balanced(final(self)@),
    {
        proof {
            if all_balanced(self@) {
                lemma_buy_in_keeps_tables_balanced(self@, table_id, user);
            }
        }
        let ghost e0 = self@;
        let (buyin, pot, stake) = match self.tables.get(&table_id) {
            Some(t) => {
                assert(e0.tables.contains_key(table_id));
                assert(e0.tables[table_id] == t@);
                (t.buyin, t.pot, stake_in(&t.players, user))
            },
            None => {
                return Err(EconomyError::NotFound);
            },
        };
        let account: UserAccount = match self.accounts.get(&user) {
            Some(a) => *a,
            None => UserAccount { balance: 0, last_claim: None },
        };
        if account.balance < buyin {
            return Err(EconomyError::InsufficientFunds { balance: account.balance });
        }
        if pot > u64::MAX - buyin || stake > u64::MAX - buyin {
            return Err(EconomyError::Overflow);
        }
        let mut table = match self.tables.remove(&table_id) {
            Some(t) => t,
            None => {
                return Err(EconomyError::NotFound);
            },
        };
        proof {
            lemma_credit(table.players@, user, buyin);
        }
        credit_stake(&mut table.players, user, buyin);
        table.pot = pot + buyin;
        let result = table.snapshot();
        self.tables.insert(table_id, table);
        self.accounts.insert(user, UserAccount { balance: account.balance - buyin, ..account });
        proof {
            assert(self@.tables =~= e0.tables.insert(table_id, result@));
        }
        Ok(result)
    }

    /// Pays each `(user, amount)` of `payouts` out of table `table_id`: the amounts are
    /// credited to the accounts, paid players leave the table, and the pot shrinks by
    /// the sum. A table whose pot reaches zero is closed. A pay-out that would leave the
    /// open table's pot unequal to the stakes of the players left is refused. Returns the
    /// table as it stands after the pay-out.
    pub fn apply_payout(&mut self, table_id: u128, payouts: &Vec<(u64, u64)>) -> (r: Result<
        GamblingTable,
        EconomyError,
    >)
        requires
            old(self).wf(),
        ensures
            final(self).wf(),
            (final(self)@, table_result(r)) == payout_spec(old(self)@, table_id, payouts@),
            all_balanced(old(self)@) ==> all_balanced(final(self)@),
    {
        proof {
            if all_balanced(self@) {
                lemma_payout_keeps_tables_balanced(self@, table_id, payouts@);
            }
        }
        let ghost e0 = self@;
        let ghost ps = payouts@;
        let pot = match self.tables.get(&table_id) {
            Some(t) => {
                assert(e0.tables.contains_key(table_id));
                t.pot
            },
            None => {
                return Err(EconomyError::NotFound);
            },
        };
        let mut sum: u64 = 0;
        let mut i: usize = 0;
        while i < payouts.len()
            invariant
                0 <= i <= ps.len(),
                ps == payouts@,
                self@ == e0,
                self.wf(),
                e0.tables.contains_key(table_id),
                pot == e0.tables[table_id].pot,
                sum == payout_sum(ps.subrange(0, i as int)),
                sum <= pot,
            decreases ps.len() - i,
        {
            let x = payouts[i].1;
            assert(ps.subrange(0, i + 1).drop_last() =~= ps.subrange(0, i as int));
            if x > pot - sum {
                proof {
                    lemma_payout_sum_prefix(ps, i + 1);
                }
                return Err(EconomyError::PayoutExceedsPot { pot });
            }
            sum = sum + x;
            i += 1;
        }
        assert(ps.subrange(0, ps.len() as int) =~= ps);
        let (kept, kept_total, over) = match self.tables.get(&table_id) {
            Some(t) => {
                assert(e0.tables[table_id] == t@);
                remaining_stakes(&t.players, payouts)
            },
            None => {
                return Err(EconomyError::NotFound);
            },
        };
        let remaining = pot - sum;
        if remaining != 0 && (over || kept_total != remaining) {
            return Err(EconomyError::InvariantViolation { remaining_pot: remaining });
        }
        assert(!breaks_ledger(e0.tables[table_id], ps));
        let mut accounts = self.accounts.clone();
        i = 0;
        while i < payouts.len()
            invariant
                0 <= i <= ps.len(),
                ps == payouts@,
                self@ == e0,
                self.wf(),
                e0.tables.contains_key(table_id),
                pot == e0.tables[table_id].pot,
                sum == payout_sum(ps),
                sum <= pot,
                kept@ == unpaid(e0.tables[table_id].players, ps),
                !breaks_ledger(e0.tables[table_id], ps),
                remaining == pot - sum,
                accounts@ == pay_accounts(e0.accounts, ps.subrange(0, i as int)),
                pay_fits(e0.accounts, ps.subrange(0, i as int)),
            decreases ps.len() - i,
        {
            let (user, x) = payouts[i];
            let acct: UserAccount = match accounts.get(&user) {
                Some(a) => *a,
                None => UserAccount { balance: 0, last_claim: None },
            };
            assert(ps.subrange(0, i + 1).drop_last() =~= ps.subrange(0, i as int));
            if acct.balance > u64::MAX - x {
                proof {
                    if pay_fits(e0.accounts, ps) {
                        lemma_pay_fits_prefix(e0.accounts, ps, i + 1);
                    }
                }
                return Err(EconomyError::Overflow);
            }
            accounts.insert(user, UserAccount { balance: acct.balance + x, ..acct });
            i += 1;
        }
        let mut table = match self.tables.remove(&table_id) {
            Some(t) => t,
            None => {
                return Err(EconomyError::NotFound);
            },
        };
        proof {
            lemma_unpaid_sorted(e0.tables[table_id].players, ps);
        }
        table.players = kept;
        table.pot = remaining;
        self.accounts = accounts;
        if table.pot == 0 {
            proof {
                assert(self@.tables =~= e0.tables.remove(table_id));
            }
            Ok(table)
        } else {
            let result = table.snapshot();
            self.tables.insert(table_id, table);
            proof {
                assert(self@.tables =~= e0.tables.insert(table_id, result@));
            }
            Ok(result)
        }
    }

    /// Adds `table` under `id`, replacing any table that had it.
    pub fn insert_table(&mut self, id: u128, table: GamblingTable)
        requires
            old(self).wf(),
            ledger_sorted(table.players@),
        ensures
            final(self).wf(),
            final(self)@.accounts == old(self)@.accounts,
            final(self)@.tables == old(self)@.tables.insert(id, table@),
            all_balanced(old(self)@) && ledger_balanced(table@) ==> all_balanced(final(self)@),
    {
        let ghost e0 = self@;
        let ghost tv = table@;
        self.tables.insert(id, table);
        assert(self@.tables =~= e0.tables.insert(id, tv));
    }

    /// Opens a new empty table under `id` and returns the id; if `id` is taken, nothing
    /// changes.
    pub fn open_table_with_id(&mut self, id: u128, dealer: u64, name: String, buyin: u64) -> (r: Result<
        u128,
        EconomyError,
    >)
        requires
            old(self).wf(),
        ensures
            final(self).wf(),
            old(self)@.tables.contains_key(id) ==> r == Err::<u128, EconomyError>(EconomyError::IdInUse)
                && final(self)@ == old(self)@,
            !old(self)@.tables.contains_key(id) ==> r == Ok::<u128, EconomyError>(id) && final(self)@.accounts
                == old(self)@.accounts && final(self)@.tables == old(self)@.tables.insert(
                id,
                TableView { dealer, name: name@, buyin, players: Seq::empty(), pot: 0 },
            ),
            all_balanced(old(self)@) ==> all_balanced(final(self)@),
    {
        if self.tables.contains_key(&id) {
            return Err(EconomyError::IdInUse);
        }
        let table = GamblingTable::new(dealer, name, buyin);
        self.insert_table(id, table);
        Ok(id)
    }

    /// Opens a new table under a fresh random id and returns the id; if the id drawn is
    /// taken, nothing changes.
    pub fn open_table(&mut self, dealer: u64, name: String, buyin: u64) -> (r: Result<u128, EconomyError>)
        requires
            old(self).wf(),
        ensures
            final(self).wf(),
            final(self)@.accounts == old(self)@.accounts,
            match r {
                Ok(id) => !old(self)@.tables.contains_key(id) && final(self)@.tables
                    == old(self)@.tables.insert(
                    id,
                    TableView { dealer, name: name@, buyin, players: Seq::empty(), pot: 0 },
                ),
                Err(e) => e == EconomyError::IdInUse && final(self)@ == old(self)@,
            },
            all_balanced(old(self)@) ==> all_balanced(final(self)@),
    {
        self.open_table_with_id(crate::ids::random_id(), dealer, name, buyin)
    }

    /// A copy of table `table_id`.
    pub fn table(&self, table_id: u128) -> (r: Result<GamblingTable, EconomyError>)
        ensures
            !self@.tables.contains_key(table_id) ==> r == Err::<GamblingTable, EconomyError>(
                EconomyError::NotFound,
            ),
            self@.tables.contains_key(table_id) ==> table_result(r) == Ok::<TableView, EconomyError>(
                self@.tables[table_id],
            ),
    {
        match self.tables.get(&table_id) {
            Some(t) => {
                assert(self@.tables.contains_key(table_id));
                Ok(t.snapshot())
            },
            None => Err(EconomyError::NotFound),
        }
    }

    /// The table that `user` may pay out: it exists, `user` deals it, and someone has
    /// bought in.
    pub fn table_for_payout(&self, table_id: u128, user: u64) -> (r: Result<GamblingTable, EconomyError>)
        ensures
            !self@.tables.contains_key(table_id) ==> r == Err::<GamblingTable, EconomyError>(
                EconomyError::NotFound,
            ),
            self@.tables.contains_key(table_id) ==> {
                let t = self@.tables[table_id];
                if t.dealer != user {
                    r == Err::<GamblingTable, EconomyError>(EconomyError::Forbidden)
                } else if t.players.len() == 0 {
                    r == Err::<GamblingTable, EconomyError>(EconomyError::NoPlayers)
                } else {
                    table_result(r) == Ok::<TableView, EconomyError>(t)
                }
            },
    {
        match self.tables.get(&table_id) {
            Some(t) => {
                assert(self@.tables.contains_key(table_id));
                if t.dealer != user {
                    Err(EconomyError::Forbidden)
                } else if t.players.len() == 0 {
                    Err(EconomyError::NoPlayers)
                } else {
                    Ok(t.snapshot())
                }
            },
            None => Err(EconomyError::NotFound),
        }
    }

    /// Ends a pay-out confirmation: only a confirmed pay-out is applied. A cancelled or
    /// timed-out one leaves the economy exactly as it was.
    pub fn finish_payout(
        &mut self,
        table_id: u128,
        payouts: &Vec<(u64, u64)>,
        outcome: ConfirmationOutcome,
    ) -> (r: Result<Option<GamblingTable>, EconomyError>)
        requires
            old(self).wf(),
        ensures
            final(self).wf(),
            outcome == ConfirmationOutcome::Confirmed ==> {
                let (e, res) = payout_spec(old(self)@, table_id, payouts@);
                &&& final(self)@ == e
                &&& match r {
                    Ok(Some(t)) => res == Ok::<TableView, EconomyError>(t@),
                    Ok(None) => false,
                    Err(x) => res == Err::<TableView, EconomyError>(x),
                }
            },
            outcome != ConfirmationOutcome::Confirmed ==> final(self)@ == old(self)@ && r
                == Ok::<Option<GamblingTable>, EconomyError>(None),
    {
        match outcome {
            ConfirmationOutcome::Confirmed => match self.apply_payout(table_id, payouts) {
                Ok(t) => Ok(Some(t)),
                Err(x) => Err(x),
            },
            _ => Ok(None),
        }
    }
    /// Pays out the whole pot of table `table_id` and closes it: the pay-outs must add up
    /// to the pot exactly. Returns the table as it was.
    pub fn pay_out(&mut self, table_id: u128, payouts: &Vec<(u64, u64)>) -> (r: Result<
        GamblingTable,
        EconomyError,
    >)
        requires
            old(self).wf(),
        ensures
            final(self).wf(),
            !old(self)@.tables.contains_key(table_id) ==> r == Err::<GamblingTable, EconomyError>(
                EconomyError::NotFound,
            ) && final(self)@ == old(self)@,
            old(self)@.tables.contains_key(table_id) ==> {
                let t = old(self)@.tables[table_id];
                if payout_sum(payouts@) != t.pot {
                    r == Err::<GamblingTable, EconomyError>(EconomyError::PayoutMismatch { pot: t.pot })
                        && final(self)@ == old(self)@
                } else if !pay_fits(old(self)@.accounts, payouts@) {
                    r == Err::<GamblingTable, EconomyError>(EconomyError::Overflow) && final(self)@
                        == old(self)@
                } else {
                    &&& table_result(r) == Ok::<TableView, EconomyError>(t)
                    &&& final(self)@.accounts == pay_accounts(old(self)@.accounts, payouts@)
                    &&& final(self)@.tables == old(self)@.tables.remove(table_id)
                }
            },
    {
        let before = match self.tables.get(&table_id) {
            Some(t) => {
                assert(self@.tables.contains_key(table_id));
                t.snapshot()
            },
            None => {
                return Err(EconomyError::NotFound);
            },
        };
        let ghost ps = payouts@;
        let ghost e0 = self@;
        let mut sum: u64 = 0;
        let mut i: usize = 0;
        while i < payouts.len()
            invariant
                0 <= i <= ps.len(),
                ps == payouts@,
                self@ == e0,
                self.wf(),
                e0.tables.contains_key(table_id),
                before@ == e0.tables[table_id],
                sum == payout_sum(ps.subrange(0, i as int)),
            decreases ps.len() - i,
        {
            let x = payouts[i].1;
            assert(ps.subrange(0, i + 1).drop_last() =~= ps.subrange(0, i as int));
            if x > u64::MAX - sum {
                proof {
                    lemma_payout_sum_prefix(ps, i + 1);
                }
                return Err(EconomyError::PayoutMismatch { pot: before.pot });
            }
            sum = sum + x;
            i += 1;
        }
        assert(ps.subrange(0, ps.len() as int) =~= ps);
        if sum != before.pot {
            return Err(EconomyError::PayoutMismatch { pot: before.pot });
        }
        match self.apply_payout(table_id, payouts) {
            Ok(_) => Ok(before),
            Err(x) => Err(x),
        }
    }

    /// Collects the income of `member` for `days` days at `daily` a day. The member gets
    /// an account if they had none. The income is paid, and `now` recorded as the last
    /// claim, only when `claim` holds (members collect their own income) and the income
    /// is not zero. Returns the account and the income.
    pub fn claim_income(&mut self, member: u64, claim: bool, days: u32, daily: u64, now: i64) -> (r: Result<
        (UserAccount, u64),
        EconomyError,
    >)
        requires
            old(self).wf(),
        ensures
            final(self).wf(),
            final(self)@.tables == old(self)@.tables,
            ({
                let acct = account_of(old(self)@.accounts, member);
                let income = days * daily;
                if income > u64::MAX || (claim && income != 0 && acct.balance + income > u64::MAX) {
                    r == Err::<(UserAccount, u64), EconomyError>(EconomyError::Overflow)
                        && final(self)@ == old(self)@
                } else {
                    let na = if claim && income != 0 {
                        UserAccount { balance: (acct.balance + income) as u64, last_claim: Some(now) }
                    } else {
                        acct
                    };
                    &&& r == Ok::<(UserAccount, u64), EconomyError>((na, income as u64))
                    &&& final(self)@.accounts == old(self)@.accounts.insert(member, na)
                }
            }),
    {
        let acct: UserAccount = match self.accounts.get(&member) {
            Some(a) => *a,
            None => UserAccount { balance: 0, last_claim: None },
        };
        proof {
            assert((days as u128) * (daily as u128) <= 0xffff_ffffu128 * 0xffff_ffff_ffff_ffffu128)
                by (nonlinear_arith);
        }
        let income_wide: u128 = (days as u128) * (daily as u128);
        if income_wide > u64::MAX as u128 {
            return Err(EconomyError::Overflow);
        }
        let income = income_wide as u64;
        let mut na = acct;
        if claim && income != 0 {
            if acct.balance > u64::MAX - income {
                return Err(EconomyError::Overflow);
            }
            na = UserAccount { balance: acct.balance + income, last_claim: Some(now) };
        }
        let ghost e0 = self@;
        self.accounts.insert(member, na);
        assert(self@.tables =~= e0.tables);
        Ok((na, income))
    }
}

/// How a click on the confirmation message ends the wait: a click by anyone but the
/// dealer is ignored (`None`).
pub fn confirmation_click(dealer: u64, clicker: u64, confirm: bool) -> (r: Option<ConfirmationOutcome>)
    ensures
        clicker != dealer ==> r is None,
        clicker == dealer && confirm ==> r == Some(ConfirmationOutcome::Confirmed),
        clicker == dealer && !confirm ==> r == Some(ConfirmationOutcome::Cancelled),
{
    if clicker != dealer {
        None
    } else if confirm {
        Some(ConfirmationOutcome::Confirmed)
    } else {
        Some(ConfirmationOutcome::Cancelled)
    }
}

/// The amount entered for `u`: the first entry naming them.
pub open spec fn entered_amount(entered: Seq<(u64, u64)>, u: u64) -> Option<u64>
    decreases entered.len(),
{
    if entered.len() == 0 {
        None
    } else if entered[0].0 == u {
        Some(entered[0].1)
    } else {
        entered_amount(entered.drop_first(), u)
    }
}

/// The pay-outs to the players, in table order, that have an entered amount.
pub open spec fn selected_payouts(players: Seq<Stake>, entered: Seq<(u64, u64)>) -> Seq<(u64, u64)>
    decreases players.len(),
{
    if players.len() == 0 {
        Seq::empty()
    } else {
        let rest = selected_payouts(players.drop_last(), entered);
        match entered_amount(entered, players.last().user) {
            Some(x) => rest.push((players.last().user, x)),
            None => rest,
        }
    }
}

fn entered_for(entered: &Vec<(u64, u64)>, u: u64) -> (r: Option<u64>)
    ensures
        r == entered_amount(entered@, u),
{
    let ghost s = entered@;
    let mut i: usize = 0;
    assert(s.subrange(0, s.len() as int) =~= s);
    while i < entered.len()
        invariant
            0 <= i <= s.len(),
            s == entered@,
            entered_amount(s, u) == entered_amount(s.subrange(i as int, s.len() as int), u),
        decreases s.len() - i,
    {
        assert(s.subrange(i as int, s.len() as int).drop_first() =~= s.subrange(i + 1, s.len() as int));
        if entered[i].0 == u {
            return Some(entered[i].1);
        }
        i += 1;
    }
    assert(s.subrange(i as int, s.len() as int) =~= Seq::<(u64, u64)>::empty());
    None
}

/// "Pay selected players": the players of the table, in table order, that the dealer
/// entered an amount for, each with that amount.
pub fn select_payouts(players: &Vec<Stake>, entered: &Vec<(u64, u64)>) -> (r: Vec<(u64, u64)>)
    ensures
        r@ == selected_payouts(players@, entered@),
{
    let ghost s = players@;
    let mut out: Vec<(u64, u64)> = Vec::new();
    let mut i: usize = 0;
    while i < players.len()
        invariant
            0 <= i <= s.len(),
            s == players@,
            out@ == selected_payouts(s.subrange(0, i as int), entered@),
        decreases s.len() - i,
    {
        assert(s.subrange(0, i + 1).drop_last() =~= s.subrange(0, i as int));
        let u = players[i].user;
        match entered_for(entered, u) {
            Some(x) => out.push((u, x)),
            None => {},
        }
        i += 1;
    }
    assert(s.subrange(0, s.len() as int) =~= s);
    out
}

/// `a` comes before `b` on the leaderboard: the larger balance first, then the smaller
/// user id (accounts are listed by id, and equal balances keep that order).
pub open spec fn ranks_before(a: (u64, u64), b: (u64, u64)) -> bool {
    a.1 > b.1 || (a.1 == b.1 && a.0 <= b.0)
}

pub open spec fn ranked(s: Seq<(u64, u64)>) -> bool {
    forall|i: int, j: int| 0 <= i < j < s.len() ==> ranks_before(#[trigger] s[i], #[trigger] s[j])
}

fn before(a: (u64, u64), b: (u64, u64)) -> (r: bool)
    ensures
        r == ranks_before(a, b),
{
    a.1 > b.1 || (a.1 == b.1 && a.0 <= b.0)
}

/// The leaderboard order of `(user, balance)` pairs.
pub fn rank_accounts(accounts: &Vec<(u64, u64)>) -> (r: Vec<(u64, u64)>)
    ensures
        ranked(r@),
        r@.to_multiset() == accounts@.to_multiset(),
{
    let ghost s = accounts@;
    let mut out: Vec<(u64, u64)> = Vec::new();
    let mut i: usize = 0;
    proof {
        assert(s.subrange(0, 0) =~= Seq::<(u64, u64)>::empty());
        assert(out@ =~= Seq::<(u64, u64)>::empty());
    }
    while i < accounts.len()
        invariant
            0 <= i <= s.len(),
            s == accounts@,
            ranked(out@),
            out@.to_multiset() == s.subrange(0, i as int).to_multiset(),
        decreases s.len() - i,
    {
        let x = accounts[i];
        let mut p: usize = 0;
        while p < out.len() && before(out[p], x)
            invariant
                0 <= p <= out@.len(),
                forall|k: int| 0 <= k < p ==> ranks_before(#[trigger] out@[k], x),
            decreases out@.len() - p,
        {
            p += 1;
        }
        let ghost o = out@;
        out.insert(p, x);
        proof {
            assert(out@ == o.insert(p as int, x));
            assert(s.subrange(0, i + 1) =~= s.subrange(0, i as int).push(x));
            vstd::seq_lib::to_multiset_insert(o, p as int, x);
            vstd::seq_lib::to_multiset_build(s.subrange(0, i as int), x);
            assert forall|a: int, b: int| 0 <= a < b < out@.len() implies ranks_before(
                #[trigger] out@[a],
                #[trigger] out@[b],
            ) by {
                if b < p {
                    assert(out@[a] == o[a] && out@[b] == o[b]);
                } else if b == p {
                    assert(out@[a] == o[a]);
                } else if a < p {
                    assert(out@[a] == o[a] && out@[b] == o[b - 1]);
                } else if a == p {
                    assert(out@[b] == o[b - 1]);
                    assert(!ranks_before(o[p as int], x));
                    if b - 1 > p {
                        assert(ranks_before(o[p as int], o[b - 1]));
                    }
                } else {
                    assert(out@[a] == o[a - 1] && out@[b] == o[b - 1]);
                }
            }
        }
        i += 1;
    }
    assert(s.subrange(0, s.len() as int) =~= s);
    out
}

/// Days of income owed: the whole grace period for a first claim, else the days since
/// the last claim, at most the grace period.
pub fn rewarded_days(grace_period_days: u32, last_claim_day: Option<i64>, today: i64) -> (r: u32)
    ensures
        r == match last_claim_day {
            None => grace_period_days as int,
            Some(d) => if today - d < 0 {
                0
            } else if today - d > grace_period_days {
                grace_period_days as int
            } else {
                today - d
            },
        },
{
    match last_claim_day {
        None => grace_period_days,
        Some(d) => {
            let passed: i128 = (today as i128) - (d as i128);
            if passed < 0 {
                0
            } else if passed > grace_period_days as i128 {
                grace_period_days
            } else {
                passed as u32
            }
        },
    }
}

/// Gives what the pay-outs leave of `pot` to the largest pay-out (the last one, among
/// equals), so that the whole pot is paid.
pub fn settle_remainder(payouts: &mut Vec<(u64, u64)>, pot: u64)
    requires
        old(payouts)@.len() > 0,
        payout_sum(old(payouts)@) <= pot,
    ensures
        exists|w: int|
            is_last_max(old(payouts)@, w) && final(payouts)@ == old(payouts)@.update(
                w,
                (old(payouts)@[w].0, (old(payouts)@[w].1 + pot - payout_sum(old(payouts)@)) as u64),
            ),
        payout_sum(final(payouts)@) == pot,
{
    let ghost ps = payouts@;
    let mut w: usize = 0;
    let mut sum: u64 = payouts[0].1;
    let mut i: usize = 1;
    assert(ps.subrange(0, 1).drop_last() =~= ps.subrange(0, 0));
    assert(payout_sum(ps.subrange(0, 0)) == 0);
    assert(ps.subrange(0, 1).last() == ps[0]);
    while i < payouts.len()
        invariant
            1 <= i <= ps.len(),
            payouts@ == ps,
            0 <= w < i,
            forall|k: int| 0 <= k < i ==> (#[trigger] ps[k]).1 <= ps[w as int].1,
            forall|k: int| w < k < i ==> (#[trigger] ps[k]).1 < ps[w as int].1,
            sum == payout_sum(ps.subrange(0, i as int)),
            payout_sum(ps) <= pot,
        decreases ps.len() - i,
    {
        assert(ps.subrange(0, i + 1).drop_last() =~= ps.subrange(0, i as int));
        proof {
            lemma_payout_sum_prefix(ps, i + 1);
        }
        if payouts[i].1 >= payouts[w].1 {
            w = i;
        }
        sum = sum + payouts[i].1;
        i += 1;
    }
    assert(ps.subrange(0, ps.len() as int) =~= ps);
    proof {
        lemma_payout_sum_bounds(ps, w as int);
    }
    let (user, amount) = payouts[w];
    let x = (user, amount + (pot - sum));
    payouts.set(w, x);
    proof {
        lemma_payout_sum_update(ps, w as int, x);
        assert(is_last_max(ps, w as int));
    }
}

} // verus!
