//! The parimutuel market ledger: accounts, markets, wagers and payouts.
//!
//! The ledger is a deterministic state machine. Each operation either fully
//! commits its effects and returns a result message, or returns a named
//! error and leaves the state exactly as it was.
//!
//! Policy choices, stated once here and applied uniformly:
//! - Administration is gated: the first `set_admin` is open, afterwards only
//!   the current admin may reassign, and only the admin may resolve markets.
//! - Resolution only flips a market's status; winners claim their payouts
//!   one bet at a time through `claim_winnings`.
//! - A claimed payout is `floor(stake * total_pool / winning_pool)` computed
//!   exactly over the integers (truncation towards zero), where the stake is
//!   the claimed bet's own amount. Value lost to truncation ("dust") stays
//!   unaccounted by design.

use vstd::prelude::*;

use crate::arith::mul_div;
use crate::sums::{
    lemma_seq_sum_congruence, lemma_seq_sum_elem_bound, lemma_seq_sum_nonneg,
    lemma_seq_sum_pointwise_except, lemma_seq_sum_push, lemma_seq_sum_scaled_bound,
    lemma_seq_sum_take_bound, lemma_seq_sum_update, lemma_seq_sum_zero, seq_sum,
};
use crate::text::{dec_seq, u128_to_string, u64_to_string};

verus! {

/// Balance granted by `initialize`, once per account.
pub const INITIAL_BALANCE: u128 = 10_000;

/// A single wager: one identity staking `amount` on one side of one market.
/// Immutable once placed, except for the `claimed` flag, which is set at
/// most once and never reset.
#[derive(Clone, Copy, PartialEq, Eq, Structural, Debug)]
pub struct UserBet {
    pub market_id: u64,
    /// `true` is the YES side.
    pub side: bool,
    pub amount: u128,
    pub claimed: bool,
}

/// One account: a balance, whether `initialize` has been used, and the
/// account's wagers in placement order.
#[derive(Debug)]
pub struct UserState {
    pub balance: u128,
    pub initialized: bool,
    pub bets: Vec<UserBet>,
}

/// A market's lifecycle: open for betting, then exactly one terminal
/// resolution. Never reversed.
#[derive(Clone, Copy, PartialEq, Eq, Structural, Debug)]
pub enum MarketStatus {
    Open,
    ResolvedYes,
    ResolvedNo,
}

/// A yes/no market: two stake pools and the cumulative stake of each bettor
/// on each side.
#[derive(Debug)]
pub struct Market {
    pub id: u64,
    pub creator: String,
    pub description: String,
    pub yes_pool: u128,
    pub no_pool: u128,
    pub yes_bettors: Vec<(String, u128)>,
    pub no_bettors: Vec<(String, u128)>,
    pub status: MarketStatus,
    pub created_at: u64,
}

/// The closed set of conditions on which an operation is rejected. Every
/// rejection leaves the state unchanged.
#[derive(Clone, Copy, PartialEq, Eq, Structural, Debug)]
pub enum MarketError {
    AlreadyInitialized,
    NotInitialized,
    InsufficientBalance,
    MarketNotFound,
    MarketNotOpen,
    MarketNotResolved,
    Unauthorized,
    UserNotFound,
    NoUnclaimedBet,
    NoWinningPool,
}

/// The failure reason of each error, as surfaced to callers.
pub open spec fn error_text(e: MarketError) -> Seq<char> {
    match e {
        MarketError::AlreadyInitialized => "User already initialized"@,
        MarketError::NotInitialized => "User not initialized. Use Initialize first."@,
        MarketError::InsufficientBalance => "Insufficient balance"@,
        MarketError::MarketNotFound => "Market not found"@,
        MarketError::MarketNotOpen => "Market is not open"@,
        MarketError::MarketNotResolved => "Market not resolved yet"@,
        MarketError::Unauthorized => "Unauthorized"@,
        MarketError::UserNotFound => "User not found"@,
        MarketError::NoUnclaimedBet => "No unclaimed bet found for this market"@,
        MarketError::NoWinningPool => "No winning pool"@,
    }
}

impl MarketError {
    /// The failure reason surfaced to callers.
    pub fn message(&self) -> (r: &'static str)
        ensures
            r@ == error_text(*self),
    {
        match self {
            MarketError::AlreadyInitialized => "User already initialized",
            MarketError::NotInitialized => "User not initialized. Use Initialize first.",
            MarketError::InsufficientBalance => "Insufficient balance",
            MarketError::MarketNotFound => "Market not found",
            MarketError::MarketNotOpen => "Market is not open",
            MarketError::MarketNotResolved => "Market not resolved yet",
            MarketError::Unauthorized => "Unauthorized",
            MarketError::UserNotFound => "User not found",
            MarketError::NoUnclaimedBet => "No unclaimed bet found for this market",
            MarketError::NoWinningPool => "No winning pool",
        }
    }
}

/// The whole ledger state: all accounts, all markets, the market id
/// counter, and the designated admin (if one has been set).
#[derive(Debug)]
pub struct Contract1 {
    pub users: Vec<(String, UserState)>,
    pub markets: Vec<Market>,
    pub next_market_id: u64,
    pub admin: Option<String>,
}

/// The closed set of commands the ledger accepts, with the fields each one
/// carries.
#[derive(PartialEq, Debug)]
pub enum MarketAction {
    SetAdmin { new_admin: String },
    Initialize,
    CreateMarket { description: String },
    PlaceBet { market_id: u64, side: bool, amount: u128 },
    ResolveMarket { market_id: u64, outcome: bool },
    ClaimWinnings { market_id: u64 },
    GetBalance,
    GetMarketInfo { market_id: u64 },
}

// ---------------------------------------------------------------------
// Spec-level model
// ---------------------------------------------------------------------

/// Index of the first entry with the given key, or -1.
pub open spec fn key_index<V>(entries: Seq<(String, V)>, id: Seq<char>) -> int
    decreases entries.len(),
{
    if entries.len() == 0 {
        -1
    } else if entries[0].0@ == id {
        0
    } else {
        let r = key_index(entries.drop_first(), id);
        if r < 0 {
            -1
        } else {
            r + 1
        }
    }
}

pub proof fn lemma_key_index<V>(entries: Seq<(String, V)>, id: Seq<char>)
    ensures
        -1 <= key_index(entries, id) < entries.len(),
        key_index(entries, id) >= 0 ==> entries[key_index(entries, id)].0@ == id,
        forall|j: int|
            0 <= j < entries.len() && j < key_index(entries, id) ==> entries[j].0@ != id,
        key_index(entries, id) == -1 ==> forall|j: int|
            0 <= j < entries.len() ==> entries[j].0@ != id,
    decreases entries.len(),
{
    if entries.len() > 0 && entries[0].0@ != id {
        lemma_key_index(entries.drop_first(), id);
        assert(forall|j: int|
            1 <= j < entries.len() ==> entries[j] == entries.drop_first()[j - 1]);
    }
}

/// `key_index` depends only on the keys.
pub proof fn lemma_key_index_same_keys<V>(a: Seq<(String, V)>, b: Seq<(String, V)>, id: Seq<char>)
    requires
        a.len() == b.len(),
        forall|j: int| 0 <= j < a.len() ==> a[j].0@ == #[trigger] b[j].0@,
    ensures
        key_index(a, id) == key_index(b, id),
    decreases a.len(),
{
    if a.len() > 0 {
        assert(a[0].0@ == b[0].0@);
        assert(forall|j: int|
            0 <= j < a.len() - 1 ==> a.drop_first()[j].0@ == #[trigger] b.drop_first()[j].0@);
        lemma_key_index_same_keys(a.drop_first(), b.drop_first(), id);
    }
}

/// How `key_index` behaves across an append.
pub proof fn lemma_key_index_push<V>(entries: Seq<(String, V)>, p: (String, V), id: Seq<char>)
    ensures
        key_index(entries.push(p), id) == (if key_index(entries, id) >= 0 {
            key_index(entries, id)
        } else if p.0@ == id {
            entries.len() as int
        } else {
            -1int
        }),
    decreases entries.len(),
{
    if entries.len() == 0 {
        assert(entries.push(p)[0] == p);
        assert(entries.push(p).drop_first() =~= Seq::<(String, V)>::empty());
        assert(key_index(Seq::<(String, V)>::empty(), id) == -1);
        assert(key_index(entries, id) == -1);
    } else {
        assert(entries.push(p)[0] == entries[0]);
        if entries[0].0@ == id {
            assert(key_index(entries.push(p), id) == 0);
            assert(key_index(entries, id) == 0);
        } else {
            assert(entries.push(p).drop_first() =~= entries.drop_first().push(p));
            lemma_key_index_push(entries.drop_first(), p, id);
            assert(key_index(entries.push(p).drop_first(), id) == key_index(
                entries.drop_first().push(p),
                id,
            ));
        }
    }
}

pub open spec fn unique_keys<V>(entries: Seq<(String, V)>) -> bool {
    forall|i: int, j: int|
        0 <= i < j < entries.len() ==> #[trigger] entries[i].0@ != #[trigger] entries[j].0@
}

// Contribution functions for the ledger's sums.
pub open spec fn balance_fn() -> spec_fn((String, UserState)) -> int {
    |p: (String, UserState)| p.1.balance as int
}

pub open spec fn init_count_fn() -> spec_fn((String, UserState)) -> int {
    |p: (String, UserState)|
        if p.1.initialized {
            1int
        } else {
            0int
        }
}

pub open spec fn stake_fn() -> spec_fn((String, u128)) -> int {
    |p: (String, u128)| p.1 as int
}

/// Amount a single bet contributes to the given market side.
pub open spec fn bet_side_fn(market_id: u64, side: bool) -> spec_fn(UserBet) -> int {
    |b: UserBet|
        if b.market_id == market_id && b.side == side {
            b.amount as int
        } else {
            0int
        }
}

/// Per-account stake on the given market side, summed over the account's bets.
pub open spec fn user_side_fn(market_id: u64, side: bool) -> spec_fn((String, UserState)) -> int {
    |p: (String, UserState)| seq_sum(p.1.bets@, bet_side_fn(market_id, side))
}

/// Sum of all account balances.
pub open spec fn sum_balances(users: Seq<(String, UserState)>) -> int {
    seq_sum(users, balance_fn())
}

pub open spec fn count_initialized(users: Seq<(String, UserState)>) -> int {
    seq_sum(users, init_count_fn())
}

/// Total value ever granted by `initialize`.
pub open spec fn minted(users: Seq<(String, UserState)>) -> int {
    INITIAL_BALANCE * count_initialized(users)
}

/// Sum of the cumulative stakes recorded in one side's bettor table.
pub open spec fn stakes_sum(entries: Seq<(String, u128)>) -> int {
    seq_sum(entries, stake_fn())
}

/// Total amount wagered on one side of one market, over all accounts.
pub open spec fn users_side_sum(
    users: Seq<(String, UserState)>,
    market_id: u64,
    side: bool,
) -> int {
    seq_sum(users, user_side_fn(market_id, side))
}

pub open spec fn is_resolved(st: MarketStatus) -> bool {
    st == MarketStatus::ResolvedYes || st == MarketStatus::ResolvedNo
}

/// The winning side of a resolved market.
pub open spec fn winner_of(st: MarketStatus) -> bool {
    st == MarketStatus::ResolvedYes
}

pub open spec fn side_pool(m: Market, side: bool) -> u128 {
    if side {
        m.yes_pool
    } else {
        m.no_pool
    }
}

/// The parimutuel payout for a stake of `amount`:
/// `floor(amount * (winning + losing) / winning)`, exact integer division.
pub open spec fn spec_payout(amount: u128, winning: u128, losing: u128) -> int {
    (amount * (winning + losing)) / (winning as int)
}

/// What one bet is still owed by a resolved market: its payout if it is an
/// unclaimed winning bet of that market, and nothing otherwise.
pub open spec fn bet_claimable_fn(m: Market) -> spec_fn(UserBet) -> int {
    |b: UserBet|
        if b.market_id == m.id && !b.claimed && is_resolved(m.status) && b.side == winner_of(
            m.status,
        ) && side_pool(m, winner_of(m.status)) > 0 {
            spec_payout(b.amount, side_pool(m, winner_of(m.status)), side_pool(m, !winner_of(m.status)))
        } else {
            0int
        }
}

pub open spec fn user_claimable_fn(m: Market) -> spec_fn((String, UserState)) -> int {
    |p: (String, UserState)| seq_sum(p.1.bets@, bet_claimable_fn(m))
}

/// Everything a resolved market still owes to winners.
pub open spec fn users_claimable(users: Seq<(String, UserState)>, m: Market) -> int {
    seq_sum(users, user_claimable_fn(m))
}

/// Value held in escrow by one market: an open market holds its whole pool,
/// a resolved one owes exactly the unclaimed winning payouts.
pub open spec fn market_potential_fn(
    users: Seq<(String, UserState)>,
) -> spec_fn(Market) -> int {
    |m: Market|
        if m.status == MarketStatus::Open {
            m.yes_pool + m.no_pool
        } else {
            users_claimable(users, m)
        }
}

pub open spec fn markets_potential(
    users: Seq<(String, UserState)>,
    markets: Seq<Market>,
) -> int {
    seq_sum(markets, market_potential_fn(users))
}

/// Cumulative stake recorded for `id` in one side's bettor table.
pub open spec fn stake_of(entries: Seq<(String, u128)>, id: Seq<char>) -> int {
    let k = key_index(entries, id);
    if k >= 0 {
        entries[k].1 as int
    } else {
        0
    }
}

pub open spec fn wf_user(u: UserState) -> bool {
    !u.initialized ==> u.balance == 0 && u.bets@.len() == 0
}

/// A market's own invariants: its id equals its position plus one, each
/// side's pool equals both the sum of that side's bettor table and the sum
/// of all bet amounts placed on that side.
pub open spec fn wf_market(users: Seq<(String, UserState)>, m: Market, j: int) -> bool {
    &&& m.id == j + 1
    &&& unique_keys(m.yes_bettors@)
    &&& unique_keys(m.no_bettors@)
    &&& m.yes_pool as int == stakes_sum(m.yes_bettors@)
    &&& m.no_pool as int == stakes_sum(m.no_bettors@)
    &&& users_side_sum(users, m.id, true) == m.yes_pool as int
    &&& users_side_sum(users, m.id, false) == m.no_pool as int
}

/// Every bet references an existing market, and bets on open markets are
/// never claimed.
pub open spec fn wf_bets(users: Seq<(String, UserState)>, markets: Seq<Market>) -> bool {
    forall|i: int, k: int|
        0 <= i < users.len() && 0 <= k < #[trigger] users[i].1.bets@.len() ==> {
            let b = #[trigger] users[i].1.bets@[k];
            &&& 1 <= b.market_id <= markets.len()
            &&& (markets[b.market_id - 1].status == MarketStatus::Open ==> !b.claimed)
        }
}

/// Well-formedness of the whole ledger. Constructors establish it and every
/// operation preserves it. The last clause is the conservation law: value in
/// circulation never exceeds value minted.
pub open spec fn wf(c: Contract1) -> bool {
    &&& unique_keys(c.users@)
    &&& c.markets@.len() == c.next_market_id as int
    &&& forall|j: int| 0 <= j < c.markets@.len() ==> wf_market(c.users@, #[trigger] c.markets@[j], j)
    &&& forall|i: int| 0 <= i < c.users@.len() ==> wf_user(#[trigger] c.users@[i].1)
    &&& wf_bets(c.users@, c.markets@)
    &&& sum_balances(c.users@) + markets_potential(c.users@, c.markets@) <= minted(c.users@)
    &&& forall|j: int|
        0 <= j < c.markets@.len() ==> (#[trigger] c.markets@[j].yes_pool) as int
            + c.markets@[j].no_pool as int <= minted(c.users@)
}

// ---------------------------------------------------------------------
// Result messages
// ---------------------------------------------------------------------

pub open spec fn msg_admin_set(admin: Seq<char>) -> Seq<char> {
    "Admin set to "@ + admin
}

pub open spec fn msg_initialized() -> Seq<char> {
    "Initialized with "@ + dec_seq(INITIAL_BALANCE as nat) + " balance"@
}

pub open spec fn msg_balance(balance: u128) -> Seq<char> {
    "Balance: "@ + dec_seq(balance as nat)
}

pub open spec fn msg_market_created(id: nat) -> Seq<char> {
    "Market #"@ + dec_seq(id) + " created"@
}

pub open spec fn side_name(side: bool) -> Seq<char> {
    if side {
        "YES"@
    } else {
        "NO"@
    }
}

pub open spec fn msg_bet_placed(amount: u128, side: bool, market_id: u64, remaining: u128) -> Seq<
    char,
> {
    "Bet placed: "@ + dec_seq(amount as nat) + " on "@ + side_name(side) + " for market #"@
        + dec_seq(market_id as nat) + ". Remaining balance: "@ + dec_seq(remaining as nat)
}

pub open spec fn msg_market_resolved(market_id: u64, outcome: bool) -> Seq<char> {
    "Market #"@ + dec_seq(market_id as nat) + " resolved as "@ + side_name(outcome)
}

pub open spec fn msg_claimed(payout: u128, market_id: u64) -> Seq<char> {
    "Claimed "@ + dec_seq(payout as nat) + " winnings from market #"@ + dec_seq(market_id as nat)
}

pub open spec fn msg_lost() -> Seq<char> {
    "Your bet did not win"@
}

pub open spec fn status_name(st: MarketStatus) -> Seq<char> {
    match st {
        MarketStatus::Open => "Open"@,
        MarketStatus::ResolvedYes => "Resolved: YES"@,
        MarketStatus::ResolvedNo => "Resolved: NO"@,
    }
}

pub open spec fn msg_market_info(m: Market) -> Seq<char> {
    "Market #"@ + dec_seq(m.id as nat) + ": "@ + m.description@ + "\nStatus: "@ + status_name(
        m.status,
    ) + "\nYES pool: "@ + dec_seq(m.yes_pool as nat) + "\nNO pool: "@ + dec_seq(m.no_pool as nat)
        + "\nTotal pool: "@ + dec_seq((m.yes_pool + m.no_pool) as nat)
}

// ---------------------------------------------------------------------
// Operation postconditions
//
// Each operation's exact behaviour is one predicate over the pre-state, the
// post-state, the arguments and the result; `execute` dispatches to the same
// predicates.
// ---------------------------------------------------------------------

/// The two states hold the same data.
pub open spec fn state_eq(post: Contract1, pre: Contract1) -> bool {
    &&& post.users@ == pre.users@
    &&& post.markets@ == pre.markets@
    &&& post.next_market_id == pre.next_market_id
    &&& post.admin == pre.admin
}

pub open spec fn set_admin_post(
    pre: Contract1,
    post: Contract1,
    identity: Seq<char>,
    new_admin: String,
    r: Result<String, MarketError>,
) -> bool {
    &&& post.users@ == pre.users@
    &&& post.markets@ == pre.markets@
    &&& post.next_market_id == pre.next_market_id
    &&& match pre.admin {
        None => r matches Ok(msg) && msg@ == msg_admin_set(new_admin@) && post.admin == Some(
            new_admin,
        ),
        Some(a) => {
            if a@ == identity {
                r matches Ok(msg) && msg@ == msg_admin_set(new_admin@) && post.admin == Some(
                    new_admin,
                )
            } else {
                r == Err::<String, MarketError>(MarketError::Unauthorized) && post.admin
                    == pre.admin
            }
        },
    }
}

pub open spec fn initialize_post(
    pre: Contract1,
    post: Contract1,
    identity: Seq<char>,
    r: Result<String, MarketError>,
) -> bool {
    &&& post.markets@ == pre.markets@
    &&& post.next_market_id == pre.next_market_id
    &&& post.admin == pre.admin
    &&& ({
        let i = key_index(pre.users@, identity);
        if i >= 0 && pre.users@[i].1.initialized {
            r == Err::<String, MarketError>(MarketError::AlreadyInitialized) && post.users@
                == pre.users@
        } else {
            r matches Ok(msg) && msg@ == msg_initialized() && (if i >= 0 {
                post.users@ == pre.users@.update(
                    i,
                    (
                        pre.users@[i].0,
                        (UserState {
                            balance: INITIAL_BALANCE,
                            initialized: true,
                            bets: pre.users@[i].1.bets,
                        }),
                    ),
                )
            } else {
                post.users@.len() == pre.users@.len() + 1 && post.users@.drop_last() == pre.users@
                    && post.users@.last().0@ == identity && post.users@.last().1.balance
                    == INITIAL_BALANCE && post.users@.last().1.initialized
                    && post.users@.last().1.bets@.len() == 0
            })
        }
    })
}

pub open spec fn get_balance_post(
    c: Contract1,
    identity: Seq<char>,
    r: Result<String, MarketError>,
) -> bool {
    let i = key_index(c.users@, identity);
    if i >= 0 {
        r matches Ok(msg) && msg@ == msg_balance(c.users@[i].1.balance)
    } else {
        r == Err::<String, MarketError>(MarketError::UserNotFound)
    }
}

pub open spec fn create_market_post(
    pre: Contract1,
    post: Contract1,
    identity: Seq<char>,
    description: Seq<char>,
    r: Result<String, MarketError>,
) -> bool {
    let i = key_index(pre.users@, identity);
    if i < 0 || !pre.users@[i].1.initialized {
        r == Err::<String, MarketError>(MarketError::NotInitialized) && state_eq(post, pre)
    } else {
        &&& r matches Ok(msg) && msg@ == msg_market_created((pre.next_market_id + 1) as nat)
        &&& post.users@ == pre.users@
        &&& post.admin == pre.admin
        &&& post.next_market_id as int == pre.next_market_id as int + 1
        &&& post.markets@.len() == pre.markets@.len() + 1
        &&& post.markets@.drop_last() == pre.markets@
        &&& ({
            let m = post.markets@.last();
            &&& m.id as int == pre.next_market_id as int + 1
            &&& m.creator@ == identity
            &&& m.description@ == description
            &&& m.yes_pool == 0
            &&& m.no_pool == 0
            &&& m.yes_bettors@.len() == 0
            &&& m.no_bettors@.len() == 0
            &&& m.status == MarketStatus::Open
            &&& m.created_at == 0
        })
    }
}

pub open spec fn place_bet_post(
    pre: Contract1,
    post: Contract1,
    identity: Seq<char>,
    market_id: u64,
    side: bool,
    amount: u128,
    r: Result<String, MarketError>,
) -> bool {
    let i = key_index(pre.users@, identity);
    if i < 0 || !pre.users@[i].1.initialized {
        r == Err::<String, MarketError>(MarketError::NotInitialized) && state_eq(post, pre)
    } else if pre.users@[i].1.balance < amount {
        r == Err::<String, MarketError>(MarketError::InsufficientBalance) && state_eq(post, pre)
    } else if market_id < 1 || market_id > pre.markets@.len() {
        r == Err::<String, MarketError>(MarketError::MarketNotFound) && state_eq(post, pre)
    } else if pre.markets@[market_id - 1].status != MarketStatus::Open {
        r == Err::<String, MarketError>(MarketError::MarketNotOpen) && state_eq(post, pre)
    } else {
        let u = pre.users@[i];
        let mi = market_id - 1;
        let m = pre.markets@[mi];
        &&& r matches Ok(msg) && msg@ == msg_bet_placed(
            amount,
            side,
            market_id,
            (u.1.balance - amount) as u128,
        )
        &&& post.admin == pre.admin
        &&& post.next_market_id == pre.next_market_id
        &&& post.users@.len() == pre.users@.len()
        &&& (forall|j: int|
            0 <= j < pre.users@.len() && j != i ==> post.users@[j] == #[trigger] pre.users@[j])
        &&& post.users@[i].0 == u.0
        &&& post.users@[i].1.balance as int == u.1.balance - amount
        &&& post.users@[i].1.initialized
        &&& post.users@[i].1.bets@ == u.1.bets@.push(
            (UserBet { market_id, side, amount, claimed: false }),
        )
        &&& post.markets@.len() == pre.markets@.len()
        &&& (forall|j: int|
            0 <= j < pre.markets@.len() && j != mi ==> post.markets@[j] == #[trigger] pre.markets@[j])
        &&& ({
            let m2 = post.markets@[mi];
            &&& m2.id == m.id
            &&& m2.creator == m.creator
            &&& m2.description == m.description
            &&& m2.status == m.status
            &&& m2.created_at == m.created_at
            &&& (if side {
                &&& m2.yes_pool as int == m.yes_pool + amount
                &&& m2.no_pool == m.no_pool
                &&& m2.no_bettors == m.no_bettors
                &&& stake_of(m2.yes_bettors@, identity) == stake_of(m.yes_bettors@, identity)
                    + amount
                &&& (forall|id2: Seq<char>|
                    id2 != identity ==> #[trigger] stake_of(m2.yes_bettors@, id2) == stake_of(
                        m.yes_bettors@,
                        id2,
                    ))
            } else {
                &&& m2.no_pool as int == m.no_pool + amount
                &&& m2.yes_pool == m.yes_pool
                &&& m2.yes_bettors == m.yes_bettors
                &&& stake_of(m2.no_bettors@, identity) == stake_of(m.no_bettors@, identity)
                    + amount
                &&& (forall|id2: Seq<char>|
                    id2 != identity ==> #[trigger] stake_of(m2.no_bettors@, id2) == stake_of(
                        m.no_bettors@,
                        id2,
                    ))
            })
        })
    }
}

pub open spec fn resolve_market_post(
    pre: Contract1,
    post: Contract1,
    identity: Seq<char>,
    market_id: u64,
    outcome: bool,
    r: Result<String, MarketError>,
) -> bool {
    if market_id < 1 || market_id > pre.markets@.len() {
        r == Err::<String, MarketError>(MarketError::MarketNotFound) && state_eq(post, pre)
    } else if pre.markets@[market_id - 1].status != MarketStatus::Open {
        r == Err::<String, MarketError>(MarketError::MarketNotOpen) && state_eq(post, pre)
    } else if !(pre.admin matches Some(a) && a@ == identity) {
        r == Err::<String, MarketError>(MarketError::Unauthorized) && state_eq(post, pre)
    } else {
        let mi = market_id - 1;
        let m = pre.markets@[mi];
        let m2 = post.markets@[mi];
        &&& r matches Ok(msg) && msg@ == msg_market_resolved(market_id, outcome)
        &&& post.users@ == pre.users@
        &&& post.admin == pre.admin
        &&& post.next_market_id == pre.next_market_id
        &&& post.markets@.len() == pre.markets@.len()
        &&& (forall|j: int|
            0 <= j < pre.markets@.len() && j != mi ==> post.markets@[j] == #[trigger] pre.markets@[j])
        &&& m2.id == m.id
        &&& m2.creator == m.creator
        &&& m2.description == m.description
        &&& m2.yes_pool == m.yes_pool
        &&& m2.no_pool == m.no_pool
        &&& m2.yes_bettors == m.yes_bettors
        &&& m2.no_bettors == m.no_bettors
        &&& m2.created_at == m.created_at
        &&& m2.status == (if outcome {
            MarketStatus::ResolvedYes
        } else {
            MarketStatus::ResolvedNo
        })
    }
}

pub open spec fn claim_winnings_post(
    pre: Contract1,
    post: Contract1,
    identity: Seq<char>,
    market_id: u64,
    r: Result<String, MarketError>,
) -> bool {
    if market_id < 1 || market_id > pre.markets@.len() {
        r == Err::<String, MarketError>(MarketError::MarketNotFound) && state_eq(post, pre)
    } else if !is_resolved(pre.markets@[market_id - 1].status) {
        r == Err::<String, MarketError>(MarketError::MarketNotResolved) && state_eq(post, pre)
    } else if key_index(pre.users@, identity) < 0 {
        r == Err::<String, MarketError>(MarketError::UserNotFound) && state_eq(post, pre)
    } else {
        let i = key_index(pre.users@, identity);
        let u = pre.users@[i];
        let k = first_unclaimed(u.1.bets@, market_id);
        let m = pre.markets@[market_id - 1];
        let winner = winner_of(m.status);
        let w = side_pool(m, winner);
        let l = side_pool(m, !winner);
        if k < 0 {
            r == Err::<String, MarketError>(MarketError::NoUnclaimedBet) && state_eq(post, pre)
        } else {
            let b = u.1.bets@[k];
            if b.side != winner {
                &&& r matches Ok(msg) && msg@ == msg_lost()
                &&& claim_marks_bet(pre, post, i, k, u.1.balance)
            } else if w == 0 {
                r == Err::<String, MarketError>(MarketError::NoWinningPool) && state_eq(post, pre)
            } else {
                let payout = spec_payout(b.amount, w, l);
                &&& r matches Ok(msg) && msg@ == msg_claimed(payout as u128, market_id)
                &&& 0 <= payout <= w + l
                &&& claim_marks_bet(pre, post, i, k, (u.1.balance + payout) as u128)
            }
        }
    }
}

pub open spec fn get_market_info_post(
    c: Contract1,
    market_id: u64,
    r: Result<String, MarketError>,
) -> bool {
    if market_id < 1 || market_id > c.markets@.len() {
        r == Err::<String, MarketError>(MarketError::MarketNotFound)
    } else {
        r matches Ok(msg) && msg@ == msg_market_info(c.markets@[market_id - 1])
    }
}

pub open spec fn execute_post(
    pre: Contract1,
    post: Contract1,
    identity: Seq<char>,
    action: MarketAction,
    r: Result<String, MarketError>,
) -> bool {
    match action {
        MarketAction::SetAdmin { new_admin } => set_admin_post(pre, post, identity, new_admin, r),
        MarketAction::Initialize => initialize_post(pre, post, identity, r),
        MarketAction::CreateMarket { description } => create_market_post(
            pre,
            post,
            identity,
            description@,
            r,
        ),
        MarketAction::PlaceBet { market_id, side, amount } => place_bet_post(
            pre,
            post,
            identity,
            market_id,
            side,
            amount,
            r,
        ),
        MarketAction::ResolveMarket { market_id, outcome } => resolve_market_post(
            pre,
            post,
            identity,
            market_id,
            outcome,
            r,
        ),
        MarketAction::ClaimWinnings { market_id } => claim_winnings_post(
            pre,
            post,
            identity,
            market_id,
            r,
        ),
        MarketAction::GetBalance => get_balance_post(pre, identity, r) && state_eq(post, pre),
        MarketAction::GetMarketInfo { market_id } => get_market_info_post(pre, market_id, r)
            && state_eq(post, pre),
    }
}

/// After a claim: only account `i` changes; its bet `k` is marked claimed,
/// its balance becomes `new_balance`, everything else is untouched.
pub open spec fn claim_marks_bet(
    pre: Contract1,
    post: Contract1,
    i: int,
    k: int,
    new_balance: u128,
) -> bool {
    let u = pre.users@[i];
    let b = u.1.bets@[k];
    &&& post.markets@ == pre.markets@
    &&& post.admin == pre.admin
    &&& post.next_market_id == pre.next_market_id
    &&& post.users@.len() == pre.users@.len()
    &&& (forall|j: int|
        0 <= j < pre.users@.len() && j != i ==> post.users@[j] == #[trigger] pre.users@[j])
    &&& post.users@[i].0 == u.0
    &&& post.users@[i].1.balance == new_balance
    &&& post.users@[i].1.initialized == u.1.initialized
    &&& post.users@[i].1.bets@ == u.1.bets@.update(
        k,
        (UserBet { market_id: b.market_id, side: b.side, amount: b.amount, claimed: true }),
    )
}

// ---------------------------------------------------------------------
// Shared executable helpers
// ---------------------------------------------------------------------

/// Finds the first entry with the given key.
fn find_key<V>(entries: &Vec<(String, V)>, id: &String) -> (r: Option<usize>)
    ensures
        match r {
            Some(i) => i == key_index(entries@, id@) && i < entries@.len()
                && entries@[i as int].0@ == id@,
            None => key_index(entries@, id@) == -1,
        },
{
    proof {
        lemma_key_index(entries@, id@);
    }
    let n = entries.len();
    for i in 0..n
        invariant
            n == entries@.len(),
            forall|j: int| 0 <= j < i ==> entries@[j].0@ != id@,
            -1 <= key_index(entries@, id@) < entries@.len(),
            key_index(entries@, id@) >= 0 ==> entries@[key_index(entries@, id@)].0@ == id@,
            forall|j: int|
                0 <= j < entries@.len() && j < key_index(entries@, id@)
                    ==> entries@[j].0@ != id@,
            key_index(entries@, id@) == -1 ==> forall|j: int|
                0 <= j < entries@.len() ==> entries@[j].0@ != id@,
    {
        if entries[i].0 == *id {
            proof {
                if key_index(entries@, id@) != i {
                    assert(entries@[i as int].0@ == id@);
                }
            }
            return Some(i);
        }
    }
    None
}

// ---------------------------------------------------------------------
// Preservation helpers
// ---------------------------------------------------------------------

/// Replacing one account entry without touching its bets leaves every
/// per-market sum and every market's escrow unchanged.
proof fn lemma_entry_replaced(
    users: Seq<(String, UserState)>,
    markets: Seq<Market>,
    i: int,
    p2: (String, UserState),
)
    requires
        0 <= i < users.len(),
        p2.1.bets@ == users[i].1.bets@,
    ensures
        forall|id: u64, side: bool|
            users_side_sum(users.update(i, p2), id, side) == #[trigger] users_side_sum(
                users,
                id,
                side,
            ),
        markets_potential(users.update(i, p2), markets) == markets_potential(users, markets),
{
    let u2 = users.update(i, p2);
    assert forall|id: u64, side: bool|
        users_side_sum(u2, id, side) == #[trigger] users_side_sum(users, id, side) by {
        lemma_seq_sum_update(users, user_side_fn(id, side), i, p2);
    }
    assert forall|j: int| 0 <= j < markets.len() implies #[trigger] market_potential_fn(u2)(
        markets[j],
    ) == market_potential_fn(users)(markets[j]) by {
        let m = markets[j];
        if m.status != MarketStatus::Open {
            lemma_seq_sum_update(users, user_claimable_fn(m), i, p2);
        }
    }
    lemma_seq_sum_congruence(markets, market_potential_fn(u2), market_potential_fn(users));
}

/// Appending an account with no bets leaves every per-market sum and every
/// market's escrow unchanged.
proof fn lemma_entry_pushed(
    users: Seq<(String, UserState)>,
    markets: Seq<Market>,
    p2: (String, UserState),
)
    requires
        p2.1.bets@.len() == 0,
    ensures
        forall|id: u64, side: bool|
            users_side_sum(users.push(p2), id, side) == #[trigger] users_side_sum(
                users,
                id,
                side,
            ),
        markets_potential(users.push(p2), markets) == markets_potential(users, markets),
{
    let u2 = users.push(p2);
    assert forall|id: u64, side: bool|
        users_side_sum(u2, id, side) == #[trigger] users_side_sum(users, id, side) by {
        lemma_seq_sum_push(users, user_side_fn(id, side), p2);
    }
    assert forall|j: int| 0 <= j < markets.len() implies #[trigger] market_potential_fn(u2)(
        markets[j],
    ) == market_potential_fn(users)(markets[j]) by {
        let m = markets[j];
        if m.status != MarketStatus::Open {
            lemma_seq_sum_push(users, user_claimable_fn(m), p2);
        }
    }
    lemma_seq_sum_congruence(markets, market_potential_fn(u2), market_potential_fn(users));
}

/// Index of the caller's first unclaimed bet on the given market, or -1.
pub open spec fn first_unclaimed(bets: Seq<UserBet>, market_id: u64) -> int
    decreases bets.len(),
{
    if bets.len() == 0 {
        -1
    } else if bets[0].market_id == market_id && !bets[0].claimed {
        0
    } else {
        let r = first_unclaimed(bets.drop_first(), market_id);
        if r < 0 {
            -1
        } else {
            r + 1
        }
    }
}

pub proof fn lemma_first_unclaimed(bets: Seq<UserBet>, market_id: u64)
    ensures
        -1 <= first_unclaimed(bets, market_id) < bets.len(),
        first_unclaimed(bets, market_id) >= 0 ==> {
            let b = bets[first_unclaimed(bets, market_id)];
            b.market_id == market_id && !b.claimed
        },
        forall|k: int|
            0 <= k < bets.len() && k < first_unclaimed(bets, market_id) ==> !(bets[k].market_id
                == market_id && !bets[k].claimed),
        first_unclaimed(bets, market_id) == -1 ==> forall|k: int|
            0 <= k < bets.len() ==> !(bets[k].market_id == market_id && !bets[k].claimed),
    decreases bets.len(),
{
    if bets.len() > 0 && !(bets[0].market_id == market_id && !bets[0].claimed) {
        lemma_first_unclaimed(bets.drop_first(), market_id);
        assert(forall|k: int| 1 <= k < bets.len() ==> bets[k] == bets.drop_first()[k - 1]);
    }
}

fn find_unclaimed(bets: &Vec<UserBet>, market_id: u64) -> (r: Option<usize>)
    ensures
        match r {
            Some(k) => k == first_unclaimed(bets@, market_id) && k < bets@.len()
                && bets@[k as int].market_id == market_id && !bets@[k as int].claimed,
            None => first_unclaimed(bets@, market_id) == -1,
        },
{
    proof {
        lemma_first_unclaimed(bets@, market_id);
    }
    let n = bets.len();
    for k in 0..n
        invariant
            n == bets@.len(),
            forall|j: int| 0 <= j < k ==> !(bets@[j].market_id == market_id && !bets@[j].claimed),
            -1 <= first_unclaimed(bets@, market_id) < bets@.len(),
            first_unclaimed(bets@, market_id) >= 0 ==> {
                let b = bets@[first_unclaimed(bets@, market_id)];
                b.market_id == market_id && !b.claimed
            },
            forall|j: int|
                0 <= j < bets@.len() && j < first_unclaimed(bets@, market_id) ==> !(
                bets@[j].market_id == market_id && !bets@[j].claimed),
            first_unclaimed(bets@, market_id) == -1 ==> forall|j: int|
                0 <= j < bets@.len() ==> !(bets@[j].market_id == market_id && !bets@[j].claimed),
    {
        let b = bets[k];
        if b.market_id == market_id && !b.claimed {
            return Some(k);
        }
    }
    None
}

// ---------------------------------------------------------------------
// Run-time auditing of the invariant
//
// `validate` decides `wf` exactly, so a state restored from a commitment
// can be checked before it is used.
// ---------------------------------------------------------------------

/// Decides key uniqueness.
fn check_unique_keys<V>(entries: &Vec<(String, V)>) -> (r: bool)
    ensures
        r == unique_keys(entries@),
{
    let n = entries.len();
    for i in 0..n
        invariant
            n == entries@.len(),
            forall|a: int, b: int|
                0 <= a < b < n && a < i ==> #[trigger] entries@[a].0@ != #[trigger] entries@[b].0@,
    {
        for j in (i + 1)..n
            invariant
                n == entries@.len(),
                i < n,
                forall|a: int, b: int|
                    0 <= a < b < n && a < i ==> #[trigger] entries@[a].0@
                        != #[trigger] entries@[b].0@,
                forall|b: int| i < b < j ==> entries@[i as int].0@ != #[trigger] entries@[b].0@,
        {
            if entries[i].0 == entries[j].0 {
                return false;
            }
        }
    }
    true
}

/// Sums a bettor table, detecting overflow: overflow means the sum cannot
/// equal any `u128` pool, so the caller's equality check fails either way.
fn stakes_sum_checked(entries: &Vec<(String, u128)>) -> (r: Option<u128>)
    ensures
        match r {
            Some(s) => s as int == stakes_sum(entries@),
            None => stakes_sum(entries@) > u128::MAX,
        },
{
    let mut acc: u128 = 0;
    let n = entries.len();
    proof {
        assert(forall|j: int|
            0 <= j < entries@.len() ==> #[trigger] stake_fn()(entries@[j]) >= 0);
    }
    for i in 0..n
        invariant
            n == entries@.len(),
            acc as int == seq_sum(entries@.take(i as int), stake_fn()),
    {
        proof {
            assert(entries@.take(i + 1).drop_last() =~= entries@.take(i as int));
        }
        acc = match acc.checked_add(entries[i].1) {
            Some(a) => a,
            None => {
                proof {
                    assert(forall|j: int|
                        0 <= j < entries@.len() ==> #[trigger] stake_fn()(entries@[j]) >= 0);
                    lemma_seq_sum_take_bound(entries@, stake_fn(), i + 1);
                }
                return None;
            },
        };
    }
    proof {
        assert(entries@.take(n as int) =~= entries@);
    }
    Some(acc)
}

/// Sums all bet amounts on one side of one market, detecting overflow.
fn side_sum_checked(users: &Vec<(String, UserState)>, market_id: u64, side: bool) -> (r: Option<
    u128,
>)
    ensures
        match r {
            Some(s) => s as int == users_side_sum(users@, market_id, side),
            None => users_side_sum(users@, market_id, side) > u128::MAX,
        },
{
    let mut acc: u128 = 0;
    let n = users.len();
    proof {
        assert forall|j: int|
            0 <= j < users@.len() implies #[trigger] user_side_fn(market_id, side)(users@[j])
            >= 0 by {
            assert(forall|k: int|
                0 <= k < users@[j].1.bets@.len() ==> #[trigger] bet_side_fn(market_id, side)(
                    users@[j].1.bets@[k],
                ) >= 0);
            lemma_seq_sum_nonneg(users@[j].1.bets@, bet_side_fn(market_id, side));
        }
    }
    for i in 0..n
        invariant
            n == users@.len(),
            acc as int == seq_sum(users@.take(i as int), user_side_fn(market_id, side)),
            forall|j: int|
                0 <= j < users@.len() ==> #[trigger] user_side_fn(market_id, side)(users@[j])
                    >= 0,
    {
        // One account's stake on this side, over its bets.
        let bets = &users[i].1.bets;
        let mut term: u128 = 0;
        let nb = bets.len();
        proof {
            assert(forall|k: int|
                0 <= k < bets@.len() ==> #[trigger] bet_side_fn(market_id, side)(bets@[k]) >= 0);
        }
        for k in 0..nb
            invariant
                nb == bets@.len(),
                bets@ == users@[i as int].1.bets@,
                i < users@.len(),
                term as int == seq_sum(bets@.take(k as int), bet_side_fn(market_id, side)),
                forall|j: int|
                    0 <= j < users@.len() ==> #[trigger] user_side_fn(market_id, side)(
                        users@[j],
                    ) >= 0,
        {
            proof {
                assert(bets@.take(k + 1).drop_last() =~= bets@.take(k as int));
            }
            let b = bets[k];
            let add = if b.market_id == market_id && b.side == side {
                b.amount
            } else {
                0u128
            };
            term = match term.checked_add(add) {
                Some(t) => t,
                None => {
                    proof {
                        assert(forall|k2: int|
                            0 <= k2 < bets@.len() ==> #[trigger] bet_side_fn(market_id, side)(
                                bets@[k2],
                            ) >= 0);
                        lemma_seq_sum_take_bound(bets@, bet_side_fn(market_id, side), k + 1);
                        lemma_seq_sum_elem_bound(users@, user_side_fn(market_id, side), i as int);
                    }
                    return None;
                },
            };
        }
        proof {
            assert(bets@.take(nb as int) =~= bets@);
            assert(term as int == user_side_fn(market_id, side)(users@[i as int]));
            assert(users@.take(i + 1).drop_last() =~= users@.take(i as int));
        }
        acc = match acc.checked_add(term) {
            Some(a) => a,
            None => {
                proof {
                    lemma_seq_sum_take_bound(users@, user_side_fn(market_id, side), i + 1);
                }
                return None;
            },
        };
    }
    proof {
        assert(users@.take(n as int) =~= users@);
    }
    Some(acc)
}

/// A bet is never owed a negative payout.
proof fn lemma_bet_claimable_nonneg(m: Market)
    ensures
        forall|b: UserBet| #[trigger] bet_claimable_fn(m)(b) >= 0,
{
    assert forall|b: UserBet| #[trigger] bet_claimable_fn(m)(b) >= 0 by {
        let w = side_pool(m, winner_of(m.status));
        let l = side_pool(m, !winner_of(m.status));
        if b.market_id == m.id && !b.claimed && is_resolved(m.status) && b.side == winner_of(
            m.status,
        ) && w > 0 {
            assert(b.amount as int * (w + l) >= 0) by (nonlinear_arith);
            vstd::arithmetic::div_mod::lemma_div_pos_is_pos(b.amount as int * (w + l), w as int);
        }
    }
}

/// No account is owed a negative amount by any market.
proof fn lemma_user_claimable_nonneg(users: Seq<(String, UserState)>, m: Market)
    ensures
        forall|i: int| 0 <= i < users.len() ==> #[trigger] user_claimable_fn(m)(users[i]) >= 0,
        users_claimable(users, m) >= 0,
{
    lemma_bet_claimable_nonneg(m);
    assert forall|i: int|
        0 <= i < users.len() implies #[trigger] user_claimable_fn(m)(users[i]) >= 0 by {
        lemma_seq_sum_nonneg(users[i].1.bets@, bet_claimable_fn(m));
    }
    lemma_seq_sum_nonneg(users, user_claimable_fn(m));
}

/// Everything a market still owes its winners, detecting overflow. The
/// preconditions are the per-market invariants established by the caller's
/// earlier checks: they bound each winning bet by the winning pool.
fn claimable_checked(users: &Vec<(String, UserState)>, m: &Market) -> (r: Option<u128>)
    requires
        is_resolved(m.status) ==> users_side_sum(users@, m.id, winner_of(m.status)) == side_pool(
            *m,
            winner_of(m.status),
        ) as int,
        m.yes_pool as int + m.no_pool as int <= u128::MAX,
    ensures
        match r {
            Some(v) => v as int == users_claimable(users@, *m),
            None => users_claimable(users@, *m) > u128::MAX,
        },
{
    let (is_res, winner) = match m.status {
        MarketStatus::ResolvedYes => (true, true),
        MarketStatus::ResolvedNo => (true, false),
        MarketStatus::Open => (false, false),
    };
    let w = if winner {
        m.yes_pool
    } else {
        m.no_pool
    };
    let l = if winner {
        m.no_pool
    } else {
        m.yes_pool
    };
    if !is_res || w == 0 {
        // Every bet's owed amount is zero.
        proof {
            assert forall|i: int|
                0 <= i < users@.len() implies #[trigger] user_claimable_fn(*m)(users@[i])
                == 0 by {
                assert(forall|k: int|
                    0 <= k < users@[i].1.bets@.len() ==> #[trigger] bet_claimable_fn(*m)(
                        users@[i].1.bets@[k],
                    ) == 0);
                lemma_seq_sum_zero(users@[i].1.bets@, bet_claimable_fn(*m));
            }
            lemma_seq_sum_zero(users@, user_claimable_fn(*m));
        }
        return Some(0);
    }
    let total = w + l;
    proof {
        lemma_bet_claimable_nonneg(*m);
        lemma_user_claimable_nonneg(users@, *m);
        assert forall|j: int|
            0 <= j < users@.len() implies #[trigger] user_side_fn(m.id, winner)(users@[j])
            >= 0 by {
            assert(forall|k: int|
                0 <= k < users@[j].1.bets@.len() ==> #[trigger] bet_side_fn(m.id, winner)(
                    users@[j].1.bets@[k],
                ) >= 0);
            lemma_seq_sum_nonneg(users@[j].1.bets@, bet_side_fn(m.id, winner));
        }
    }
    let mut acc: u128 = 0;
    let n = users.len();
    for i in 0..n
        invariant
            n == users@.len(),
            acc as int == seq_sum(users@.take(i as int), user_claimable_fn(*m)),
            is_resolved(m.status) && winner == winner_of(m.status) && w == side_pool(
                *m,
                winner,
            ) && l == side_pool(*m, !winner) && w > 0 && total == w + l,
            users_side_sum(users@, m.id, winner) == w as int,
            forall|b: UserBet| #[trigger] bet_claimable_fn(*m)(b) >= 0,
            forall|j: int|
                0 <= j < users@.len() ==> #[trigger] user_side_fn(m.id, winner)(users@[j]) >= 0,
    {
        let bets = &users[i].1.bets;
        let mut term: u128 = 0;
        let nb = bets.len();
        for k in 0..nb
            invariant
                nb == bets@.len(),
                bets@ == users@[i as int].1.bets@,
                i < users@.len(),
                term as int == seq_sum(bets@.take(k as int), bet_claimable_fn(*m)),
                is_resolved(m.status) && winner == winner_of(m.status) && w == side_pool(
                    *m,
                    winner,
                ) && l == side_pool(*m, !winner) && w > 0 && total == w + l,
                users_side_sum(users@, m.id, winner) == w as int,
                forall|b: UserBet| #[trigger] bet_claimable_fn(*m)(b) >= 0,
                forall|j: int|
                    0 <= j < users@.len() ==> #[trigger] user_side_fn(m.id, winner)(users@[j])
                        >= 0,
        {
            proof {
                assert(bets@.take(k + 1).drop_last() =~= bets@.take(k as int));
            }
            let b = bets[k];
            let add = if b.market_id == m.id && !b.claimed && b.side == winner {
                // The bet's amount never exceeds the winning pool: it is one
                // of the nonnegative amounts that sum to it.
                proof {
                    assert(forall|k2: int|
                        0 <= k2 < bets@.len() ==> #[trigger] bet_side_fn(m.id, winner)(
                            bets@[k2],
                        ) >= 0);
                    lemma_seq_sum_elem_bound(bets@, bet_side_fn(m.id, winner), k as int);
                    lemma_seq_sum_elem_bound(users@, user_side_fn(m.id, winner), i as int);
                }
                let pay = mul_div(b.amount, total, w);
                proof {
                    assert(pay as int == bet_claimable_fn(*m)(bets@[k as int]));
                }
                pay
            } else {
                proof {
                    assert(bet_claimable_fn(*m)(bets@[k as int]) == 0);
                }
                0u128
            };
            term = match term.checked_add(add) {
                Some(t) => t,
                None => {
                    proof {
                        lemma_seq_sum_take_bound(bets@, bet_claimable_fn(*m), k + 1);
                        lemma_user_claimable_nonneg(users@, *m);
                        lemma_seq_sum_elem_bound(users@, user_claimable_fn(*m), i as int);
                    }
                    return None;
                },
            };
        }
        proof {
            assert(bets@.take(nb as int) =~= bets@);
            assert(term as int == user_claimable_fn(*m)(users@[i as int]));
            assert(users@.take(i + 1).drop_last() =~= users@.take(i as int));
        }
        acc = match acc.checked_add(term) {
            Some(a) => a,
            None => {
                proof {
                    lemma_user_claimable_nonneg(users@, *m);
                    lemma_seq_sum_take_bound(users@, user_claimable_fn(*m), i + 1);
                }
                return None;
            },
        };
    }
    proof {
        assert(users@.take(n as int) =~= users@);
    }
    Some(acc)
}

/// Counts the initialized accounts.
fn count_init(users: &Vec<(String, UserState)>) -> (r: usize)
    ensures
        r as int == count_initialized(users@),
{
    let mut acc: usize = 0;
    let n = users.len();
    for i in 0..n
        invariant
            n == users@.len(),
            acc as int == seq_sum(users@.take(i as int), init_count_fn()),
            acc <= i,
    {
        proof {
            assert(users@.take(i + 1).drop_last() =~= users@.take(i as int));
        }
        if users[i].1.initialized {
            acc = acc + 1;
        }
    }
    proof {
        assert(users@.take(n as int) =~= users@);
    }
    acc
}

/// Sums all balances, detecting overflow: a sum beyond `u128` already
/// exceeds anything the ledger can have minted.
fn sum_balances_checked(users: &Vec<(String, UserState)>) -> (r: Option<u128>)
    ensures
        match r {
            Some(s) => s as int == sum_balances(users@),
            None => sum_balances(users@) > u128::MAX,
        },
{
    let mut acc: u128 = 0;
    let n = users.len();
    for i in 0..n
        invariant
            n == users@.len(),
            acc as int == seq_sum(users@.take(i as int), balance_fn()),
    {
        proof {
            assert(users@.take(i + 1).drop_last() =~= users@.take(i as int));
        }
        acc = match acc.checked_add(users[i].1.balance) {
            Some(a) => a,
            None => {
                proof {
                    assert(forall|j: int|
                        0 <= j < users@.len() ==> #[trigger] balance_fn()(users@[j]) >= 0);
                    lemma_seq_sum_take_bound(users@, balance_fn(), i + 1);
                }
                return None;
            },
        };
    }
    proof {
        assert(users@.take(n as int) =~= users@);
    }
    Some(acc)
}

/// Every market's escrow is nonnegative, in any state.
proof fn lemma_potential_nonneg_any(users: Seq<(String, UserState)>, markets: Seq<Market>)
    ensures
        forall|j: int|
            0 <= j < markets.len() ==> 0 <= #[trigger] market_potential_fn(users)(markets[j]),
        markets_potential(users, markets) >= 0,
{
    assert forall|j: int|
        0 <= j < markets.len() implies 0 <= #[trigger] market_potential_fn(users)(
        markets[j],
    ) by {
        if markets[j].status != MarketStatus::Open {
            lemma_user_claimable_nonneg(users, markets[j]);
        }
    }
    lemma_seq_sum_nonneg(markets, market_potential_fn(users));
}

impl Contract1 {
    /// Decides the ledger invariant at run time: returns exactly whether
    /// this state is well-formed. A state restored through `decode_state`
    /// passes this check if and only if every operation's precondition is
    /// met, so untrusted commitments can be vetted before use.
    #[verifier::rlimit(100)]
    pub fn validate(&self) -> (r: bool)
        ensures
            r == wf(*self),
    {
        // Account keys are unique.
        if !check_unique_keys(&self.users) {
            return false;
        }
        // The id counter matches the number of markets.
        if self.next_market_id != (self.markets.len() as u64) {
            return false;
        }
        // What `initialize` has minted so far.
        let count = count_init(&self.users);
        proof {
            lemma_count_initialized_bound(self.users@);
            assert(INITIAL_BALANCE * (count as int) <= u128::MAX) by (nonlinear_arith)
                requires
                    0 <= count <= usize::MAX,
            ;
        }
        let minted_v: u128 = INITIAL_BALANCE * (count as u128);
        // Each market's id, bettor tables, pools and per-side sums.
        let nm = self.markets.len();
        for j in 0..nm
            invariant
                nm == self.markets@.len(),
                minted_v as int == minted(self.users@),
                forall|j2: int|
                    0 <= j2 < j ==> wf_market(self.users@, #[trigger] self.markets@[j2], j2),
                forall|j2: int|
                    0 <= j2 < j ==> (#[trigger] self.markets@[j2].yes_pool) as int
                        + self.markets@[j2].no_pool as int <= minted(self.users@),
        {
            let m = &self.markets[j];
            if m.id != (j as u64) + 1 {
                proof {
                    assert(!wf_market(self.users@, self.markets@[j as int], j as int));
                }
                return false;
            }
            if !check_unique_keys(&m.yes_bettors) {
                return false;
            }
            if !check_unique_keys(&m.no_bettors) {
                return false;
            }
            let ok_yes_table = match stakes_sum_checked(&m.yes_bettors) {
                Some(s) => s == m.yes_pool,
                None => false,
            };
            if !ok_yes_table {
                return false;
            }
            let ok_no_table = match stakes_sum_checked(&m.no_bettors) {
                Some(s) => s == m.no_pool,
                None => false,
            };
            if !ok_no_table {
                return false;
            }
            let ok_yes_side = match side_sum_checked(&self.users, m.id, true) {
                Some(s) => s == m.yes_pool,
                None => false,
            };
            if !ok_yes_side {
                return false;
            }
            let ok_no_side = match side_sum_checked(&self.users, m.id, false) {
                Some(s) => s == m.no_pool,
                None => false,
            };
            if !ok_no_side {
                return false;
            }
            let ok_bound = match m.yes_pool.checked_add(m.no_pool) {
                Some(t) => t <= minted_v,
                None => false,
            };
            if !ok_bound {
                return false;
            }
        }
        // Uninitialized accounts are empty.
        let nu = self.users.len();
        for i in 0..nu
            invariant
                nu == self.users@.len(),
                forall|i2: int| 0 <= i2 < i ==> wf_user(#[trigger] self.users@[i2].1),
        {
            let u = &self.users[i].1;
            if !u.initialized && (u.balance != 0 || u.bets.len() != 0) {
                return false;
            }
        }
        // Every bet references an existing market; bets on open markets are
        // unclaimed.
        for i in 0..nu
            invariant
                nu == self.users@.len(),
                forall|i2: int, k2: int|
                    0 <= i2 < i && 0 <= k2 < #[trigger] self.users@[i2].1.bets@.len() ==> {
                        let b = #[trigger] self.users@[i2].1.bets@[k2];
                        &&& 1 <= b.market_id <= self.markets@.len()
                        &&& (self.markets@[b.market_id - 1].status == MarketStatus::Open
                            ==> !b.claimed)
                    },
        {
            let bets = &self.users[i].1.bets;
            let nb = bets.len();
            for k in 0..nb
                invariant
                    nu == self.users@.len(),
                    i < nu,
                    nb == bets@.len(),
                    bets@ == self.users@[i as int].1.bets@,
                    forall|i2: int, k2: int|
                        0 <= i2 < i && 0 <= k2 < #[trigger] self.users@[i2].1.bets@.len() ==> {
                            let b = #[trigger] self.users@[i2].1.bets@[k2];
                            &&& 1 <= b.market_id <= self.markets@.len()
                            &&& (self.markets@[b.market_id - 1].status == MarketStatus::Open
                                ==> !b.claimed)
                        },
                    forall|k2: int|
                        0 <= k2 < k ==> {
                            let b = #[trigger] self.users@[i as int].1.bets@[k2];
                            &&& 1 <= b.market_id <= self.markets@.len()
                            &&& (self.markets@[b.market_id - 1].status == MarketStatus::Open
                                ==> !b.claimed)
                        },
            {
                let b = bets[k];
                if b.market_id < 1 || b.market_id > (self.markets.len() as u64) {
                    proof {
                        assert(!wf_bets(self.users@, self.markets@));
                    }
                    return false;
                }
                let mj = (b.market_id - 1) as usize;
                if self.markets[mj].status == MarketStatus::Open && b.claimed {
                    proof {
                        assert(!wf_bets(self.users@, self.markets@));
                    }
                    return false;
                }
            }
        }
        // Conservation: balances plus market escrow never exceed the mint.
        let balances = match sum_balances_checked(&self.users) {
            Some(s) => s,
            None => {
                proof {
                    lemma_potential_nonneg_any(self.users@, self.markets@);
                }
                return false;
            },
        };
        let mut pot: u128 = 0;
        for j in 0..nm
            invariant
                nm == self.markets@.len(),
                minted_v as int == minted(self.users@),
                pot as int == seq_sum(
                    self.markets@.take(j as int),
                    market_potential_fn(self.users@),
                ),
                forall|j2: int|
                    0 <= j2 < nm ==> wf_market(self.users@, #[trigger] self.markets@[j2], j2),
                forall|j2: int|
                    0 <= j2 < nm ==> (#[trigger] self.markets@[j2].yes_pool) as int
                        + self.markets@[j2].no_pool as int <= minted(self.users@),
        {
            proof {
                assert(self.markets@.take(j + 1).drop_last() =~= self.markets@.take(j as int));
                lemma_potential_nonneg_any(self.users@, self.markets@);
            }
            let m = &self.markets[j];
            let pm = if m.status == MarketStatus::Open {
                m.yes_pool + m.no_pool
            } else {
                proof {
                    assert(wf_market(self.users@, self.markets@[j as int], j as int));
                }
                match claimable_checked(&self.users, m) {
                    Some(v) => v,
                    None => {
                        proof {
                            lemma_seq_sum_elem_bound(
                                self.markets@,
                                market_potential_fn(self.users@),
                                j as int,
                            );
                            assert(sum_balances(self.users@) >= 0) by {
                                assert(forall|j2: int|
                                    0 <= j2 < self.users@.len() ==> #[trigger] balance_fn()(
                                        self.users@[j2],
                                    ) >= 0);
                                lemma_seq_sum_nonneg(self.users@, balance_fn());
                            }
                        }
                        return false;
                    },
                }
            };
            proof {
                assert(pm as int == market_potential_fn(self.users@)(self.markets@[j as int]));
            }
            pot = match pot.checked_add(pm) {
                Some(p) => p,
                None => {
                    proof {
                        lemma_seq_sum_take_bound(
                            self.markets@,
                            market_potential_fn(self.users@),
                            j + 1,
                        );
                        assert(sum_balances(self.users@) >= 0) by {
                            assert(forall|j2: int|
                                0 <= j2 < self.users@.len() ==> #[trigger] balance_fn()(
                                    self.users@[j2],
                                ) >= 0);
                            lemma_seq_sum_nonneg(self.users@, balance_fn());
                        }
                    }
                    return false;
                },
            };
        }
        proof {
            assert(self.markets@.take(nm as int) =~= self.markets@);
        }
        let ok_conservation = match balances.checked_add(pot) {
            Some(t) => t <= minted_v,
            None => false,
        };
        if !ok_conservation {
            return false;
        }
        true
    }
}

/// Upper bound on everything the ledger ever mints: the starting balance
/// for every representable account.
pub open spec fn mint_cap() -> int {
    INITIAL_BALANCE * (usize::MAX as int)
}

proof fn lemma_count_initialized_bound(users: Seq<(String, UserState)>)
    ensures
        0 <= count_initialized(users) <= users.len(),
    decreases users.len(),
{
    if users.len() > 0 {
        lemma_count_initialized_bound(users.drop_last());
    }
}

/// Every single balance, pool and escrow is bounded by what was minted,
/// which itself stays far below `u128::MAX`.
proof fn lemma_money_bounds(c: Contract1)
    requires
        wf(c),
    ensures
        0 <= sum_balances(c.users@),
        0 <= markets_potential(c.users@, c.markets@),
        forall|i: int|
            0 <= i < c.users@.len() ==> #[trigger] c.users@[i].1.balance as int <= sum_balances(
                c.users@,
            ),
        forall|j: int|
            0 <= j < c.markets@.len() ==> 0 <= #[trigger] market_potential_fn(c.users@)(
                c.markets@[j],
            ) <= markets_potential(c.users@, c.markets@),
        minted(c.users@) <= mint_cap(),
        mint_cap() < 0x10000000000000000000000,
{
    let users = c.users@;
    let markets = c.markets@;
    assert(forall|i: int| 0 <= i < users.len() ==> #[trigger] balance_fn()(users[i]) >= 0);
    lemma_seq_sum_nonneg(users, balance_fn());
    assert forall|i: int|
        0 <= i < users.len() implies #[trigger] users[i].1.balance as int <= sum_balances(
        users,
    ) by {
        lemma_seq_sum_elem_bound(users, balance_fn(), i);
    }
    assert forall|j: int| 0 <= j < markets.len() implies 0 <= #[trigger] market_potential_fn(
        users,
    )(markets[j]) by {
        let m = markets[j];
        if m.status != MarketStatus::Open {
            assert forall|i: int|
                0 <= i < users.len() implies #[trigger] user_claimable_fn(m)(users[i]) >= 0 by {
                assert forall|k: int|
                    0 <= k < users[i].1.bets@.len() implies #[trigger] bet_claimable_fn(m)(
                    users[i].1.bets@[k],
                ) >= 0 by {
                    let b = users[i].1.bets@[k];
                    let w = side_pool(m, winner_of(m.status));
                    let l = side_pool(m, !winner_of(m.status));
                    if b.market_id == m.id && !b.claimed && is_resolved(m.status) && b.side
                        == winner_of(m.status) && w > 0 {
                        assert(b.amount as int * (w + l) >= 0) by (nonlinear_arith);
                        vstd::arithmetic::div_mod::lemma_div_pos_is_pos(
                            b.amount as int * (w + l),
                            w as int,
                        );
                    }
                }
                lemma_seq_sum_nonneg(users[i].1.bets@, bet_claimable_fn(m));
            }
            lemma_seq_sum_nonneg(users, user_claimable_fn(m));
        }
    }
    lemma_seq_sum_nonneg(markets, market_potential_fn(users));
    assert forall|j: int| 0 <= j < markets.len() implies #[trigger] market_potential_fn(users)(
        markets[j],
    ) <= markets_potential(users, markets) by {
        lemma_seq_sum_elem_bound(markets, market_potential_fn(users), j);
    }
    lemma_count_initialized_bound(users);
    vstd::std_specs::vec::axiom_spec_len(&c.users);
    assert(minted(users) <= mint_cap()) by (nonlinear_arith)
        requires
            minted(users) == INITIAL_BALANCE * count_initialized(users),
            mint_cap() == INITIAL_BALANCE * (usize::MAX as int),
            0 <= count_initialized(users) <= users.len(),
            users.len() <= usize::MAX,
    ;
}

/// Every market's escrow is nonnegative in a well-formed state.
pub proof fn lemma_market_potentials_nonneg(c: Contract1)
    requires
        wf(c),
    ensures
        forall|j: int|
            0 <= j < c.markets@.len() ==> 0 <= #[trigger] market_potential_fn(c.users@)(
                c.markets@[j],
            ),
{
    lemma_money_bounds(c);
}

/// Appending one bet to one account: the bet's market gains exactly the
/// bet's amount on the bet's side, every other per-market sum is unchanged,
/// and while the bet's market is still open no market's escrow changes.
proof fn lemma_bet_appended(
    users: Seq<(String, UserState)>,
    u2: Seq<(String, UserState)>,
    markets: Seq<Market>,
    i: int,
    b: UserBet,
)
    requires
        0 <= i < users.len(),
        u2.len() == users.len(),
        forall|j: int| 0 <= j < users.len() && j != i ==> u2[j] == #[trigger] users[j],
        u2[i].1.bets@ == users[i].1.bets@.push(b),
        1 <= b.market_id <= markets.len(),
        markets[b.market_id - 1].status == MarketStatus::Open,
        forall|j: int| 0 <= j < markets.len() ==> #[trigger] markets[j].id == j + 1,
    ensures
        forall|id: u64, side: bool|
            id != b.market_id ==> #[trigger] users_side_sum(u2, id, side) == users_side_sum(
                users,
                id,
                side,
            ),
        forall|side: bool|
            #[trigger] users_side_sum(u2, b.market_id, side) == users_side_sum(
                users,
                b.market_id,
                side,
            ) + (if b.side == side {
                b.amount as int
            } else {
                0int
            }),
        markets_potential(u2, markets) == markets_potential(users, markets),
{
    let p2 = u2[i];
    assert(u2 =~= users.update(i, p2));
    assert forall|id: u64, side: bool|
        #[trigger] users_side_sum(u2, id, side) == users_side_sum(users, id, side) + (if id
            == b.market_id && b.side == side {
            b.amount as int
        } else {
            0int
        }) by {
        lemma_seq_sum_push(users[i].1.bets@, bet_side_fn(id, side), b);
        lemma_seq_sum_update(users, user_side_fn(id, side), i, p2);
    }
    assert forall|j: int| 0 <= j < markets.len() implies #[trigger] market_potential_fn(u2)(
        markets[j],
    ) == market_potential_fn(users)(markets[j]) by {
        let m = markets[j];
        if m.status != MarketStatus::Open {
            assert(m.id != b.market_id);
            lemma_seq_sum_push(users[i].1.bets@, bet_claimable_fn(m), b);
            lemma_seq_sum_update(users, user_claimable_fn(m), i, p2);
        }
    }
    lemma_seq_sum_congruence(markets, market_potential_fn(u2), market_potential_fn(users));
}

/// No bet references a market id beyond the existing markets, so a fresh
/// market's per-side sums are zero.
proof fn lemma_fresh_market_side_sums(
    users: Seq<(String, UserState)>,
    markets: Seq<Market>,
    id: u64,
)
    requires
        wf_bets(users, markets),
        id > markets.len(),
    ensures
        forall|side: bool| #[trigger] users_side_sum(users, id, side) == 0,
{
    assert forall|side: bool| #[trigger] users_side_sum(users, id, side) == 0 by {
        assert forall|i: int|
            0 <= i < users.len() implies #[trigger] user_side_fn(id, side)(users[i]) == 0 by {
            assert forall|k: int|
                0 <= k < users[i].1.bets@.len() implies #[trigger] bet_side_fn(id, side)(
                users[i].1.bets@[k],
            ) == 0 by {
                assert(users[i].1.bets@[k].market_id <= markets.len());
            }
            lemma_seq_sum_zero(users[i].1.bets@, bet_side_fn(id, side));
        }
        lemma_seq_sum_zero(users, user_side_fn(id, side));
    }
}

/// What a freshly resolved market owes its winners never exceeds the total
/// pool: each winning bet is owed `floor(amount * total / winning_pool)`,
/// the winning bets' amounts sum to the winning pool, and floored scaling
/// is superadditive.
proof fn lemma_resolved_claimable_bound(users: Seq<(String, UserState)>, m2: Market)
    requires
        is_resolved(m2.status),
        users_side_sum(users, m2.id, winner_of(m2.status)) == side_pool(
            m2,
            winner_of(m2.status),
        ) as int,
        forall|i: int, k: int|
            0 <= i < users.len() && 0 <= k < #[trigger] users[i].1.bets@.len()
                && (#[trigger] users[i].1.bets@[k]).market_id == m2.id ==> !users[i].1.bets@[k].claimed,
    ensures
        0 <= users_claimable(users, m2) <= m2.yes_pool + m2.no_pool,
{
    let winner = winner_of(m2.status);
    let w = side_pool(m2, winner) as int;
    let l = side_pool(m2, !winner) as int;
    let t = w + l;
    assert(t == m2.yes_pool + m2.no_pool);
    if w == 0 {
        assert forall|i: int|
            0 <= i < users.len() implies #[trigger] user_claimable_fn(m2)(users[i]) == 0 by {
            assert forall|k: int|
                0 <= k < users[i].1.bets@.len() implies #[trigger] bet_claimable_fn(m2)(
                users[i].1.bets@[k],
            ) == 0 by {}
            lemma_seq_sum_zero(users[i].1.bets@, bet_claimable_fn(m2));
        }
        lemma_seq_sum_zero(users, user_claimable_fn(m2));
    } else {
        assert forall|i: int|
            0 <= i < users.len() implies #[trigger] user_claimable_fn(m2)(users[i])
            <= (user_side_fn(m2.id, winner)(users[i]) * t) / w by {
            let bets = users[i].1.bets@;
            assert forall|k: int|
                0 <= k < bets.len() implies #[trigger] bet_claimable_fn(m2)(bets[k])
                <= (bet_side_fn(m2.id, winner)(bets[k]) * t) / w by {
                let b = bets[k];
                if b.market_id == m2.id && b.side == winner {
                    assert(!b.claimed);
                    assert(bet_claimable_fn(m2)(b) == (b.amount as int * t) / w);
                } else {
                    assert(bet_side_fn(m2.id, winner)(b) == 0);
                    assert((0int * t) / w == 0) by (nonlinear_arith)
                        requires
                            w > 0,
                    ;
                }
            }
            assert(forall|k: int|
                0 <= k < bets.len() ==> 0 <= #[trigger] bet_side_fn(m2.id, winner)(bets[k]));
            lemma_seq_sum_scaled_bound(bets, bet_side_fn(m2.id, winner), bet_claimable_fn(m2), t, w);
        }
        assert forall|i: int|
            0 <= i < users.len() implies 0 <= #[trigger] user_side_fn(m2.id, winner)(
            users[i],
        ) by {
            assert(forall|k: int|
                0 <= k < users[i].1.bets@.len() ==> 0 <= #[trigger] bet_side_fn(m2.id, winner)(
                    users[i].1.bets@[k],
                ));
            lemma_seq_sum_nonneg(users[i].1.bets@, bet_side_fn(m2.id, winner));
        }
        lemma_seq_sum_scaled_bound(
            users,
            user_side_fn(m2.id, winner),
            user_claimable_fn(m2),
            t,
            w,
        );
        assert(users_claimable(users, m2) <= (w * t) / w);
        assert((w * t) / w == t) by (nonlinear_arith)
            requires
                w > 0,
        ;
        assert forall|i: int|
            0 <= i < users.len() implies 0 <= #[trigger] user_claimable_fn(m2)(users[i]) by {
            assert forall|k: int|
                0 <= k < users[i].1.bets@.len() implies 0 <= #[trigger] bet_claimable_fn(m2)(
                users[i].1.bets@[k],
            ) by {
                let b = users[i].1.bets@[k];
                if b.market_id == m2.id && !b.claimed && b.side == winner && w > 0 {
                    assert(0 <= (b.amount as int * t) / w) by (nonlinear_arith)
                        requires
                            w > 0,
                            0 <= b.amount as int,
                            0 <= t,
                    ;
                }
            }
            lemma_seq_sum_nonneg(users[i].1.bets@, bet_claimable_fn(m2));
        }
        lemma_seq_sum_nonneg(users, user_claimable_fn(m2));
    }
}

/// Marking one bet claimed: the bet's resolved market is owed that bet's
/// payout less, every other market and every per-side sum is unchanged.
proof fn lemma_bet_claimed(
    users: Seq<(String, UserState)>,
    users2: Seq<(String, UserState)>,
    markets: Seq<Market>,
    i: int,
    k: int,
)
    requires
        0 <= i < users.len(),
        0 <= k < users[i].1.bets@.len(),
        forall|j: int| 0 <= j < markets.len() ==> #[trigger] markets[j].id == j + 1,
        1 <= users[i].1.bets@[k].market_id <= markets.len(),
        users2.len() == users.len(),
        forall|j: int| 0 <= j < users.len() && j != i ==> users2[j] == #[trigger] users[j],
        users2[i].1.bets@ == users[i].1.bets@.update(
            k,
            (UserBet {
                market_id: users[i].1.bets@[k].market_id,
                side: users[i].1.bets@[k].side,
                amount: users[i].1.bets@[k].amount,
                claimed: true,
            }),
        ),
    ensures
        forall|id: u64, side: bool|
            #[trigger] users_side_sum(users2, id, side) == users_side_sum(users, id, side),
        markets_potential(users2, markets) == markets_potential(users, markets)
            - bet_claimable_fn(markets[users[i].1.bets@[k].market_id - 1])(users[i].1.bets@[k]),
{
    let b = users[i].1.bets@[k];
    let b2 = UserBet { market_id: b.market_id, side: b.side, amount: b.amount, claimed: true };
    let u = users[i];
    let mj = b.market_id - 1;
    let bets2 = u.1.bets@.update(k, b2);
    assert forall|id: u64, side: bool|
        #[trigger] users_side_sum(users2, id, side) == users_side_sum(users, id, side) by {
        lemma_seq_sum_update(u.1.bets@, bet_side_fn(id, side), k, b2);
        assert(bet_side_fn(id, side)(b2) == bet_side_fn(id, side)(b));
        assert(seq_sum(bets2, bet_side_fn(id, side)) == seq_sum(
            u.1.bets@,
            bet_side_fn(id, side),
        ));
        assert(user_side_fn(id, side)(users2[i]) == user_side_fn(id, side)(users[i]));
        lemma_seq_sum_congruence_on(users, users2, user_side_fn(id, side));
    }
    assert forall|j: int| 0 <= j < markets.len() implies #[trigger] market_potential_fn(users2)(
        markets[j],
    ) == market_potential_fn(users)(markets[j]) - (if j == mj {
        bet_claimable_fn(markets[mj])(b)
    } else {
        0int
    }) by {
        let m = markets[j];
        if m.status != MarketStatus::Open {
            lemma_seq_sum_update(u.1.bets@, bet_claimable_fn(m), k, b2);
            assert(bet_claimable_fn(m)(b2) == 0);
            if j != mj {
                assert(m.id != b.market_id);
                assert(bet_claimable_fn(m)(b) == 0);
            }
            assert(user_claimable_fn(m)(users2[i]) == user_claimable_fn(m)(users[i]) - (if j
                == mj {
                bet_claimable_fn(markets[mj])(b)
            } else {
                0int
            }));
            lemma_seq_sum_pointwise_except_on(users, users2, user_claimable_fn(m), i);
        } else {
            if j == mj {
                assert(bet_claimable_fn(m)(b) == 0);
            }
        }
    }
    lemma_seq_sum_pointwise_except_markets(
        markets,
        market_potential_fn(users),
        market_potential_fn(users2),
        mj,
    );
}

/// Congruence of a sum across two sequences that are pointwise equal under `f`.
proof fn lemma_seq_sum_congruence_on<T>(a: Seq<T>, b: Seq<T>, f: spec_fn(T) -> int)
    requires
        a.len() == b.len(),
        forall|j: int| 0 <= j < a.len() ==> #[trigger] f(a[j]) == #[trigger] f(b[j]),
    ensures
        seq_sum(a, f) == seq_sum(b, f),
    decreases a.len(),
{
    if a.len() > 0 {
        lemma_seq_sum_congruence_on(a.drop_last(), b.drop_last(), f);
    }
}

/// Sums over two sequences of equal length that agree under `f` everywhere
/// but at one position differ by the difference there.
proof fn lemma_seq_sum_pointwise_except_on<T>(a: Seq<T>, b: Seq<T>, f: spec_fn(T) -> int, i: int)
    requires
        a.len() == b.len(),
        0 <= i < a.len(),
        forall|j: int| 0 <= j < a.len() && j != i ==> #[trigger] f(a[j]) == #[trigger] f(b[j]),
    ensures
        seq_sum(b, f) == seq_sum(a, f) - f(a[i]) + f(b[i]),
    decreases a.len(),
{
    if i == a.len() - 1 {
        lemma_seq_sum_congruence_on(a.drop_last(), b.drop_last(), f);
    } else {
        lemma_seq_sum_pointwise_except_on(a.drop_last(), b.drop_last(), f, i);
    }
}

/// One sequence, two contribution functions that agree except at one index.
proof fn lemma_seq_sum_pointwise_except_markets(
    markets: Seq<Market>,
    f: spec_fn(Market) -> int,
    g: spec_fn(Market) -> int,
    i: int,
)
    requires
        0 <= i < markets.len(),
        forall|j: int|
            0 <= j < markets.len() && j != i ==> #[trigger] f(markets[j]) == #[trigger] g(
                markets[j],
            ),
    ensures
        seq_sum(markets, g) == seq_sum(markets, f) - f(markets[i]) + g(markets[i]),
{
    lemma_seq_sum_pointwise_except(markets, f, g, i);
}

/// Adds `amount` to `id`'s cumulative stake, creating the entry if absent.
fn add_stake(entries: &mut Vec<(String, u128)>, id: String, amount: u128)
    requires
        unique_keys(old(entries)@),
        stakes_sum(old(entries)@) >= 0,
        stakes_sum(old(entries)@) + amount <= u128::MAX,
    ensures
        unique_keys(final(entries)@),
        stakes_sum(final(entries)@) == stakes_sum(old(entries)@) + amount,
        stake_of(final(entries)@, id@) == stake_of(old(entries)@, id@) + amount,
        forall|id2: Seq<char>|
            id2 != id@ ==> #[trigger] stake_of(final(entries)@, id2) == stake_of(
                old(entries)@,
                id2,
            ),
{
    let ghost old_entries = entries@;
    match find_key(entries, &id) {
        Some(k) => {
            proof {
                assert(forall|j: int|
                    0 <= j < old_entries.len() ==> #[trigger] stake_fn()(old_entries[j]) >= 0);
                lemma_seq_sum_elem_bound(old_entries, stake_fn(), k as int);
            }
            let cur = entries[k].1;
            let e = &mut entries[k];
            e.1 = cur + amount;
            proof {
                let p2 = entries@[k as int];
                assert(entries@ == old_entries.update(k as int, p2));
                lemma_seq_sum_update(old_entries, stake_fn(), k as int, p2);
                assert forall|id2: Seq<char>| true implies #[trigger] key_index(entries@, id2)
                    == key_index(old_entries, id2) by {
                    lemma_key_index_same_keys(entries@, old_entries, id2);
                }
                lemma_key_index(old_entries, id@);
                assert(key_index(old_entries, id@) == k as int);
                assert forall|id2: Seq<char>| id2 != id@ implies #[trigger] stake_of(
                    entries@,
                    id2,
                ) == stake_of(old_entries, id2) by {
                    let k2 = key_index(old_entries, id2);
                    if k2 >= 0 {
                        lemma_key_index(old_entries, id2);
                        assert(old_entries[k2].0@ == id2);
                        assert(k2 != k as int);
                    }
                }
            }
        },
        None => {
            proof {
                lemma_key_index(old_entries, id@);
            }
            entries.push((id, amount));
            proof {
                let p = entries@.last();
                assert(entries@ == old_entries.push(p));
                lemma_seq_sum_push(old_entries, stake_fn(), p);
                lemma_key_index_push(old_entries, p, p.0@);
                assert(stake_of(entries@, p.0@) == amount);
                assert forall|id2: Seq<char>| id2 != p.0@ implies #[trigger] stake_of(
                    entries@,
                    id2,
                ) == stake_of(old_entries, id2) by {
                    lemma_key_index_push(old_entries, p, id2);
                    lemma_key_index(old_entries, id2);
                    let k2 = key_index(old_entries, id2);
                    if k2 >= 0 {
                        assert(entries@[k2] == old_entries[k2]);
                    }
                }
                assert forall|i2: int, j2: int|
                    0 <= i2 < j2 < entries@.len() implies #[trigger] entries@[i2].0@
                    != #[trigger] entries@[j2].0@ by {
                    if j2 == entries@.len() - 1 {
                        assert(entries@[i2] == old_entries[i2]);
                    }
                }
            }
        },
    }
}

// ---------------------------------------------------------------------
// The ledger operations
// ---------------------------------------------------------------------

impl Contract1 {
    /// An empty ledger: no accounts, no markets, no admin.
    pub fn new() -> (c: Self)
        ensures
            c.users@.len() == 0,
            c.markets@.len() == 0,
            c.next_market_id == 0,
            c.admin is None,
            wf(c),
    {
        Self { users: Vec::new(), markets: Vec::new(), next_market_id: 0, admin: None }
    }

    /// An empty ledger with the admin already designated.
    pub fn new_with_admin(admin: String) -> (c: Self)
        ensures
            c.users@.len() == 0,
            c.markets@.len() == 0,
            c.next_market_id == 0,
            c.admin == Some(admin),
            wf(c),
    {
        Self { users: Vec::new(), markets: Vec::new(), next_market_id: 0, admin: Some(admin) }
    }

    /// Designates the admin. The first designation is open to anyone;
    /// afterwards only the current admin may reassign.
    pub fn set_admin(&mut self, identity: String, new_admin: String) -> (r: Result<
        String,
        MarketError,
    >)
        requires
            wf(*old(self)),
        ensures
            wf(*final(self)),
            set_admin_post(*old(self), *final(self), identity@, new_admin, r),
    {
        let authorized = match &self.admin {
            None => true,
            Some(a) => *a == identity,
        };
        if !authorized {
            return Err(MarketError::Unauthorized);
        }
        let mut msg = "Admin set to ".to_owned();
        msg.append(new_admin.as_str());
        self.admin = Some(new_admin);
        Ok(msg)
    }

    /// Grants the fixed starting balance, exactly once per identity. An
    /// account that was already initialized is rejected and left unchanged.
    pub fn initialize(&mut self, identity: String) -> (r: Result<String, MarketError>)
        requires
            wf(*old(self)),
        ensures
            wf(*final(self)),
            initialize_post(*old(self), *final(self), identity@, r),
    {
        let ghost old_users = self.users@;
        let ghost old_markets = self.markets@;
        let found = find_key(&self.users, &identity);
        match found {
            Some(i) => {
                if self.users[i].1.initialized {
                    return Err(MarketError::AlreadyInitialized);
                }
                let entry = &mut self.users[i];
                entry.1.balance = INITIAL_BALANCE;
                entry.1.initialized = true;
                proof {
                    let p2 = self.users@[i as int];
                    assert(self.users@ == old_users.update(i as int, p2));
                    lemma_entry_replaced(old_users, old_markets, i as int, p2);
                    lemma_seq_sum_update(old_users, balance_fn(), i as int, p2);
                    lemma_seq_sum_update(old_users, init_count_fn(), i as int, p2);
                    assert(wf_user(old_users[i as int].1));
                    assert(sum_balances(self.users@) == sum_balances(old_users)
                        + INITIAL_BALANCE);
                    assert(count_initialized(self.users@) == count_initialized(old_users) + 1);
                    assert(minted(self.users@) == minted(old_users) + INITIAL_BALANCE)
                        by (nonlinear_arith)
                        requires
                            count_initialized(self.users@) == count_initialized(old_users) + 1,
                            minted(self.users@) == INITIAL_BALANCE * count_initialized(
                                self.users@,
                            ),
                            minted(old_users) == INITIAL_BALANCE * count_initialized(old_users),
                    ;
                    assert forall|j: int| 0 <= j < self.markets@.len() implies wf_market(
                        self.users@,
                        #[trigger] self.markets@[j],
                        j,
                    ) by {
                        assert(wf_market(old_users, self.markets@[j], j));
                    }
                }
                let mut msg = "Initialized with ".to_owned();
                let num = u128_to_string(INITIAL_BALANCE);
                msg.append(num.as_str());
                msg.append(" balance");
                Ok(msg)
            },
            None => {
                let entry = (
                    identity,
                    UserState { balance: INITIAL_BALANCE, initialized: true, bets: Vec::new() },
                );
                proof {
                    lemma_key_index(old_users, entry.0@);
                }
                self.users.push(entry);
                proof {
                    let p2 = self.users@.last();
                    assert(self.users@ == old_users.push(p2));
                    lemma_entry_pushed(old_users, old_markets, p2);
                    lemma_seq_sum_push(old_users, balance_fn(), p2);
                    lemma_seq_sum_push(old_users, init_count_fn(), p2);
                    assert(minted(self.users@) == minted(old_users) + INITIAL_BALANCE)
                        by (nonlinear_arith)
                        requires
                            count_initialized(self.users@) == count_initialized(old_users) + 1,
                            minted(self.users@) == INITIAL_BALANCE * count_initialized(
                                self.users@,
                            ),
                            minted(old_users) == INITIAL_BALANCE * count_initialized(old_users),
                    ;
                    assert forall|j: int| 0 <= j < self.markets@.len() implies wf_market(
                        self.users@,
                        #[trigger] self.markets@[j],
                        j,
                    ) by {
                        assert(wf_market(old_users, self.markets@[j], j));
                    }
                    assert(self.users@.drop_last() =~= old_users);
                }
                let mut msg = "Initialized with ".to_owned();
                let num = u128_to_string(INITIAL_BALANCE);
                msg.append(num.as_str());
                msg.append(" balance");
                Ok(msg)
            },
        }
    }

    /// Creates a new market with the next sequential id (starting at 1,
    /// never reused), description stored verbatim, empty pools, status open.
    /// Only an initialized account may create markets.
    pub fn create_market(&mut self, identity: String, description: String) -> (r: Result<
        String,
        MarketError,
    >)
        requires
            wf(*old(self)),
        ensures
            wf(*final(self)),
            create_market_post(*old(self), *final(self), identity@, description@, r),
    {
        let initialized = match find_key(&self.users, &identity) {
            Some(i) => self.users[i].1.initialized,
            None => false,
        };
        if !initialized {
            return Err(MarketError::NotInitialized);
        }
        let ghost old_users = self.users@;
        let ghost old_markets = self.markets@;
        let m = Market {
            id: 0,
            creator: identity,
            description,
            yes_pool: 0,
            no_pool: 0,
            yes_bettors: Vec::new(),
            no_bettors: Vec::new(),
            status: MarketStatus::Open,
            created_at: 0,
        };
        self.markets.push(m);
        let n = self.markets.len();
        let id64 = n as u64;
        let entry = &mut self.markets[n - 1];
        entry.id = id64;
        self.next_market_id = id64;
        proof {
            let m1 = self.markets@.last();
            assert(self.markets@ =~= old_markets.push(m1));
            assert(self.markets@.drop_last() =~= old_markets);
            assert(id64 as int == old_markets.len() + 1);
            lemma_seq_sum_push(old_markets, market_potential_fn(old_users), m1);
            lemma_fresh_market_side_sums(old_users, old_markets, id64);
            assert forall|j: int| 0 <= j < self.markets@.len() implies wf_market(
                self.users@,
                #[trigger] self.markets@[j],
                j,
            ) by {
                if j < old_markets.len() {
                    assert(wf_market(old_users, old_markets[j], j));
                    assert(self.markets@[j] == old_markets[j]);
                } else {
                    assert(stakes_sum(m1.yes_bettors@) == 0);
                    assert(stakes_sum(m1.no_bettors@) == 0);
                }
            }
            lemma_count_initialized_bound(old_users);
            assert(minted(old_users) >= 0) by (nonlinear_arith)
                requires
                    minted(old_users) == INITIAL_BALANCE * count_initialized(old_users),
                    count_initialized(old_users) >= 0,
            ;
            assert forall|j: int|
                0 <= j < self.markets@.len() implies (#[trigger] self.markets@[j].yes_pool)
                as int + self.markets@[j].no_pool as int <= minted(self.users@) by {
                if j < old_markets.len() {
                    assert(self.markets@[j] == old_markets[j]);
                }
            }
        }
        let mut msg = "Market #".to_owned();
        let num = u64_to_string(id64);
        msg.append(num.as_str());
        msg.append(" created");
        Ok(msg)
    }

    /// Places a wager: debits the bettor's balance by exactly `amount`,
    /// appends an unclaimed bet record, and adds `amount` both to the chosen
    /// side's pool and to the bettor's cumulative stake on that side
    /// (repeated bets accumulate).
    pub fn place_bet(&mut self, identity: String, market_id: u64, side: bool, amount: u128) -> (r:
        Result<String, MarketError>)
        requires
            wf(*old(self)),
        ensures
            wf(*final(self)),
            place_bet_post(*old(self), *final(self), identity@, market_id, side, amount, r),
    {
        let ui = match find_key(&self.users, &identity) {
            Some(i) => {
                if !self.users[i].1.initialized {
                    return Err(MarketError::NotInitialized);
                }
                i
            },
            None => {
                return Err(MarketError::NotInitialized);
            },
        };
        if self.users[ui].1.balance < amount {
            return Err(MarketError::InsufficientBalance);
        }
        if market_id < 1 || market_id > (self.markets.len() as u64) {
            return Err(MarketError::MarketNotFound);
        }
        let mi = (market_id - 1) as usize;
        if self.markets[mi].status != MarketStatus::Open {
            return Err(MarketError::MarketNotOpen);
        }
        let ghost pre = *self;
        let ghost old_users = self.users@;
        let ghost old_markets = self.markets@;
        proof {
            lemma_money_bounds(*self);
            assert(market_potential_fn(old_users)(old_markets[mi as int]) == old_markets[mi
                as int].yes_pool + old_markets[mi as int].no_pool);
        }
        // Debit the balance and append the bet record.
        let old_balance = self.users[ui].1.balance;
        let u = &mut self.users[ui];
        u.1.balance = old_balance - amount;
        let bet = UserBet { market_id, side, amount, claimed: false };
        let u2 = &mut self.users[ui];
        u2.1.bets.push(bet);
        // Credit the chosen side's pool and the bettor's cumulative stake.
        let ghost mid_users = self.users@;
        let old_yes = self.markets[mi].yes_pool;
        let old_no = self.markets[mi].no_pool;
        proof {
            assert(old_yes + old_no + amount <= u128::MAX);
            assert(stakes_sum(old_markets[mi as int].yes_bettors@) >= 0 && stakes_sum(
                old_markets[mi as int].no_bettors@,
            ) >= 0);
        }
        if side {
            let m = &mut self.markets[mi];
            m.yes_pool = old_yes + amount;
            let m2 = &mut self.markets[mi];
            add_stake(&mut m2.yes_bettors, identity, amount);
        } else {
            let m = &mut self.markets[mi];
            m.no_pool = old_no + amount;
            let m2 = &mut self.markets[mi];
            add_stake(&mut m2.no_bettors, identity, amount);
        }
        proof {
            assert(self.users@ == mid_users);
            let p2 = self.users@[ui as int];
            assert(self.users@ =~= old_users.update(ui as int, p2));
            lemma_bet_appended(old_users, self.users@, old_markets, ui as int, bet);
            lemma_seq_sum_update(old_users, balance_fn(), ui as int, p2);
            lemma_seq_sum_update(old_users, init_count_fn(), ui as int, p2);
            assert(sum_balances(self.users@) == sum_balances(old_users) - amount);
            assert(count_initialized(self.users@) == count_initialized(old_users));
            let m2 = self.markets@[mi as int];
            let m0 = old_markets[mi as int];
            assert(self.markets@ =~= old_markets.update(mi as int, m2));
            lemma_seq_sum_update(old_markets, market_potential_fn(mid_users), mi as int, m2);
            assert(market_potential_fn(mid_users)(m0) == m0.yes_pool + m0.no_pool);
            assert(market_potential_fn(mid_users)(m2) == m0.yes_pool + m0.no_pool + amount);
            assert(markets_potential(mid_users, self.markets@) == markets_potential(
                mid_users,
                old_markets,
            ) + amount);
            // Well-formedness of each market in the new state.
            assert forall|j: int| 0 <= j < self.markets@.len() implies wf_market(
                self.users@,
                #[trigger] self.markets@[j],
                j,
            ) by {
                assert(wf_market(old_users, old_markets[j], j));
                if j != mi as int {
                    assert(self.markets@[j] == old_markets[j]);
                    assert(old_markets[j].id == j + 1 && old_markets[j].id != market_id);
                    assert(users_side_sum(self.users@, old_markets[j].id, true)
                        == users_side_sum(old_users, old_markets[j].id, true));
                    assert(users_side_sum(self.users@, old_markets[j].id, false)
                        == users_side_sum(old_users, old_markets[j].id, false));
                } else {
                    assert(m2.id == market_id);
                    assert(users_side_sum(self.users@, market_id, side) == users_side_sum(
                        old_users,
                        market_id,
                        side,
                    ) + amount);
                    assert(users_side_sum(self.users@, market_id, !side) == users_side_sum(
                        old_users,
                        market_id,
                        !side,
                    ));
                }
            }
            // Pool sizes stay bounded by the minted total.
            assert forall|j: int|
                0 <= j < self.markets@.len() implies (#[trigger] self.markets@[j].yes_pool)
                as int + self.markets@[j].no_pool as int <= minted(self.users@) by {
                if j != mi as int {
                    assert(self.markets@[j] == old_markets[j]);
                } else {
                    assert(m0.yes_pool + m0.no_pool <= markets_potential(old_users, old_markets));
                    assert(amount <= old_users[ui as int].1.balance);
                }
            }
            // Bets in the new state still reference existing, open markets.
            assert forall|i: int, k: int|
                0 <= i < self.users@.len() && 0 <= k < #[trigger] self.users@[i].1.bets@.len()
                    implies {
                let b = #[trigger] self.users@[i].1.bets@[k];
                &&& 1 <= b.market_id <= self.markets@.len()
                &&& (self.markets@[b.market_id - 1].status == MarketStatus::Open ==> !b.claimed)
            } by {
                let b = self.users@[i].1.bets@[k];
                if i == ui as int && k == self.users@[i].1.bets@.len() - 1 {
                    assert(b == bet);
                } else {
                    assert(b == old_users[i].1.bets@[k]);
                    assert(self.markets@[b.market_id - 1].status == old_markets[b.market_id
                        - 1].status);
                }
            }
        }
        let mut msg = "Bet placed: ".to_owned();
        let num_amount = u128_to_string(amount);
        msg.append(num_amount.as_str());
        msg.append(" on ");
        msg.append(if side {
            "YES"
        } else {
            "NO"
        });
        msg.append(" for market #");
        let num_mid = u64_to_string(market_id);
        msg.append(num_mid.as_str());
        msg.append(". Remaining balance: ");
        let num_bal = u128_to_string(old_balance - amount);
        msg.append(num_bal.as_str());
        Ok(msg)
    }

    /// Resolves an open market to its terminal outcome. Only the designated
    /// admin may resolve; resolution never reverses. Pools are untouched:
    /// winners claim their payouts through `claim_winnings`.
    pub fn resolve_market(&mut self, identity: String, market_id: u64, outcome: bool) -> (r:
        Result<String, MarketError>)
        requires
            wf(*old(self)),
        ensures
            wf(*final(self)),
            resolve_market_post(*old(self), *final(self), identity@, market_id, outcome, r),
    {
        if market_id < 1 || market_id > (self.markets.len() as u64) {
            return Err(MarketError::MarketNotFound);
        }
        let mi = (market_id - 1) as usize;
        if self.markets[mi].status != MarketStatus::Open {
            return Err(MarketError::MarketNotOpen);
        }
        let authorized = match &self.admin {
            Some(a) => *a == identity,
            None => false,
        };
        if !authorized {
            return Err(MarketError::Unauthorized);
        }
        let ghost old_users = self.users@;
        let ghost old_markets = self.markets@;
        let m = &mut self.markets[mi];
        m.status = if outcome {
            MarketStatus::ResolvedYes
        } else {
            MarketStatus::ResolvedNo
        };
        proof {
            let m2 = self.markets@[mi as int];
            let m0 = old_markets[mi as int];
            assert(self.markets@ =~= old_markets.update(mi as int, m2));
            assert(wf_market(old_users, m0, mi as int));
            assert(users_side_sum(old_users, m2.id, winner_of(m2.status)) == side_pool(
                m2,
                winner_of(m2.status),
            ) as int);
            assert forall|i: int, k: int|
                0 <= i < old_users.len() && 0 <= k < #[trigger] old_users[i].1.bets@.len() && (
                #[trigger] old_users[i].1.bets@[k]).market_id == m2.id implies
                !old_users[i].1.bets@[k].claimed by {
                assert(old_markets[old_users[i].1.bets@[k].market_id - 1].status
                    == MarketStatus::Open);
            }
            lemma_resolved_claimable_bound(old_users, m2);
            lemma_seq_sum_update(old_markets, market_potential_fn(old_users), mi as int, m2);
            assert(market_potential_fn(old_users)(m0) == m0.yes_pool + m0.no_pool);
            assert(market_potential_fn(old_users)(m2) == users_claimable(old_users, m2));
            assert forall|j: int| 0 <= j < self.markets@.len() implies wf_market(
                self.users@,
                #[trigger] self.markets@[j],
                j,
            ) by {
                assert(wf_market(old_users, old_markets[j], j));
                if j != mi as int {
                    assert(self.markets@[j] == old_markets[j]);
                }
            }
            assert forall|j: int|
                0 <= j < self.markets@.len() implies (#[trigger] self.markets@[j].yes_pool)
                as int + self.markets@[j].no_pool as int <= minted(self.users@) by {
                if j != mi as int {
                    assert(self.markets@[j] == old_markets[j]);
                }
            }
        }
        let mut msg = "Market #".to_owned();
        let num = u64_to_string(market_id);
        msg.append(num.as_str());
        msg.append(" resolved as ");
        msg.append(if outcome {
            "YES"
        } else {
            "NO"
        });
        Ok(msg)
    }

    /// Settles the caller's first unclaimed bet on a resolved market. A
    /// losing bet is marked claimed with no payout. A winning bet is paid
    /// `floor(stake * total_pool / winning_pool)` where the stake is that
    /// bet's own amount; repeated bets are settled one claim at a time.
    pub fn claim_winnings(&mut self, identity: String, market_id: u64) -> (r: Result<
        String,
        MarketError,
    >)
        requires
            wf(*old(self)),
        ensures
            wf(*final(self)),
            claim_winnings_post(*old(self), *final(self), identity@, market_id, r),
    {
        if market_id < 1 || market_id > (self.markets.len() as u64) {
            return Err(MarketError::MarketNotFound);
        }
        let mi = (market_id - 1) as usize;
        let (is_res, winner) = match self.markets[mi].status {
            MarketStatus::ResolvedYes => (true, true),
            MarketStatus::ResolvedNo => (true, false),
            MarketStatus::Open => (false, false),
        };
        if !is_res {
            return Err(MarketError::MarketNotResolved);
        }
        let ui = match find_key(&self.users, &identity) {
            Some(i) => i,
            None => {
                return Err(MarketError::UserNotFound);
            },
        };
        let bi = match find_unclaimed(&self.users[ui].1.bets, market_id) {
            Some(k) => k,
            None => {
                return Err(MarketError::NoUnclaimedBet);
            },
        };
        let b = self.users[ui].1.bets[bi];
        let ghost old_users = self.users@;
        let ghost old_markets = self.markets@;
        proof {
            lemma_money_bounds(*self);
            assert(wf_market(old_users, old_markets[mi as int], mi as int));
        }
        if b.side != winner {
            // The bet lost: mark it claimed, pay nothing.
            let u = &mut self.users[ui];
            let bref = &mut u.1.bets[bi];
            bref.claimed = true;
            proof {
                let p2 = self.users@[ui as int];
                assert(self.users@ =~= old_users.update(ui as int, p2));
                assert(p2.1.bets@ == old_users[ui as int].1.bets@.update(
                    bi as int,
                    (UserBet {
                        market_id: b.market_id,
                        side: b.side,
                        amount: b.amount,
                        claimed: true,
                    }),
                ));
                lemma_bet_claimed(old_users, self.users@, old_markets, ui as int, bi as int);
                assert(bet_claimable_fn(old_markets[mi as int])(b) == 0);
                lemma_seq_sum_update(old_users, balance_fn(), ui as int, p2);
                lemma_seq_sum_update(old_users, init_count_fn(), ui as int, p2);
                assert forall|j: int| 0 <= j < self.markets@.len() implies wf_market(
                    self.users@,
                    #[trigger] self.markets@[j],
                    j,
                ) by {
                    assert(wf_market(old_users, old_markets[j], j));
                }
            }
            return Ok("Your bet did not win".to_owned());
        }
        let (w, l) = if winner {
            (self.markets[mi].yes_pool, self.markets[mi].no_pool)
        } else {
            (self.markets[mi].no_pool, self.markets[mi].yes_pool)
        };
        if w == 0 {
            return Err(MarketError::NoWinningPool);
        }
        // The bet's amount never exceeds the winning pool: the pool is the
        // sum of all amounts staked on that side.
        proof {
            let bets = old_users[ui as int].1.bets@;
            assert(forall|j: int|
                0 <= j < bets.len() ==> 0 <= #[trigger] bet_side_fn(market_id, winner)(bets[j]));
            lemma_seq_sum_elem_bound(bets, bet_side_fn(market_id, winner), bi as int);
            assert forall|j: int|
                0 <= j < old_users.len() implies 0 <= #[trigger] user_side_fn(market_id, winner)(
                old_users[j],
            ) by {
                assert(forall|k2: int|
                    0 <= k2 < old_users[j].1.bets@.len() ==> 0 <= #[trigger] bet_side_fn(
                        market_id,
                        winner,
                    )(old_users[j].1.bets@[k2]));
                lemma_seq_sum_nonneg(old_users[j].1.bets@, bet_side_fn(market_id, winner));
            }
            lemma_seq_sum_elem_bound(old_users, user_side_fn(market_id, winner), ui as int);
            assert(users_side_sum(old_users, market_id, winner) == w as int);
            assert(b.amount <= w);
        }
        let total = w + l;
        let payout = mul_div(b.amount, total, w);
        let old_balance = self.users[ui].1.balance;
        proof {
            assert(old_balance as int <= sum_balances(old_users));
            assert(payout <= total);
        }
        let u = &mut self.users[ui];
        u.1.balance = old_balance + payout;
        let u2 = &mut self.users[ui];
        let bref = &mut u2.1.bets[bi];
        bref.claimed = true;
        proof {
            let p2 = self.users@[ui as int];
            assert(self.users@ =~= old_users.update(ui as int, p2));
            assert(p2.1.bets@ == old_users[ui as int].1.bets@.update(
                bi as int,
                (UserBet {
                    market_id: b.market_id,
                    side: b.side,
                    amount: b.amount,
                    claimed: true,
                }),
            ));
            lemma_bet_claimed(old_users, self.users@, old_markets, ui as int, bi as int);
            assert(bet_claimable_fn(old_markets[mi as int])(b) == payout as int);
            lemma_seq_sum_update(old_users, balance_fn(), ui as int, p2);
            lemma_seq_sum_update(old_users, init_count_fn(), ui as int, p2);
            assert(sum_balances(self.users@) == sum_balances(old_users) + payout);
            assert(markets_potential(self.users@, self.markets@) == markets_potential(
                old_users,
                old_markets,
            ) - payout);
            assert forall|j: int| 0 <= j < self.markets@.len() implies wf_market(
                self.users@,
                #[trigger] self.markets@[j],
                j,
            ) by {
                assert(wf_market(old_users, old_markets[j], j));
            }
        }
        let mut msg = "Claimed ".to_owned();
        let num = u128_to_string(payout);
        msg.append(num.as_str());
        msg.append(" winnings from market #");
        let num_mid = u64_to_string(market_id);
        msg.append(num_mid.as_str());
        Ok(msg)
    }

    /// Reports a market's description, status and pool sizes. Read-only.
    pub fn get_market_info(&self, market_id: u64) -> (r: Result<String, MarketError>)
        requires
            wf(*self),
        ensures
            get_market_info_post(*self, market_id, r),
    {
        if market_id < 1 || market_id > (self.markets.len() as u64) {
            return Err(MarketError::MarketNotFound);
        }
        let mi = (market_id - 1) as usize;
        proof {
            lemma_money_bounds(*self);
        }
        let m = &self.markets[mi];
        let mut msg = "Market #".to_owned();
        let num_id = u64_to_string(m.id);
        msg.append(num_id.as_str());
        msg.append(": ");
        msg.append(m.description.as_str());
        msg.append("\nStatus: ");
        msg.append(
            match m.status {
                MarketStatus::Open => "Open",
                MarketStatus::ResolvedYes => "Resolved: YES",
                MarketStatus::ResolvedNo => "Resolved: NO",
            },
        );
        msg.append("\nYES pool: ");
        let num_yes = u128_to_string(m.yes_pool);
        msg.append(num_yes.as_str());
        msg.append("\nNO pool: ");
        let num_no = u128_to_string(m.no_pool);
        msg.append(num_no.as_str());
        msg.append("\nTotal pool: ");
        let num_total = u128_to_string(m.yes_pool + m.no_pool);
        msg.append(num_total.as_str());
        proof {
            assert(self.markets@[mi as int].id == market_id);
        }
        Ok(msg)
    }

    /// Applies one action for the calling identity: the single entry point
    /// of the state machine. Identical inputs always produce identical
    /// outputs; on any error the state is exactly what it was.
    pub fn execute(&mut self, identity: String, action: MarketAction) -> (r: Result<
        String,
        MarketError,
    >)
        requires
            wf(*old(self)),
        ensures
            wf(*final(self)),
            execute_post(*old(self), *final(self), identity@, action, r),
            r is Err ==> state_eq(*final(self), *old(self)),
    {
        match action {
            MarketAction::SetAdmin { new_admin } => self.set_admin(identity, new_admin),
            MarketAction::Initialize => self.initialize(identity),
            MarketAction::CreateMarket { description } => self.create_market(
                identity,
                description,
            ),
            MarketAction::PlaceBet { market_id, side, amount } => self.place_bet(
                identity,
                market_id,
                side,
                amount,
            ),
            MarketAction::ResolveMarket { market_id, outcome } => self.resolve_market(
                identity,
                market_id,
                outcome,
            ),
            MarketAction::ClaimWinnings { market_id } => self.claim_winnings(
                identity,
                market_id,
            ),
            MarketAction::GetBalance => self.get_balance(identity),
            MarketAction::GetMarketInfo { market_id } => self.get_market_info(market_id),
        }
    }

    /// Reports an account's balance. Read-only.
    pub fn get_balance(&self, identity: String) -> (r: Result<String, MarketError>)
        ensures
            get_balance_post(*self, identity@, r),
    {
        match find_key(&self.users, &identity) {
            Some(i) => {
                let mut msg = "Balance: ".to_owned();
                let num = u128_to_string(self.users[i].1.balance);
                msg.append(num.as_str());
                Ok(msg)
            },
            None => Err(MarketError::UserNotFound),
        }
    }
}

impl Default for Contract1 {
    /// Same as `Contract1::new`.
    fn default() -> (c: Self)
        ensures
            c.users@.len() == 0,
            c.markets@.len() == 0,
            c.next_market_id == 0,
            c.admin is None,
            wf(c),
    {
        Self::new()
    }
}

} // verus!
