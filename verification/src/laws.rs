//! The ledger's global laws, stated and proved against the operation
//! contracts in `ledger`.

use vstd::prelude::*;

use crate::ledger::{
    claim_winnings_post, first_unclaimed, is_resolved, key_index, lemma_first_unclaimed,
    market_potential_fn, minted, place_bet_post, resolve_market_post, state_eq, sum_balances, wf,
    Contract1, Market, MarketError, MarketStatus,
};
use crate::sums::{lemma_seq_sum_le, seq_sum};

verus! {

/// Pool sizes of the still-open markets.
pub open spec fn open_pool_fn() -> spec_fn(Market) -> int {
    |m: Market|
        if m.status == MarketStatus::Open {
            m.yes_pool + m.no_pool
        } else {
            0int
        }
}

pub open spec fn sum_open_pools(markets: Seq<Market>) -> int {
    seq_sum(markets, open_pool_fn())
}

/// Conservation: in every well-formed state — and every state reachable
/// from `Contract1::new` through `execute` is well-formed — the balance in
/// circulation (account balances plus the pools of still-open markets)
/// never exceeds the total ever minted by `initialize`. Payouts only move
/// value; what truncation discards is lost, never recreated.
pub proof fn lemma_conservation(c: Contract1)
    requires
        wf(c),
    ensures
        sum_balances(c.users@) + sum_open_pools(c.markets@) <= minted(c.users@),
{
    crate::ledger::lemma_market_potentials_nonneg(c);
    assert forall|j: int|
        0 <= j < c.markets@.len() implies #[trigger] open_pool_fn()(c.markets@[j])
        <= market_potential_fn(c.users@)(c.markets@[j]) by {}
    lemma_seq_sum_le(c.markets@, open_pool_fn(), market_potential_fn(c.users@));
}

/// Resolution is terminal: any outcome that satisfies `resolve_market`'s
/// contract on an already-resolved market is a `MarketNotOpen` rejection
/// that leaves the state unchanged.
pub proof fn lemma_resolution_terminal(
    pre: Contract1,
    post: Contract1,
    identity: Seq<char>,
    market_id: u64,
    outcome: bool,
    r: Result<String, MarketError>,
)
    requires
        1 <= market_id <= pre.markets@.len(),
        is_resolved(pre.markets@[market_id - 1].status),
        resolve_market_post(pre, post, identity, market_id, outcome, r),
    ensures
        r == Err::<String, MarketError>(MarketError::MarketNotOpen),
        state_eq(post, pre),
{
}

/// No bets after resolution: any outcome that satisfies `place_bet`'s
/// contract on a resolved market, for an initialized bettor with enough
/// balance, is a `MarketNotOpen` rejection that leaves the state unchanged.
pub proof fn lemma_no_bets_after_resolution(
    pre: Contract1,
    post: Contract1,
    identity: Seq<char>,
    market_id: u64,
    side: bool,
    amount: u128,
    r: Result<String, MarketError>,
)
    requires
        1 <= market_id <= pre.markets@.len(),
        is_resolved(pre.markets@[market_id - 1].status),
        key_index(pre.users@, identity) >= 0,
        pre.users@[key_index(pre.users@, identity)].1.initialized,
        pre.users@[key_index(pre.users@, identity)].1.balance >= amount,
        place_bet_post(pre, post, identity, market_id, side, amount, r),
    ensures
        r == Err::<String, MarketError>(MarketError::MarketNotOpen),
        state_eq(post, pre),
{
}

/// Unauthorized resolution: any outcome that satisfies `resolve_market`'s
/// contract on an open market, for a caller who is not the designated
/// admin, is an `Unauthorized` rejection that leaves the state — and so the
/// market's status — unchanged.
pub proof fn lemma_unauthorized_resolution(
    pre: Contract1,
    post: Contract1,
    identity: Seq<char>,
    market_id: u64,
    outcome: bool,
    r: Result<String, MarketError>,
)
    requires
        1 <= market_id <= pre.markets@.len(),
        pre.markets@[market_id - 1].status == MarketStatus::Open,
        !(pre.admin matches Some(a) && a@ == identity),
        resolve_market_post(pre, post, identity, market_id, outcome, r),
    ensures
        r == Err::<String, MarketError>(MarketError::Unauthorized),
        state_eq(post, pre),
        post.markets@[market_id - 1].status == MarketStatus::Open,
{
}

/// Double-claim prevention: after a claim settles the caller's only
/// unclaimed bet on a market, a second claim on that market must, per
/// `claim_winnings`' contract, fail with `NoUnclaimedBet` and leave the
/// state — in particular the balance — unchanged.
pub proof fn lemma_double_claim_prevented(
    pre: Contract1,
    mid: Contract1,
    post: Contract1,
    identity: Seq<char>,
    market_id: u64,
    r1: Result<String, MarketError>,
    r2: Result<String, MarketError>,
)
    requires
        1 <= market_id <= pre.markets@.len(),
        is_resolved(pre.markets@[market_id - 1].status),
        key_index(pre.users@, identity) >= 0,
        ({
            let bets = pre.users@[key_index(pre.users@, identity)].1.bets@;
            let k = first_unclaimed(bets, market_id);
            k >= 0 && forall|j: int|
                k < j < bets.len() ==> !((#[trigger] bets[j]).market_id == market_id
                    && !bets[j].claimed)
        }),
        claim_winnings_post(pre, mid, identity, market_id, r1),
        r1 is Ok,
        claim_winnings_post(mid, post, identity, market_id, r2),
    ensures
        r2 == Err::<String, MarketError>(MarketError::NoUnclaimedBet),
        state_eq(post, mid),
{
    let i = key_index(pre.users@, identity);
    let bets = pre.users@[i].1.bets@;
    let k = first_unclaimed(bets, market_id);
    lemma_first_unclaimed(bets, market_id);
    let bets2 = mid.users@[key_index(mid.users@, identity)].1.bets@;
    assert(mid.users@[i].0@ == pre.users@[i].0@);
    assert forall|j: int| 0 <= j < mid.users@.len() implies mid.users@[j].0@
        == #[trigger] pre.users@[j].0@ by {}
    crate::ledger::lemma_key_index_same_keys(mid.users@, pre.users@, identity);
    assert(key_index(mid.users@, identity) == i);
    assert(bets2 == bets.update(
        k,
        (crate::ledger::UserBet {
            market_id: bets[k].market_id,
            side: bets[k].side,
            amount: bets[k].amount,
            claimed: true,
        }),
    ));
    lemma_first_unclaimed(bets2, market_id);
    let k2 = first_unclaimed(bets2, market_id);
    if k2 >= 0 {
        assert(bets2[k2].market_id == market_id && !bets2[k2].claimed);
        if k2 < k {
            assert(bets2[k2] == bets[k2]);
        } else if k2 == k {
            assert(bets2[k2].claimed);
        } else {
            assert(bets2[k2] == bets[k2]);
        }
        assert(false);
    }
}

} // verus!
