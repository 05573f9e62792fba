use parimutuel_ledger::ledger::{Contract1, MarketAction, MarketError, MarketStatus, UserState};

fn s(x: &str) -> String {
    x.to_string()
}

#[test]
fn initialize_grants_starting_balance() {
    let mut c = Contract1::new();
    let r = c.initialize(s("alice"));
    assert_eq!(r.unwrap(), "Initialized with 10000 balance");
    let b = c.get_balance(s("alice"));
    assert_eq!(b.unwrap(), "Balance: 10000");
}

#[test]
fn initialize_is_exactly_once() {
    let mut c = Contract1::new();
    c.initialize(s("alice")).unwrap();
    let again = c.initialize(s("alice"));
    assert_eq!(again, Err(MarketError::AlreadyInitialized));
    // The balance was not granted twice.
    assert_eq!(c.get_balance(s("alice")).unwrap(), "Balance: 10000");
}

#[test]
fn create_market_requires_initialization() {
    let mut c = Contract1::new();
    let r = c.create_market(s("alice"), s("will it rain?"));
    assert_eq!(r, Err(MarketError::NotInitialized));
    c.initialize(s("alice")).unwrap();
    let r1 = c.create_market(s("alice"), s("will it rain?"));
    assert_eq!(r1.unwrap(), "Market #1 created");
    let r2 = c.create_market(s("alice"), s("another one"));
    assert_eq!(r2.unwrap(), "Market #2 created");
    assert_eq!(c.next_market_id, 2);
}

#[test]
fn place_bet_moves_funds_exactly() {
    let mut c = Contract1::new();
    c.initialize(s("alice")).unwrap();
    c.initialize(s("bob")).unwrap();
    c.create_market(s("alice"), s("rain tomorrow")).unwrap();
    let r = c.place_bet(s("bob"), 1, true, 100);
    assert_eq!(
        r.unwrap(),
        "Bet placed: 100 on YES for market #1. Remaining balance: 9900"
    );
    // Repeated bets by the same identity accumulate.
    let r2 = c.place_bet(s("bob"), 1, true, 50);
    assert_eq!(
        r2.unwrap(),
        "Bet placed: 50 on YES for market #1. Remaining balance: 9850"
    );
    let m = &c.markets[0];
    assert_eq!(m.yes_pool, 150);
    assert_eq!(m.no_pool, 0);
    assert_eq!(m.yes_bettors.len(), 1);
    assert_eq!(m.yes_bettors[0], (s("bob"), 150));
    assert_eq!(c.users[1].1.bets.len(), 2);
}

#[test]
fn place_bet_error_cases() {
    let mut c = Contract1::new();
    assert_eq!(
        c.place_bet(s("ghost"), 1, true, 10),
        Err(MarketError::NotInitialized)
    );
    c.initialize(s("alice")).unwrap();
    c.create_market(s("alice"), s("m")).unwrap();
    assert_eq!(
        c.place_bet(s("alice"), 1, true, 20000),
        Err(MarketError::InsufficientBalance)
    );
    assert_eq!(
        c.place_bet(s("alice"), 99, true, 10),
        Err(MarketError::MarketNotFound)
    );
    assert_eq!(
        c.place_bet(s("alice"), 0, true, 10),
        Err(MarketError::MarketNotFound)
    );
}

#[test]
fn resolution_is_admin_gated() {
    let mut c = Contract1::new();
    c.initialize(s("alice")).unwrap();
    c.create_market(s("alice"), s("m")).unwrap();
    // With no admin designated nobody may resolve.
    assert_eq!(
        c.resolve_market(s("alice"), 1, true),
        Err(MarketError::Unauthorized)
    );
    assert_eq!(c.markets[0].status, MarketStatus::Open);
    // The first designation is open, later ones are gated.
    c.set_admin(s("alice"), s("admin")).unwrap();
    assert_eq!(
        c.set_admin(s("alice"), s("alice")),
        Err(MarketError::Unauthorized)
    );
    assert_eq!(
        c.resolve_market(s("alice"), 1, true),
        Err(MarketError::Unauthorized)
    );
    assert_eq!(c.markets[0].status, MarketStatus::Open);
    let r = c.resolve_market(s("admin"), 1, true);
    assert_eq!(r.unwrap(), "Market #1 resolved as YES");
    assert_eq!(c.markets[0].status, MarketStatus::ResolvedYes);
}

#[test]
fn resolution_is_terminal() {
    let mut c = Contract1::new();
    c.initialize(s("alice")).unwrap();
    c.create_market(s("alice"), s("m")).unwrap();
    c.set_admin(s("alice"), s("admin")).unwrap();
    c.resolve_market(s("admin"), 1, false).unwrap();
    assert_eq!(
        c.resolve_market(s("admin"), 1, true),
        Err(MarketError::MarketNotOpen)
    );
    assert_eq!(c.markets[0].status, MarketStatus::ResolvedNo);
    assert_eq!(
        c.place_bet(s("alice"), 1, true, 10),
        Err(MarketError::MarketNotOpen)
    );
}

#[test]
fn scenario_rain_tomorrow() {
    let mut c = Contract1::new();
    c.set_admin(s("oracle"), s("oracle")).unwrap();
    c.initialize(s("a")).unwrap();
    c.create_market(s("a"), s("rain tomorrow")).unwrap();
    c.initialize(s("b")).unwrap();
    let rb = c.place_bet(s("b"), 1, true, 100).unwrap();
    assert_eq!(rb, "Bet placed: 100 on YES for market #1. Remaining balance: 9900");
    assert_eq!(c.markets[0].yes_pool, 100);
    c.initialize(s("c")).unwrap();
    c.place_bet(s("c"), 1, false, 300).unwrap();
    assert_eq!(c.markets[0].no_pool, 300);
    c.resolve_market(s("oracle"), 1, false).unwrap();
    // B's bet lost: claiming marks it, pays nothing.
    let rb2 = c.claim_winnings(s("b"), 1).unwrap();
    assert_eq!(rb2, "Your bet did not win");
    assert_eq!(c.get_balance(s("b")).unwrap(), "Balance: 9900");
    // C receives floor(300 * 400 / 300) = 400.
    let rc = c.claim_winnings(s("c"), 1).unwrap();
    assert_eq!(rc, "Claimed 400 winnings from market #1");
    assert_eq!(c.get_balance(s("c")).unwrap(), "Balance: 10100");
}

#[test]
fn payout_truncates_towards_zero() {
    let mut c = Contract1::new();
    c.set_admin(s("oracle"), s("oracle")).unwrap();
    c.initialize(s("a")).unwrap();
    c.initialize(s("b")).unwrap();
    c.initialize(s("d")).unwrap();
    c.create_market(s("a"), s("m")).unwrap();
    // winning_pool = 300, losing_pool = 700.
    c.place_bet(s("a"), 1, true, 100).unwrap();
    c.place_bet(s("b"), 1, true, 200).unwrap();
    c.place_bet(s("d"), 1, false, 700).unwrap();
    c.resolve_market(s("oracle"), 1, true).unwrap();
    // floor(100 * 1000 / 300) = 333.
    assert_eq!(
        c.claim_winnings(s("a"), 1).unwrap(),
        "Claimed 333 winnings from market #1"
    );
    // floor(200 * 1000 / 300) = 666.
    assert_eq!(
        c.claim_winnings(s("b"), 1).unwrap(),
        "Claimed 666 winnings from market #1"
    );
    assert_eq!(
        c.claim_winnings(s("d"), 1).unwrap(),
        "Your bet did not win"
    );
}

#[test]
fn double_claim_is_prevented() {
    let mut c = Contract1::new();
    c.set_admin(s("oracle"), s("oracle")).unwrap();
    c.initialize(s("a")).unwrap();
    c.initialize(s("b")).unwrap();
    c.create_market(s("a"), s("m")).unwrap();
    c.place_bet(s("b"), 1, true, 100).unwrap();
    c.resolve_market(s("oracle"), 1, true).unwrap();
    c.claim_winnings(s("b"), 1).unwrap();
    let balance_after_first = c.get_balance(s("b")).unwrap();
    assert_eq!(
        c.claim_winnings(s("b"), 1),
        Err(MarketError::NoUnclaimedBet)
    );
    assert_eq!(c.get_balance(s("b")).unwrap(), balance_after_first);
}

#[test]
fn repeated_bets_are_claimed_one_at_a_time() {
    let mut c = Contract1::new();
    c.set_admin(s("oracle"), s("oracle")).unwrap();
    c.initialize(s("a")).unwrap();
    c.initialize(s("b")).unwrap();
    c.create_market(s("a"), s("m")).unwrap();
    c.place_bet(s("a"), 1, true, 100).unwrap();
    c.place_bet(s("a"), 1, true, 50).unwrap();
    c.place_bet(s("b"), 1, false, 50).unwrap();
    c.resolve_market(s("oracle"), 1, true).unwrap();
    // Each claim settles one bet, paying that bet's own stake share:
    // floor(100 * 200 / 150) = 133, then floor(50 * 200 / 150) = 66.
    assert_eq!(
        c.claim_winnings(s("a"), 1).unwrap(),
        "Claimed 133 winnings from market #1"
    );
    assert_eq!(
        c.claim_winnings(s("a"), 1).unwrap(),
        "Claimed 66 winnings from market #1"
    );
    assert_eq!(
        c.claim_winnings(s("a"), 1),
        Err(MarketError::NoUnclaimedBet)
    );
    // 10000 - 150 + 133 + 66
    assert_eq!(c.get_balance(s("a")).unwrap(), "Balance: 10049");
}

#[test]
fn claim_error_cases() {
    let mut c = Contract1::new();
    c.set_admin(s("oracle"), s("oracle")).unwrap();
    c.initialize(s("a")).unwrap();
    c.create_market(s("a"), s("m")).unwrap();
    assert_eq!(
        c.claim_winnings(s("a"), 9),
        Err(MarketError::MarketNotFound)
    );
    assert_eq!(
        c.claim_winnings(s("a"), 1),
        Err(MarketError::MarketNotResolved)
    );
    c.resolve_market(s("oracle"), 1, true).unwrap();
    assert_eq!(
        c.claim_winnings(s("ghost"), 1),
        Err(MarketError::UserNotFound)
    );
    assert_eq!(
        c.claim_winnings(s("a"), 1),
        Err(MarketError::NoUnclaimedBet)
    );
}

#[test]
fn zero_winning_pool_is_rejected_defensively() {
    let mut c = Contract1::new();
    c.set_admin(s("oracle"), s("oracle")).unwrap();
    c.initialize(s("a")).unwrap();
    c.create_market(s("a"), s("m")).unwrap();
    // A zero-amount wager leaves the pool empty while a bet record exists.
    c.place_bet(s("a"), 1, true, 0).unwrap();
    c.resolve_market(s("oracle"), 1, true).unwrap();
    assert_eq!(
        c.claim_winnings(s("a"), 1),
        Err(MarketError::NoWinningPool)
    );
}

#[test]
fn market_info_reports_pools_and_status() {
    let mut c = Contract1::new();
    c.initialize(s("a")).unwrap();
    c.create_market(s("a"), s("rain tomorrow")).unwrap();
    c.place_bet(s("a"), 1, true, 25).unwrap();
    c.place_bet(s("a"), 1, false, 75).unwrap();
    let info = c.get_market_info(1).unwrap();
    assert_eq!(
        info,
        "Market #1: rain tomorrow\nStatus: Open\nYES pool: 25\nNO pool: 75\nTotal pool: 100"
    );
    assert_eq!(c.get_market_info(2), Err(MarketError::MarketNotFound));
}

#[test]
fn execute_dispatches_each_action() {
    let mut c = Contract1::new();
    let r = c.execute(s("a"), MarketAction::Initialize);
    assert_eq!(r.unwrap(), "Initialized with 10000 balance");
    let r = c.execute(
        s("a"),
        MarketAction::CreateMarket { description: s("m") },
    );
    assert_eq!(r.unwrap(), "Market #1 created");
    let r = c.execute(
        s("a"),
        MarketAction::PlaceBet { market_id: 1, side: false, amount: 40 },
    );
    assert_eq!(
        r.unwrap(),
        "Bet placed: 40 on NO for market #1. Remaining balance: 9960"
    );
    let r = c.execute(s("a"), MarketAction::SetAdmin { new_admin: s("a") });
    assert_eq!(r.unwrap(), "Admin set to a");
    let r = c.execute(
        s("a"),
        MarketAction::ResolveMarket { market_id: 1, outcome: false },
    );
    assert_eq!(r.unwrap(), "Market #1 resolved as NO");
    let r = c.execute(s("a"), MarketAction::ClaimWinnings { market_id: 1 });
    assert_eq!(r.unwrap(), "Claimed 40 winnings from market #1");
    let r = c.execute(s("a"), MarketAction::GetBalance);
    assert_eq!(r.unwrap(), "Balance: 10000");
    let r = c.execute(s("a"), MarketAction::GetMarketInfo { market_id: 1 });
    assert!(r.unwrap().starts_with("Market #1:"));
}

#[test]
fn reachable_states_validate() {
    let mut c = Contract1::new();
    assert!(c.validate());
    c.set_admin(s("oracle"), s("oracle")).unwrap();
    c.initialize(s("a")).unwrap();
    c.initialize(s("b")).unwrap();
    c.create_market(s("a"), s("m")).unwrap();
    c.place_bet(s("a"), 1, true, 100).unwrap();
    c.place_bet(s("b"), 1, false, 300).unwrap();
    assert!(c.validate());
    c.resolve_market(s("oracle"), 1, false).unwrap();
    c.claim_winnings(s("b"), 1).unwrap();
    assert!(c.validate());
}

#[test]
fn tampered_states_fail_validation() {
    let mut c = Contract1::new();
    c.initialize(s("a")).unwrap();
    c.create_market(s("a"), s("m")).unwrap();
    c.place_bet(s("a"), 1, true, 100).unwrap();
    // Inflating a balance breaks conservation.
    c.users[0].1.balance += 1;
    assert!(!c.validate());
    c.users[0].1.balance -= 1;
    assert!(c.validate());
    // A pool that disagrees with its bettor table is rejected.
    c.markets[0].yes_pool += 5;
    assert!(!c.validate());
    c.markets[0].yes_pool -= 5;
    // A claimed bet on an open market is rejected.
    c.users[0].1.bets[0].claimed = true;
    assert!(!c.validate());
    c.users[0].1.bets[0].claimed = false;
    // A market id out of sequence is rejected.
    c.markets[0].id = 7;
    assert!(!c.validate());
    c.markets[0].id = 1;
    // A duplicated account key is rejected.
    c.users.push((
        s("a"),
        UserState { balance: 0, initialized: false, bets: Vec::new() },
    ));
    assert!(!c.validate());
    c.users.pop();
    assert!(c.validate());
}

#[test]
fn value_in_circulation_never_exceeds_minted() {
    let mut c = Contract1::new();
    c.set_admin(s("oracle"), s("oracle")).unwrap();
    for name in ["a", "b", "d"] {
        c.initialize(s(name)).unwrap();
    }
    c.create_market(s("a"), s("one")).unwrap();
    c.create_market(s("b"), s("two")).unwrap();
    c.place_bet(s("a"), 1, true, 123).unwrap();
    c.place_bet(s("b"), 1, false, 457).unwrap();
    c.place_bet(s("d"), 2, true, 999).unwrap();
    c.resolve_market(s("oracle"), 1, true).unwrap();
    c.claim_winnings(s("a"), 1).unwrap();
    let balances: u128 = c.users.iter().map(|p| p.1.balance).sum();
    let open_pools: u128 = c
        .markets
        .iter()
        .filter(|m| m.status == MarketStatus::Open)
        .map(|m| m.yes_pool + m.no_pool)
        .sum();
    let minted: u128 =
        10_000 * c.users.iter().filter(|p| p.1.initialized).count() as u128;
    assert!(balances + open_pools <= minted);
}
