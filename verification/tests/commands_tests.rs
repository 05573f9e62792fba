use parimutuel_ledger::commands::{
    bet_precheck, parse_decimal, parse_side, solve_decision, str_eq, Bet, BetCheck,
    BetResolution, SolveDecision, User,
};

fn s(x: &str) -> String {
    x.to_string()
}

fn user(balance: i64) -> User {
    User { user_id: 1, username: Some(s("alice")), balance, created_at: s("now") }
}

fn bet(status: &str) -> Bet {
    Bet {
        bet_id: 1,
        creator_id: 1,
        description: s("rain tomorrow"),
        created_at: s("now"),
        status: s(status),
    }
}

#[test]
fn decimal_arguments_parse_exactly() {
    assert_eq!(parse_decimal(b"0"), Some(0));
    assert_eq!(parse_decimal(b"123"), Some(123));
    assert_eq!(parse_decimal(b"007"), Some(7));
    assert_eq!(parse_decimal(b"9223372036854775807"), Some(i64::MAX));
    assert_eq!(parse_decimal(b"9223372036854775808"), None);
    assert_eq!(parse_decimal(b""), None);
    assert_eq!(parse_decimal(b"12a"), None);
    assert_eq!(parse_decimal(b"-5"), None);
    assert_eq!(parse_decimal(b"99999999999999999999999"), None);
}

#[test]
fn side_arguments_parse_as_yes_or_no() {
    assert_eq!(parse_side(b"yes"), Some(true));
    assert_eq!(parse_side(b"y"), Some(true));
    assert_eq!(parse_side(b"no"), Some(false));
    assert_eq!(parse_side(b"n"), Some(false));
    assert_eq!(parse_side(b"maybe"), None);
    assert_eq!(parse_side(b""), None);
    assert_eq!(parse_side(b"ye"), None);
}

#[test]
fn wager_prechecks_follow_the_reporting_order() {
    assert_eq!(bet_precheck(&None, &Some(bet("open")), 10), BetCheck::NeedInit);
    assert_eq!(
        bet_precheck(&Some(user(5)), &Some(bet("open")), 10),
        BetCheck::InsufficientBalance
    );
    assert_eq!(bet_precheck(&Some(user(100)), &None, 10), BetCheck::BetNotFound);
    assert_eq!(
        bet_precheck(&Some(user(100)), &Some(bet("resolved_yes")), 10),
        BetCheck::BetClosed
    );
    assert_eq!(
        bet_precheck(&Some(user(100)), &Some(bet("open")), 10),
        BetCheck::Proceed
    );
}

#[test]
fn solve_decisions_follow_the_arbiter() {
    let accept = BetResolution { resolved: true, outcome: true, reasoning: s("it rained") };
    let reject = BetResolution { resolved: false, outcome: false, reasoning: s("not yet") };
    assert_eq!(solve_decision(&None, &accept), SolveDecision::BetNotFound);
    assert_eq!(
        solve_decision(&Some(bet("resolved_no")), &accept),
        SolveDecision::BetClosed
    );
    assert_eq!(
        solve_decision(&Some(bet("open")), &accept),
        SolveDecision::Resolve(true)
    );
    assert_eq!(
        solve_decision(&Some(bet("open")), &reject),
        SolveDecision::NotResolved
    );
}

#[test]
fn string_comparison_is_by_characters() {
    assert!(str_eq("open", "open"));
    assert!(!str_eq("open", "Open"));
    assert!(!str_eq("open", "open "));
    assert!(str_eq("caf\u{e9}", "caf\u{e9}"));
    assert!(!str_eq("caf\u{e9}", "cafe"));
    assert!(str_eq("", ""));
}
