//! Decision logic for a chat front end that mirrors the ledger in a local
//! bookkeeping store: row types, decimal argument parsing, and the checks
//! each command performs before it touches the chain. The front end itself
//! (chat transport, storage, the outside arbiter) stays outside the
//! library and only hands plain values in.

use vstd::prelude::*;

verus! {

/// A bookkeeping row for one chat user.
#[derive(Debug)]
pub struct User {
    pub user_id: i64,
    pub username: Option<String>,
    pub balance: i64,
    pub created_at: String,
}

/// A bookkeeping row for one market, mirrored from the chain.
#[derive(Debug)]
pub struct Bet {
    pub bet_id: i64,
    pub creator_id: i64,
    pub description: String,
    pub created_at: String,
    pub status: String,
}

/// The outside arbiter's verdict on whether a proposed solution settles a
/// market, and which side wins if it does.
#[derive(Debug)]
pub struct BetResolution {
    pub resolved: bool,
    /// `true` means the YES side wins.
    pub outcome: bool,
    pub reasoning: String,
}

/// Character-by-character string comparison.
pub fn str_eq(a: &str, b: &str) -> (r: bool)
    ensures
        r == (a@ == b@),
{
    let na = a.unicode_len();
    let nb = b.unicode_len();
    if na != nb {
        proof {
            assert(a@.len() != b@.len());
        }
        return false;
    }
    for i in 0..na
        invariant
            na == a@.len(),
            na == b@.len(),
            forall|j: int| 0 <= j < i ==> a@[j] == b@[j],
    {
        if a.get_char(i) != b.get_char(i) {
            return false;
        }
    }
    proof {
        assert(a@ =~= b@);
    }
    true
}

/// Numeric value of a sequence of ASCII digit bytes, most significant
/// first.
pub open spec fn digits_value(s: Seq<u8>) -> nat
    decreases s.len(),
{
    if s.len() == 0 {
        0
    } else {
        digits_value(s.drop_last()) * 10 + (s.last() - 0x30) as nat
    }
}

pub open spec fn all_digits(s: Seq<u8>) -> bool {
    forall|i: int| 0 <= i < s.len() ==> 0x30 <= #[trigger] s[i] <= 0x39
}

/// A prefix never has a larger value than the whole digit string.
proof fn lemma_digits_value_prefix(s: Seq<u8>, i: int)
    requires
        0 <= i <= s.len(),
    ensures
        digits_value(s.take(i)) <= digits_value(s),
    decreases s.len() - i,
{
    if i < s.len() {
        lemma_digits_value_prefix(s, i + 1);
        assert(s.take(i + 1).drop_last() =~= s.take(i));
        assert(digits_value(s.take(i)) * 10 + (s.take(i + 1).last() - 0x30) as nat
            == digits_value(s.take(i + 1)));
    } else {
        assert(s.take(i) =~= s);
    }
}

/// Parses a nonempty string of decimal digits into an `i64`. Returns
/// nothing when the input is empty, holds a non-digit, or the value
/// overflows.
pub fn parse_decimal(s: &[u8]) -> (r: Option<i64>)
    ensures
        match r {
            Some(v) => s@.len() > 0 && all_digits(s@) && v >= 0 && v as nat == digits_value(s@),
            None => s@.len() == 0 || !all_digits(s@) || digits_value(s@) > i64::MAX,
        },
{
    let n = s.len();
    if n == 0 {
        return None;
    }
    let mut v: i64 = 0;
    for i in 0..n
        invariant
            n == s@.len(),
            0 <= v,
            v as nat == digits_value(s@.take(i as int)),
            forall|j: int| 0 <= j < i ==> 0x30 <= #[trigger] s@[j] <= 0x39,
    {
        let b = *vstd::slice::slice_index_get(s, i);
        if b < 0x30 || b > 0x39 {
            return None;
        }
        let d = (b - 0x30) as i64;
        if v > (i64::MAX - d) / 10 {
            proof {
                assert(s@.take(i + 1).drop_last() =~= s@.take(i as int));
                assert(digits_value(s@.take(i + 1)) == v * 10 + d);
                lemma_digits_value_prefix(s@, i + 1);
                assert(v * 10 + d > i64::MAX) by (nonlinear_arith)
                    requires
                        v > (i64::MAX - d) / 10,
                        0 <= d <= 9,
                        v >= 0,
                ;
            }
            return None;
        }
        proof {
            assert(v * 10 + d <= i64::MAX) by (nonlinear_arith)
                requires
                    v <= (i64::MAX - d) / 10,
                    0 <= d <= 9,
                    v >= 0,
            ;
            assert(s@.take(i + 1).drop_last() =~= s@.take(i as int));
        }
        v = v * 10 + d;
    }
    proof {
        assert(s@.take(n as int) =~= s@);
    }
    Some(v)
}

/// How the side argument of a wager command reads: `yes`/`y` for the YES
/// side, `no`/`n` for the NO side.
pub fn parse_side(s: &[u8]) -> (r: Option<bool>)
    ensures
        match r {
            Some(side) => {
                if side {
                    s@ == seq![('y' as u8), ('e' as u8), ('s' as u8)] || s@ == seq![('y' as u8)]
                } else {
                    s@ == seq![('n' as u8), ('o' as u8)] || s@ == seq![('n' as u8)]
                }
            },
            None => true,
        },
{
    if s.len() == 1 {
        let b0 = *vstd::slice::slice_index_get(s, 0);
        if b0 == ('y' as u8) {
            proof {
                assert(s@ =~= seq![('y' as u8)]);
            }
            return Some(true);
        }
        if b0 == ('n' as u8) {
            proof {
                assert(s@ =~= seq![('n' as u8)]);
            }
            return Some(false);
        }
        return None;
    }
    if s.len() == 2 {
        let b0 = *vstd::slice::slice_index_get(s, 0);
        let b1 = *vstd::slice::slice_index_get(s, 1);
        if b0 == ('n' as u8) && b1 == ('o' as u8) {
            proof {
                assert(s@ =~= seq![('n' as u8), ('o' as u8)]);
            }
            return Some(false);
        }
        return None;
    }
    if s.len() == 3 {
        let b0 = *vstd::slice::slice_index_get(s, 0);
        let b1 = *vstd::slice::slice_index_get(s, 1);
        let b2 = *vstd::slice::slice_index_get(s, 2);
        if b0 == ('y' as u8) && b1 == ('e' as u8) && b2 == ('s' as u8) {
            proof {
                assert(s@ =~= seq![('y' as u8), ('e' as u8), ('s' as u8)]);
            }
            return Some(true);
        }
        return None;
    }
    None
}

/// What a wager command should do, given the bookkeeping rows.
#[derive(Clone, Copy, PartialEq, Eq, Structural, Debug)]
pub enum BetCheck {
    /// All checks passed: forward the wager to the chain.
    Proceed,
    /// The caller has no bookkeeping row yet and must initialize first.
    NeedInit,
    /// The caller's mirrored balance is below the wagered amount.
    InsufficientBalance,
    /// No market with that id is known.
    BetNotFound,
    /// The market is no longer open.
    BetClosed,
}

pub open spec fn spec_bet_precheck(user: Option<User>, bet: Option<Bet>, amount: i64) -> BetCheck {
    match user {
        None => BetCheck::NeedInit,
        Some(u) => {
            if u.balance < amount {
                BetCheck::InsufficientBalance
            } else {
                match bet {
                    None => BetCheck::BetNotFound,
                    Some(b) => {
                        if b.status@ == "open"@ {
                            BetCheck::Proceed
                        } else {
                            BetCheck::BetClosed
                        }
                    },
                }
            }
        },
    }
}

/// The checks a wager command performs before anything is sent to the
/// chain, in the order the front end reports them.
pub fn bet_precheck(user: &Option<User>, bet: &Option<Bet>, amount: i64) -> (r: BetCheck)
    ensures
        r == spec_bet_precheck(*user, *bet, amount),
{
    match user {
        None => BetCheck::NeedInit,
        Some(u) => {
            if u.balance < amount {
                BetCheck::InsufficientBalance
            } else {
                match bet {
                    None => BetCheck::BetNotFound,
                    Some(b) => {
                        if str_eq(b.status.as_str(), "open") {
                            BetCheck::Proceed
                        } else {
                            BetCheck::BetClosed
                        }
                    },
                }
            }
        },
    }
}

/// What a solve command should do once the arbiter has spoken.
#[derive(Clone, Copy, PartialEq, Eq, Structural, Debug)]
pub enum SolveDecision {
    /// Resolve the market on the chain with this outcome (`true` = YES).
    Resolve(bool),
    /// The arbiter did not accept the solution; the market stays open.
    NotResolved,
    /// No market with that id is known.
    BetNotFound,
    /// The market was already closed.
    BetClosed,
}

pub open spec fn spec_solve_decision(bet: Option<Bet>, resolution: BetResolution) -> SolveDecision {
    match bet {
        None => SolveDecision::BetNotFound,
        Some(b) => {
            if b.status@ != "open"@ {
                SolveDecision::BetClosed
            } else if resolution.resolved {
                SolveDecision::Resolve(resolution.outcome)
            } else {
                SolveDecision::NotResolved
            }
        },
    }
}

/// Whether the arbiter's verdict resolves the market, and with which
/// outcome, given the mirrored market row.
pub fn solve_decision(bet: &Option<Bet>, resolution: &BetResolution) -> (r: SolveDecision)
    ensures
        r == spec_solve_decision(*bet, *resolution),
{
    match bet {
        None => SolveDecision::BetNotFound,
        Some(b) => {
            if !str_eq(b.status.as_str(), "open") {
                SolveDecision::BetClosed
            } else if resolution.resolved {
                SolveDecision::Resolve(resolution.outcome)
            } else {
                SolveDecision::NotResolved
            }
        },
    }
}

} // verus!
