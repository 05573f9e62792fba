//! The ledger's canonical binary encoding: little-endian fixed-width
//! integers, one-byte booleans and enum tags, and length-prefixed UTF-8
//! strings. `MarketAction` values cross the wire in this form, and
//! `commit` serializes the whole state with it.

use vstd::prelude::*;

use crate::ledger::{
    Contract1, Market, MarketAction, MarketError, MarketStatus, UserBet, UserState,
};

verus! {

use vstd::utf8::{decode_utf8, encode_utf8, valid_utf8};

// ---------------------------------------------------------------------
// Byte-level encodings
// ---------------------------------------------------------------------

pub open spec fn enc_u32(v: u32) -> Seq<u8> {
    seq![
        (v & 0xff) as u8,
        ((v >> 8) & 0xff) as u8,
        ((v >> 16) & 0xff) as u8,
        ((v >> 24) & 0xff) as u8,
    ]
}

pub open spec fn enc_u64(v: u64) -> Seq<u8> {
    seq![
        (v & 0xff) as u8,
        ((v >> 8) & 0xff) as u8,
        ((v >> 16) & 0xff) as u8,
        ((v >> 24) & 0xff) as u8,
        ((v >> 32) & 0xff) as u8,
        ((v >> 40) & 0xff) as u8,
        ((v >> 48) & 0xff) as u8,
        ((v >> 56) & 0xff) as u8,
    ]
}

pub open spec fn enc_u128(v: u128) -> Seq<u8> {
    seq![
        (v & 0xff) as u8,
        ((v >> 8) & 0xff) as u8,
        ((v >> 16) & 0xff) as u8,
        ((v >> 24) & 0xff) as u8,
        ((v >> 32) & 0xff) as u8,
        ((v >> 40) & 0xff) as u8,
        ((v >> 48) & 0xff) as u8,
        ((v >> 56) & 0xff) as u8,
        ((v >> 64) & 0xff) as u8,
        ((v >> 72) & 0xff) as u8,
        ((v >> 80) & 0xff) as u8,
        ((v >> 88) & 0xff) as u8,
        ((v >> 96) & 0xff) as u8,
        ((v >> 104) & 0xff) as u8,
        ((v >> 112) & 0xff) as u8,
        ((v >> 120) & 0xff) as u8,
    ]
}

pub open spec fn enc_bool(b: bool) -> Seq<u8> {
    if b {
        seq![1u8]
    } else {
        seq![0u8]
    }
}

/// Whether a string's UTF-8 form fits the 32-bit length prefix.
pub open spec fn str_fits(s: Seq<char>) -> bool {
    encode_utf8(s).len() <= u32::MAX
}

/// A string: 32-bit byte length, then the UTF-8 bytes.
pub open spec fn enc_str(s: Seq<char>) -> Seq<u8> {
    enc_u32(encode_utf8(s).len() as u32) + encode_utf8(s)
}

// ---------------------------------------------------------------------
// Actions
// ---------------------------------------------------------------------

/// The wire form of an action: a one-byte variant tag, then the fields in
/// declaration order.
pub open spec fn action_bytes(a: MarketAction) -> Seq<u8> {
    match a {
        MarketAction::SetAdmin { new_admin } => seq![0u8] + enc_str(new_admin@),
        MarketAction::Initialize => seq![1u8],
        MarketAction::CreateMarket { description } => seq![2u8] + enc_str(description@),
        MarketAction::PlaceBet { market_id, side, amount } => seq![3u8] + enc_u64(market_id)
            + enc_bool(side) + enc_u128(amount),
        MarketAction::ResolveMarket { market_id, outcome } => seq![4u8] + enc_u64(market_id)
            + enc_bool(outcome),
        MarketAction::ClaimWinnings { market_id } => seq![5u8] + enc_u64(market_id),
        MarketAction::GetBalance => seq![6u8],
        MarketAction::GetMarketInfo { market_id } => seq![7u8] + enc_u64(market_id),
    }
}

pub open spec fn action_fits(a: MarketAction) -> bool {
    match a {
        MarketAction::SetAdmin { new_admin } => str_fits(new_admin@),
        MarketAction::CreateMarket { description } => str_fits(description@),
        _ => true,
    }
}

// ---------------------------------------------------------------------
// Executable encoding
// ---------------------------------------------------------------------

fn push_u32_le(out: &mut Vec<u8>, v: u32)
    ensures
        final(out)@ == old(out)@ + enc_u32(v),
{
    out.push((v & 0xff) as u8);
    out.push(((v >> 8) & 0xff) as u8);
    out.push(((v >> 16) & 0xff) as u8);
    out.push(((v >> 24) & 0xff) as u8);
    proof {
        assert(out@ =~= old(out)@ + enc_u32(v));
    }
}

fn push_u64_le(out: &mut Vec<u8>, v: u64)
    ensures
        final(out)@ == old(out)@ + enc_u64(v),
{
    out.push((v & 0xff) as u8);
    out.push(((v >> 8) & 0xff) as u8);
    out.push(((v >> 16) & 0xff) as u8);
    out.push(((v >> 24) & 0xff) as u8);
    out.push(((v >> 32) & 0xff) as u8);
    out.push(((v >> 40) & 0xff) as u8);
    out.push(((v >> 48) & 0xff) as u8);
    out.push(((v >> 56) & 0xff) as u8);
    proof {
        assert(out@ =~= old(out)@ + enc_u64(v));
    }
}

fn push_u128_le(out: &mut Vec<u8>, v: u128)
    ensures
        final(out)@ == old(out)@ + enc_u128(v),
{
    out.push((v & 0xff) as u8);
    out.push(((v >> 8) & 0xff) as u8);
    out.push(((v >> 16) & 0xff) as u8);
    out.push(((v >> 24) & 0xff) as u8);
    out.push(((v >> 32) & 0xff) as u8);
    out.push(((v >> 40) & 0xff) as u8);
    out.push(((v >> 48) & 0xff) as u8);
    out.push(((v >> 56) & 0xff) as u8);
    out.push(((v >> 64) & 0xff) as u8);
    out.push(((v >> 72) & 0xff) as u8);
    out.push(((v >> 80) & 0xff) as u8);
    out.push(((v >> 88) & 0xff) as u8);
    out.push(((v >> 96) & 0xff) as u8);
    out.push(((v >> 104) & 0xff) as u8);
    out.push(((v >> 112) & 0xff) as u8);
    out.push(((v >> 120) & 0xff) as u8);
    proof {
        assert(out@ =~= old(out)@ + enc_u128(v));
    }
}

fn push_bool(out: &mut Vec<u8>, b: bool)
    ensures
        final(out)@ == old(out)@ + enc_bool(b),
{
    out.push(if b {
        1u8
    } else {
        0u8
    });
    proof {
        assert(out@ =~= old(out)@ + enc_bool(b));
    }
}

/// Appends the length-prefixed UTF-8 form of `s`; fails without touching
/// `out` when the byte length does not fit the 32-bit prefix.
fn push_str(out: &mut Vec<u8>, s: &str) -> (ok: bool)
    ensures
        ok ==> str_fits(s@) && final(out)@ == old(out)@ + enc_str(s@),
        !ok ==> !str_fits(s@) && final(out)@ == old(out)@,
{
    let b = s.as_bytes();
    if b.len() > (u32::MAX as usize) {
        return false;
    }
    push_u32_le(out, b.len() as u32);
    out.extend_from_slice(b);
    proof {
        assert(out@ =~= old(out)@ + enc_str(s@));
    }
    true
}

/// Encodes an action for the wire. Fails only when a string field's UTF-8
/// form is longer than the 32-bit length prefix allows.
pub fn encode_market_action(a: &MarketAction) -> (r: Option<Vec<u8>>)
    ensures
        match r {
            Some(v) => action_fits(*a) && v@ == action_bytes(*a),
            None => !action_fits(*a),
        },
{
    let mut out: Vec<u8> = Vec::new();
    match a {
        MarketAction::SetAdmin { new_admin } => {
            out.push(0u8);
            if !push_str(&mut out, new_admin.as_str()) {
                return None;
            }
        },
        MarketAction::Initialize => {
            out.push(1u8);
        },
        MarketAction::CreateMarket { description } => {
            out.push(2u8);
            if !push_str(&mut out, description.as_str()) {
                return None;
            }
        },
        MarketAction::PlaceBet { market_id, side, amount } => {
            out.push(3u8);
            push_u64_le(&mut out, *market_id);
            push_bool(&mut out, *side);
            push_u128_le(&mut out, *amount);
        },
        MarketAction::ResolveMarket { market_id, outcome } => {
            out.push(4u8);
            push_u64_le(&mut out, *market_id);
            push_bool(&mut out, *outcome);
        },
        MarketAction::ClaimWinnings { market_id } => {
            out.push(5u8);
            push_u64_le(&mut out, *market_id);
        },
        MarketAction::GetBalance => {
            out.push(6u8);
        },
        MarketAction::GetMarketInfo { market_id } => {
            out.push(7u8);
            push_u64_le(&mut out, *market_id);
        },
    }
    proof {
        assert(out@ =~= action_bytes(*a));
    }
    Some(out)
}

// ---------------------------------------------------------------------
// State commitments
// ---------------------------------------------------------------------

pub open spec fn enc_bet(b: UserBet) -> Seq<u8> {
    enc_u64(b.market_id) + enc_bool(b.side) + enc_u128(b.amount) + enc_bool(b.claimed)
}

pub open spec fn enc_bet_list(bets: Seq<UserBet>) -> Seq<u8>
    decreases bets.len(),
{
    if bets.len() == 0 {
        Seq::empty()
    } else {
        enc_bet_list(bets.drop_last()) + enc_bet(bets.last())
    }
}

pub open spec fn enc_user_entry(p: (String, UserState)) -> Seq<u8> {
    enc_str(p.0@) + enc_u128(p.1.balance) + enc_bool(p.1.initialized) + enc_u32(
        p.1.bets@.len() as u32,
    ) + enc_bet_list(p.1.bets@)
}

pub open spec fn enc_user_list(users: Seq<(String, UserState)>) -> Seq<u8>
    decreases users.len(),
{
    if users.len() == 0 {
        Seq::empty()
    } else {
        enc_user_list(users.drop_last()) + enc_user_entry(users.last())
    }
}

pub open spec fn enc_stake_entry(p: (String, u128)) -> Seq<u8> {
    enc_str(p.0@) + enc_u128(p.1)
}

pub open spec fn enc_stake_list(entries: Seq<(String, u128)>) -> Seq<u8>
    decreases entries.len(),
{
    if entries.len() == 0 {
        Seq::empty()
    } else {
        enc_stake_list(entries.drop_last()) + enc_stake_entry(entries.last())
    }
}

pub open spec fn enc_status(st: MarketStatus) -> Seq<u8> {
    match st {
        MarketStatus::Open => seq![0u8],
        MarketStatus::ResolvedYes => seq![1u8],
        MarketStatus::ResolvedNo => seq![2u8],
    }
}

pub open spec fn enc_market(m: Market) -> Seq<u8> {
    enc_u64(m.id) + enc_str(m.creator@) + enc_str(m.description@) + enc_u128(m.yes_pool)
        + enc_u128(m.no_pool) + enc_u32(m.yes_bettors@.len() as u32) + enc_stake_list(
        m.yes_bettors@,
    ) + enc_u32(m.no_bettors@.len() as u32) + enc_stake_list(m.no_bettors@) + enc_status(m.status)
        + enc_u64(m.created_at)
}

pub open spec fn enc_market_list(markets: Seq<Market>) -> Seq<u8>
    decreases markets.len(),
{
    if markets.len() == 0 {
        Seq::empty()
    } else {
        enc_market_list(markets.drop_last()) + enc_market(markets.last())
    }
}

pub open spec fn enc_admin(a: Option<String>) -> Seq<u8> {
    match a {
        None => seq![0u8],
        Some(s) => seq![1u8] + enc_str(s@),
    }
}

/// The commitment bytes of a whole ledger state.
pub open spec fn state_bytes(c: Contract1) -> Seq<u8> {
    enc_u32(c.users@.len() as u32) + enc_user_list(c.users@) + enc_u32(c.markets@.len() as u32)
        + enc_market_list(c.markets@) + enc_u64(c.next_market_id) + enc_admin(c.admin)
}

pub open spec fn stake_list_fits(entries: Seq<(String, u128)>) -> bool {
    entries.len() <= u32::MAX && forall|i: int|
        0 <= i < entries.len() ==> str_fits(#[trigger] entries[i].0@)
}

pub open spec fn user_fits(p: (String, UserState)) -> bool {
    str_fits(p.0@) && p.1.bets@.len() <= u32::MAX
}

pub open spec fn market_fits(m: Market) -> bool {
    str_fits(m.creator@) && str_fits(m.description@) && stake_list_fits(m.yes_bettors@)
        && stake_list_fits(m.no_bettors@)
}

/// Whether every length in the state fits its 32-bit prefix.
pub open spec fn state_fits(c: Contract1) -> bool {
    &&& c.users@.len() <= u32::MAX
    &&& c.markets@.len() <= u32::MAX
    &&& forall|i: int| 0 <= i < c.users@.len() ==> user_fits(#[trigger] c.users@[i])
    &&& forall|j: int| 0 <= j < c.markets@.len() ==> market_fits(#[trigger] c.markets@[j])
    &&& (c.admin matches Some(s) ==> str_fits(s@))
}

fn push_bets(out: &mut Vec<u8>, bets: &Vec<UserBet>) -> (ok: bool)
    ensures
        ok ==> bets@.len() <= u32::MAX && final(out)@ == old(out)@ + enc_u32(
            bets@.len() as u32,
        ) + enc_bet_list(bets@),
        !ok ==> bets@.len() > u32::MAX,
{
    if bets.len() > (u32::MAX as usize) {
        return false;
    }
    push_u32_le(out, bets.len() as u32);
    let ghost start = out@;
    let n = bets.len();
    for i in 0..n
        invariant
            n == bets@.len(),
            out@ == start + enc_bet_list(bets@.take(i as int)),
    {
        let b = bets[i];
        push_u64_le(out, b.market_id);
        push_bool(out, b.side);
        push_u128_le(out, b.amount);
        push_bool(out, b.claimed);
        proof {
            assert(bets@.take(i + 1).drop_last() =~= bets@.take(i as int));
            assert(bets@.take(i + 1).last() == bets@[i as int]);
            assert(out@ =~= start + enc_bet_list(bets@.take(i + 1)));
        }
    }
    proof {
        assert(bets@.take(n as int) =~= bets@);
    }
    true
}

fn push_stakes(out: &mut Vec<u8>, entries: &Vec<(String, u128)>) -> (ok: bool)
    ensures
        ok ==> stake_list_fits(entries@) && final(out)@ == old(out)@ + enc_u32(
            entries@.len() as u32,
        ) + enc_stake_list(entries@),
        !ok ==> !stake_list_fits(entries@),
{
    if entries.len() > (u32::MAX as usize) {
        return false;
    }
    push_u32_le(out, entries.len() as u32);
    let ghost start = out@;
    let n = entries.len();
    for i in 0..n
        invariant
            n == entries@.len(),
            out@ == start + enc_stake_list(entries@.take(i as int)),
            forall|j: int| 0 <= j < i ==> str_fits(#[trigger] entries@[j].0@),
    {
        let e = &entries[i];
        if !push_str(out, e.0.as_str()) {
            return false;
        }
        push_u128_le(out, e.1);
        proof {
            assert(entries@.take(i + 1).drop_last() =~= entries@.take(i as int));
            assert(entries@.take(i + 1).last() == entries@[i as int]);
            assert(out@ =~= start + enc_stake_list(entries@.take(i + 1)));
        }
    }
    proof {
        assert(entries@.take(n as int) =~= entries@);
    }
    true
}

fn push_market(out: &mut Vec<u8>, m: &Market) -> (ok: bool)
    ensures
        ok ==> market_fits(*m) && final(out)@ == old(out)@ + enc_market(*m),
        !ok ==> !market_fits(*m),
{
    push_u64_le(out, m.id);
    if !push_str(out, m.creator.as_str()) {
        return false;
    }
    if !push_str(out, m.description.as_str()) {
        return false;
    }
    push_u128_le(out, m.yes_pool);
    push_u128_le(out, m.no_pool);
    if !push_stakes(out, &m.yes_bettors) {
        return false;
    }
    if !push_stakes(out, &m.no_bettors) {
        return false;
    }
    push_status(out, &m.status);
    push_u64_le(out, m.created_at);
    proof {
        assert(out@ =~= old(out)@ + enc_market(*m));
    }
    true
}

fn push_status(out: &mut Vec<u8>, st: &MarketStatus)
    ensures
        final(out)@ == old(out)@ + enc_status(*st),
{
    out.push(
        match st {
            MarketStatus::Open => 0u8,
            MarketStatus::ResolvedYes => 1u8,
            MarketStatus::ResolvedNo => 2u8,
        },
    );
    proof {
        assert(out@ =~= old(out)@ + enc_status(*st));
    }
}

fn push_user(out: &mut Vec<u8>, p: &(String, UserState)) -> (ok: bool)
    ensures
        ok ==> user_fits(*p) && final(out)@ == old(out)@ + enc_user_entry(*p),
        !ok ==> !user_fits(*p),
{
    if !push_str(out, p.0.as_str()) {
        return false;
    }
    push_u128_le(out, p.1.balance);
    push_bool(out, p.1.initialized);
    if !push_bets(out, &p.1.bets) {
        return false;
    }
    proof {
        assert(out@ =~= old(out)@ + enc_user_entry(*p));
    }
    true
}

impl Contract1 {
    /// The canonical byte form of the whole state, for persisting and
    /// snapshotting. Fails only when a length outgrows its 32-bit prefix.
    pub fn as_bytes(&self) -> (r: Option<Vec<u8>>)
        ensures
            match r {
                Some(v) => state_fits(*self) && v@ == state_bytes(*self),
                None => !state_fits(*self),
            },
    {
        let mut out: Vec<u8> = Vec::new();
        if self.users.len() > (u32::MAX as usize) {
            return None;
        }
        push_u32_le(&mut out, self.users.len() as u32);
        let ghost after_users_len = out@;
        let n = self.users.len();
        for i in 0..n
            invariant
                n == self.users@.len(),
                out@ == after_users_len + enc_user_list(self.users@.take(i as int)),
                forall|j: int| 0 <= j < i ==> user_fits(#[trigger] self.users@[j]),
        {
            if !push_user(&mut out, &self.users[i]) {
                return None;
            }
            proof {
                assert(self.users@.take(i + 1).drop_last() =~= self.users@.take(i as int));
                assert(self.users@.take(i + 1).last() == self.users@[i as int]);
                assert(out@ =~= after_users_len + enc_user_list(self.users@.take(i + 1)));
            }
        }
        proof {
            assert(self.users@.take(n as int) =~= self.users@);
        }
        if self.markets.len() > (u32::MAX as usize) {
            return None;
        }
        push_u32_le(&mut out, self.markets.len() as u32);
        let ghost after_markets_len = out@;
        let nm = self.markets.len();
        for i in 0..nm
            invariant
                nm == self.markets@.len(),
                out@ == after_markets_len + enc_market_list(self.markets@.take(i as int)),
                forall|j: int| 0 <= j < i ==> market_fits(#[trigger] self.markets@[j]),
        {
            if !push_market(&mut out, &self.markets[i]) {
                return None;
            }
            proof {
                assert(self.markets@.take(i + 1).drop_last() =~= self.markets@.take(i as int));
                assert(self.markets@.take(i + 1).last() == self.markets@[i as int]);
                assert(out@ =~= after_markets_len + enc_market_list(self.markets@.take(i + 1)));
            }
        }
        proof {
            assert(self.markets@.take(nm as int) =~= self.markets@);
        }
        push_u64_le(&mut out, self.next_market_id);
        match &self.admin {
            None => {
                out.push(0u8);
            },
            Some(s) => {
                out.push(1u8);
                if !push_str(&mut out, s.as_str()) {
                    return None;
                }
            },
        }
        proof {
            assert(out@ =~= state_bytes(*self));
        }
        Some(out)
    }

    /// Serializes the full state for the commitment, same as `as_bytes`.
    pub fn commit(&self) -> (r: Option<Vec<u8>>)
        ensures
            match r {
                Some(v) => state_fits(*self) && v@ == state_bytes(*self),
                None => !state_fits(*self),
            },
    {
        self.as_bytes()
    }

    /// The byte-level call surface: decodes the action from the wire,
    /// applies it for the calling identity, and returns the result message
    /// as bytes. On any error — undecodable input or a rejected action —
    /// the state is unchanged and the failure reason is returned.
    pub fn execute_bytes(&mut self, identity: String, calldata: &[u8]) -> (r: Result<
        Vec<u8>,
        String,
    >)
        requires
            crate::ledger::wf(*old(self)),
        ensures
            crate::ledger::wf(*final(self)),
            r is Err ==> crate::ledger::state_eq(*final(self), *old(self)),
            match r {
                Ok(out) => exists|a: MarketAction, m: String|
                    {
                        &&& action_fits(a)
                        &&& calldata@ == action_bytes(a)
                        &&& #[trigger] crate::ledger::execute_post(
                            *old(self),
                            *final(self),
                            identity@,
                            a,
                            Ok(m),
                        )
                        &&& out@ == encode_utf8(m@)
                    },
                Err(e) => e@ == msg_decode_failed() || (exists|a: MarketAction, err: MarketError|
                    {
                        &&& action_fits(a)
                        &&& calldata@ == action_bytes(a)
                        &&& #[trigger] crate::ledger::execute_post(
                            *old(self),
                            *final(self),
                            identity@,
                            a,
                            Err(err),
                        )
                        &&& e@ == crate::ledger::error_text(err)
                    }),
            },
    {
        let action = match decode_market_action(calldata) {
            Some(a) => a,
            None => {
                return Err("Failed to decode action".to_owned());
            },
        };
        let ghost ga = action;
        match self.execute(identity, action) {
            Ok(msg) => {
                let out = msg.as_str().as_bytes_vec();
                proof {
                    assert(crate::ledger::execute_post(
                        *old(self),
                        *self,
                        identity@,
                        ga,
                        Ok(msg),
                    ));
                }
                Ok(out)
            },
            Err(e) => {
                let text = e.message().to_owned();
                proof {
                    assert(crate::ledger::execute_post(
                        *old(self),
                        *self,
                        identity@,
                        ga,
                        Err::<String, MarketError>(e),
                    ));
                }
                Err(text)
            },
        }
    }
}

/// The failure reason when the wire bytes decode to no action.
pub open spec fn msg_decode_failed() -> Seq<char> {
    "Failed to decode action"@
}

// ---------------------------------------------------------------------
// Executable decoding
// ---------------------------------------------------------------------

/// Relies on String::from_utf8: it succeeds exactly on valid UTF-8 input
/// and returns its decoding.
#[verifier::external_body]
fn bytes_to_string(v: Vec<u8>) -> (r: Option<String>)
    ensures
        match r {
            Some(s) => valid_utf8(v@) && s@ == decode_utf8(v@),
            None => !valid_utf8(v@),
        },
{
    String::from_utf8(v).ok()
}

fn read_u32_le(bytes: &[u8], pos: usize) -> (r: Option<(u32, usize)>)
    ensures
        match r {
            Some((v, end)) => pos + 4 == end && end <= bytes@.len() && bytes@.subrange(
                pos as int,
                end as int,
            ) == enc_u32(v),
            None => true,
        },
{
    if bytes.len() < 4 || pos > bytes.len() - 4 {
        return None;
    }
    let b0 = *vstd::slice::slice_index_get(bytes, pos);
    let b1 = *vstd::slice::slice_index_get(bytes, pos + 1);
    let b2 = *vstd::slice::slice_index_get(bytes, pos + 2);
    let b3 = *vstd::slice::slice_index_get(bytes, pos + 3);
    let v = (b0 as u32) | ((b1 as u32) << 8) | ((b2 as u32) << 16) | ((b3 as u32) << 24);
    proof {
        assert((v & 0xff) as u8 == b0 && ((v >> 8) & 0xff) as u8 == b1 && ((v >> 16) & 0xff) as u8
            == b2 && ((v >> 24) & 0xff) as u8 == b3) by (bit_vector)
            requires
                v == (b0 as u32) | ((b1 as u32) << 8) | ((b2 as u32) << 16) | ((b3 as u32) << 24),
        ;
        assert(bytes@.subrange(pos as int, pos + 4) =~= enc_u32(v));
    }
    Some((v, pos + 4))
}

fn read_u64_le(bytes: &[u8], pos: usize) -> (r: Option<(u64, usize)>)
    ensures
        match r {
            Some((v, end)) => pos + 8 == end && end <= bytes@.len() && bytes@.subrange(
                pos as int,
                end as int,
            ) == enc_u64(v),
            None => true,
        },
{
    if bytes.len() < 8 || pos > bytes.len() - 8 {
        return None;
    }
    let b0 = *vstd::slice::slice_index_get(bytes, pos);
    let b1 = *vstd::slice::slice_index_get(bytes, pos + 1);
    let b2 = *vstd::slice::slice_index_get(bytes, pos + 2);
    let b3 = *vstd::slice::slice_index_get(bytes, pos + 3);
    let b4 = *vstd::slice::slice_index_get(bytes, pos + 4);
    let b5 = *vstd::slice::slice_index_get(bytes, pos + 5);
    let b6 = *vstd::slice::slice_index_get(bytes, pos + 6);
    let b7 = *vstd::slice::slice_index_get(bytes, pos + 7);
    let v = (b0 as u64) | ((b1 as u64) << 8) | ((b2 as u64) << 16) | ((b3 as u64) << 24) | ((
    b4 as u64) << 32) | ((b5 as u64) << 40) | ((b6 as u64) << 48) | ((b7 as u64) << 56);
    proof {
        assert((v & 0xff) as u8 == b0 && ((v >> 8) & 0xff) as u8 == b1 && ((v >> 16) & 0xff) as u8
            == b2 && ((v >> 24) & 0xff) as u8 == b3 && ((v >> 32) & 0xff) as u8 == b4 && ((v
            >> 40) & 0xff) as u8 == b5 && ((v >> 48) & 0xff) as u8 == b6 && ((v >> 56)
            & 0xff) as u8 == b7) by (bit_vector)
            requires
                v == (b0 as u64) | ((b1 as u64) << 8) | ((b2 as u64) << 16) | ((b3 as u64) << 24)
                    | ((b4 as u64) << 32) | ((b5 as u64) << 40) | ((b6 as u64) << 48) | ((
                b7 as u64) << 56),
        ;
        assert(bytes@.subrange(pos as int, pos + 8) =~= enc_u64(v));
    }
    Some((v, pos + 8))
}

fn read_u128_le(bytes: &[u8], pos: usize) -> (r: Option<(u128, usize)>)
    ensures
        match r {
            Some((v, end)) => pos + 16 == end && end <= bytes@.len() && bytes@.subrange(
                pos as int,
                end as int,
            ) == enc_u128(v),
            None => true,
        },
{
    if bytes.len() < 16 || pos > bytes.len() - 16 {
        return None;
    }
    let lo = match read_u64_le(bytes, pos) {
        Some((v, _)) => v,
        None => {
            return None;
        },
    };
    let hi = match read_u64_le(bytes, pos + 8) {
        Some((v, _)) => v,
        None => {
            return None;
        },
    };
    let v = (lo as u128) | ((hi as u128) << 64);
    proof {
        assert((v & 0xff) as u8 == (lo & 0xff) as u8 && ((v >> 8) & 0xff) as u8 == ((lo >> 8)
            & 0xff) as u8 && ((v >> 16) & 0xff) as u8 == ((lo >> 16) & 0xff) as u8 && ((v
            >> 24) & 0xff) as u8 == ((lo >> 24) & 0xff) as u8 && ((v >> 32) & 0xff) as u8 == ((lo
            >> 32) & 0xff) as u8 && ((v >> 40) & 0xff) as u8 == ((lo >> 40) & 0xff) as u8 && ((v
            >> 48) & 0xff) as u8 == ((lo >> 48) & 0xff) as u8 && ((v >> 56) & 0xff) as u8 == ((lo
            >> 56) & 0xff) as u8 && ((v >> 64) & 0xff) as u8 == (hi & 0xff) as u8 && ((v >> 72)
            & 0xff) as u8 == ((hi >> 8) & 0xff) as u8 && ((v >> 80) & 0xff) as u8 == ((hi >> 16)
            & 0xff) as u8 && ((v >> 88) & 0xff) as u8 == ((hi >> 24) & 0xff) as u8 && ((v >> 96)
            & 0xff) as u8 == ((hi >> 32) & 0xff) as u8 && ((v >> 104) & 0xff) as u8 == ((hi
            >> 40) & 0xff) as u8 && ((v >> 112) & 0xff) as u8 == ((hi >> 48) & 0xff) as u8 && ((v
            >> 120) & 0xff) as u8 == ((hi >> 56) & 0xff) as u8) by (bit_vector)
            requires
                v == (lo as u128) | ((hi as u128) << 64),
        ;
        assert(bytes@.subrange(pos as int, pos + 16) =~= enc_u128(v));
    }
    Some((v, pos + 16))
}

fn read_bool(bytes: &[u8], pos: usize) -> (r: Option<(bool, usize)>)
    ensures
        match r {
            Some((b, end)) => pos + 1 == end && end <= bytes@.len() && bytes@.subrange(
                pos as int,
                end as int,
            ) == enc_bool(b),
            None => true,
        },
{
    if pos >= bytes.len() {
        return None;
    }
    let byte = *vstd::slice::slice_index_get(bytes, pos);
    let b = match byte {
        0u8 => false,
        1u8 => true,
        _ => {
            return None;
        },
    };
    proof {
        assert(bytes@.subrange(pos as int, pos + 1) =~= enc_bool(b));
    }
    Some((b, pos + 1))
}

fn read_str(bytes: &[u8], pos: usize) -> (r: Option<(String, usize)>)
    ensures
        match r {
            Some((s, end)) => pos <= end <= bytes@.len() && str_fits(s@) && bytes@.subrange(
                pos as int,
                end as int,
            ) == enc_str(s@),
            None => true,
        },
{
    broadcast use vstd::utf8::decode_utf8_encode_utf8;

    let (len, p1) = match read_u32_le(bytes, pos) {
        Some(x) => x,
        None => {
            return None;
        },
    };
    let n = len as usize;
    if n > bytes.len() - p1 {
        return None;
    }
    let sub = vstd::slice::slice_subrange(bytes, p1, p1 + n);
    let v = vstd::slice::slice_to_vec(sub);
    let s = match bytes_to_string(v) {
        Some(s) => s,
        None => {
            return None;
        },
    };
    proof {
        assert(encode_utf8(s@) == bytes@.subrange(p1 as int, (p1 + n) as int));
        assert(encode_utf8(s@).len() as u32 == len);
        assert(bytes@.subrange(pos as int, (p1 + n) as int) =~= enc_str(s@));
    }
    Some((s, p1 + n))
}

fn read_status(bytes: &[u8], pos: usize) -> (r: Option<(MarketStatus, usize)>)
    ensures
        match r {
            Some((st, end)) => pos + 1 == end && end <= bytes@.len() && bytes@.subrange(
                pos as int,
                end as int,
            ) == enc_status(st),
            None => true,
        },
{
    if pos >= bytes.len() {
        return None;
    }
    let byte = *vstd::slice::slice_index_get(bytes, pos);
    let st = match byte {
        0u8 => MarketStatus::Open,
        1u8 => MarketStatus::ResolvedYes,
        2u8 => MarketStatus::ResolvedNo,
        _ => {
            return None;
        },
    };
    proof {
        assert(bytes@.subrange(pos as int, pos + 1) =~= enc_status(st));
    }
    Some((st, pos + 1))
}

fn read_bets(bytes: &[u8], pos: usize) -> (r: Option<(Vec<UserBet>, usize)>)
    ensures
        match r {
            Some((v, end)) => pos <= end <= bytes@.len() && v@.len() <= u32::MAX
                && bytes@.subrange(pos as int, end as int) == enc_u32(v@.len() as u32)
                + enc_bet_list(v@),
            None => true,
        },
{
    let (count, p0) = match read_u32_le(bytes, pos) {
        Some(x) => x,
        None => {
            return None;
        },
    };
    let mut v: Vec<UserBet> = Vec::new();
    let mut p = p0;
    let n = count as usize;
    for i in 0..n
        invariant
            p0 <= p <= bytes@.len(),
            v@.len() == i,
            n <= u32::MAX,
            bytes@.subrange(p0 as int, p as int) == enc_bet_list(v@),
    {
        let ghost p_before = p;
        let ghost v_before = v@;
        let (market_id, p1) = match read_u64_le(bytes, p) {
            Some(x) => x,
            None => {
                return None;
            },
        };
        let (side, p2) = match read_bool(bytes, p1) {
            Some(x) => x,
            None => {
                return None;
            },
        };
        let (amount, p3) = match read_u128_le(bytes, p2) {
            Some(x) => x,
            None => {
                return None;
            },
        };
        let (claimed, p4) = match read_bool(bytes, p3) {
            Some(x) => x,
            None => {
                return None;
            },
        };
        let b = UserBet { market_id, side, amount, claimed };
        v.push(b);
        p = p4;
        proof {
            assert(v@.drop_last() =~= v_before);
            assert(bytes@.subrange(p_before as int, p as int) =~= enc_bet(b));
            assert(bytes@.subrange(p0 as int, p as int) =~= bytes@.subrange(
                p0 as int,
                p_before as int,
            ) + bytes@.subrange(p_before as int, p as int));
            assert(bytes@.subrange(p0 as int, p as int) =~= enc_bet_list(v@));
        }
    }
    proof {
        assert(bytes@.subrange(pos as int, p as int) =~= enc_u32(v@.len() as u32) + enc_bet_list(
            v@,
        ));
    }
    Some((v, p))
}

fn read_stakes(bytes: &[u8], pos: usize) -> (r: Option<(Vec<(String, u128)>, usize)>)
    ensures
        match r {
            Some((v, end)) => pos <= end <= bytes@.len() && stake_list_fits(v@)
                && bytes@.subrange(pos as int, end as int) == enc_u32(v@.len() as u32)
                + enc_stake_list(v@),
            None => true,
        },
{
    let (count, p0) = match read_u32_le(bytes, pos) {
        Some(x) => x,
        None => {
            return None;
        },
    };
    let mut v: Vec<(String, u128)> = Vec::new();
    let mut p = p0;
    let n = count as usize;
    for i in 0..n
        invariant
            p0 <= p <= bytes@.len(),
            v@.len() == i,
            n <= u32::MAX,
            forall|j: int| 0 <= j < i ==> str_fits(#[trigger] v@[j].0@),
            bytes@.subrange(p0 as int, p as int) == enc_stake_list(v@),
    {
        let ghost p_before = p;
        let ghost v_before = v@;
        let (key, p1) = match read_str(bytes, p) {
            Some(x) => x,
            None => {
                return None;
            },
        };
        let (stake, p2) = match read_u128_le(bytes, p1) {
            Some(x) => x,
            None => {
                return None;
            },
        };
        let ghost key_view = key@;
        v.push((key, stake));
        p = p2;
        proof {
            assert(v@.drop_last() =~= v_before);
            assert(bytes@.subrange(p_before as int, p as int) =~= enc_stake_entry(v@.last()));
            assert(bytes@.subrange(p0 as int, p as int) =~= bytes@.subrange(
                p0 as int,
                p_before as int,
            ) + bytes@.subrange(p_before as int, p as int));
            assert(bytes@.subrange(p0 as int, p as int) =~= enc_stake_list(v@));
        }
    }
    proof {
        assert(bytes@.subrange(pos as int, p as int) =~= enc_u32(v@.len() as u32)
            + enc_stake_list(v@));
    }
    Some((v, p))
}

fn read_user(bytes: &[u8], pos: usize) -> (r: Option<((String, UserState), usize)>)
    ensures
        match r {
            Some((p2, end)) => pos <= end <= bytes@.len() && user_fits(p2) && bytes@.subrange(
                pos as int,
                end as int,
            ) == enc_user_entry(p2),
            None => true,
        },
{
    let (key, p1) = match read_str(bytes, pos) {
        Some(x) => x,
        None => {
            return None;
        },
    };
    let (balance, p2) = match read_u128_le(bytes, p1) {
        Some(x) => x,
        None => {
            return None;
        },
    };
    let (initialized, p3) = match read_bool(bytes, p2) {
        Some(x) => x,
        None => {
            return None;
        },
    };
    let (bets, p4) = match read_bets(bytes, p3) {
        Some(x) => x,
        None => {
            return None;
        },
    };
    let entry = (key, UserState { balance, initialized, bets });
    proof {
        assert(bytes@.subrange(pos as int, p2 as int) =~= bytes@.subrange(pos as int, p1 as int)
            + bytes@.subrange(p1 as int, p2 as int));
        assert(bytes@.subrange(pos as int, p3 as int) =~= bytes@.subrange(pos as int, p2 as int)
            + bytes@.subrange(p2 as int, p3 as int));
        assert(bytes@.subrange(pos as int, p4 as int) =~= bytes@.subrange(pos as int, p3 as int)
            + bytes@.subrange(p3 as int, p4 as int));
        assert(bytes@.subrange(pos as int, p4 as int) =~= enc_user_entry(entry));
    }
    Some((entry, p4))
}

#[verifier::rlimit(60)]
fn read_market(bytes: &[u8], pos: usize) -> (r: Option<(Market, usize)>)
    ensures
        match r {
            Some((m, end)) => pos <= end <= bytes@.len() && market_fits(m) && bytes@.subrange(
                pos as int,
                end as int,
            ) == enc_market(m),
            None => true,
        },
{
    let (id, p1) = match read_u64_le(bytes, pos) {
        Some(x) => x,
        None => {
            return None;
        },
    };
    let (creator, p2) = match read_str(bytes, p1) {
        Some(x) => x,
        None => {
            return None;
        },
    };
    let (description, p3) = match read_str(bytes, p2) {
        Some(x) => x,
        None => {
            return None;
        },
    };
    let (yes_pool, p4) = match read_u128_le(bytes, p3) {
        Some(x) => x,
        None => {
            return None;
        },
    };
    let (no_pool, p5) = match read_u128_le(bytes, p4) {
        Some(x) => x,
        None => {
            return None;
        },
    };
    let (yes_bettors, p6) = match read_stakes(bytes, p5) {
        Some(x) => x,
        None => {
            return None;
        },
    };
    let (no_bettors, p7) = match read_stakes(bytes, p6) {
        Some(x) => x,
        None => {
            return None;
        },
    };
    let (status, p8) = match read_status(bytes, p7) {
        Some(x) => x,
        None => {
            return None;
        },
    };
    let (created_at, p9) = match read_u64_le(bytes, p8) {
        Some(x) => x,
        None => {
            return None;
        },
    };
    let m = Market {
        id,
        creator,
        description,
        yes_pool,
        no_pool,
        yes_bettors,
        no_bettors,
        status,
        created_at,
    };
    proof {
        assert(bytes@.subrange(pos as int, p2 as int) =~= bytes@.subrange(pos as int, p1 as int)
            + bytes@.subrange(p1 as int, p2 as int));
        assert(bytes@.subrange(pos as int, p3 as int) =~= bytes@.subrange(pos as int, p2 as int)
            + bytes@.subrange(p2 as int, p3 as int));
        assert(bytes@.subrange(pos as int, p4 as int) =~= bytes@.subrange(pos as int, p3 as int)
            + bytes@.subrange(p3 as int, p4 as int));
        assert(bytes@.subrange(pos as int, p5 as int) =~= bytes@.subrange(pos as int, p4 as int)
            + bytes@.subrange(p4 as int, p5 as int));
        assert(bytes@.subrange(pos as int, p6 as int) =~= bytes@.subrange(pos as int, p5 as int)
            + bytes@.subrange(p5 as int, p6 as int));
        assert(bytes@.subrange(pos as int, p7 as int) =~= bytes@.subrange(pos as int, p6 as int)
            + bytes@.subrange(p6 as int, p7 as int));
        assert(bytes@.subrange(pos as int, p8 as int) =~= bytes@.subrange(pos as int, p7 as int)
            + bytes@.subrange(p7 as int, p8 as int));
        assert(bytes@.subrange(pos as int, p9 as int) =~= bytes@.subrange(pos as int, p8 as int)
            + bytes@.subrange(p8 as int, p9 as int));
        assert(bytes@.subrange(pos as int, p9 as int) =~= enc_market(m));
    }
    Some((m, p9))
}

/// Splitting a subrange at an interior point concatenates the two halves.
proof fn lemma_subrange_split(s: Seq<u8>, a: int, b: int, c: int)
    requires
        0 <= a <= b <= c <= s.len(),
    ensures
        s.subrange(a, c) == s.subrange(a, b) + s.subrange(b, c),
{
    assert(s.subrange(a, c) =~= s.subrange(a, b) + s.subrange(b, c));
}

/// Decodes a state commitment produced by `as_bytes`. When it succeeds, the
/// input is exactly the returned state's commitment; trailing bytes are
/// rejected. The decoded value carries no guarantee beyond its shape: only
/// commitments the ledger itself produced describe reachable states.
#[verifier::rlimit(100)]
fn read_users(bytes: &[u8], pos: usize) -> (r: Option<(Vec<(String, UserState)>, usize)>)
    ensures
        match r {
            Some((v, end)) => pos <= end <= bytes@.len() && v@.len() <= u32::MAX && (forall|
                j: int,
            |
                0 <= j < v@.len() ==> user_fits(#[trigger] v@[j])) && bytes@.subrange(
                pos as int,
                end as int,
            ) == enc_u32(v@.len() as u32) + enc_user_list(v@),
            None => true,
        },
{
    let (count, p0) = match read_u32_le(bytes, pos) {
        Some(x) => x,
        None => {
            return None;
        },
    };
    let mut v: Vec<(String, UserState)> = Vec::new();
    let mut p = p0;
    let n = count as usize;
    for i in 0..n
        invariant
            p0 <= p <= bytes@.len(),
            v@.len() == i,
            n <= u32::MAX,
            forall|j: int| 0 <= j < i ==> user_fits(#[trigger] v@[j]),
            bytes@.subrange(p0 as int, p as int) == enc_user_list(v@),
    {
        let ghost p_before = p;
        let ghost v_before = v@;
        let (entry, p1) = match read_user(bytes, p) {
            Some(x) => x,
            None => {
                return None;
            },
        };
        v.push(entry);
        p = p1;
        proof {
            assert(v@.drop_last() =~= v_before);
            assert(bytes@.subrange(p0 as int, p as int) =~= bytes@.subrange(
                p0 as int,
                p_before as int,
            ) + bytes@.subrange(p_before as int, p as int));
            assert(bytes@.subrange(p0 as int, p as int) =~= enc_user_list(v@));
        }
    }
    proof {
        assert(bytes@.subrange(pos as int, p as int) =~= enc_u32(v@.len() as u32) + enc_user_list(
            v@,
        ));
    }
    Some((v, p))
}

#[verifier::rlimit(100)]
fn read_markets(bytes: &[u8], pos: usize) -> (r: Option<(Vec<Market>, usize)>)
    ensures
        match r {
            Some((v, end)) => pos <= end <= bytes@.len() && v@.len() <= u32::MAX && (forall|
                j: int,
            |
                0 <= j < v@.len() ==> market_fits(#[trigger] v@[j])) && bytes@.subrange(
                pos as int,
                end as int,
            ) == enc_u32(v@.len() as u32) + enc_market_list(v@),
            None => true,
        },
{
    let (count, p0) = match read_u32_le(bytes, pos) {
        Some(x) => x,
        None => {
            return None;
        },
    };
    let mut v: Vec<Market> = Vec::new();
    let mut p = p0;
    let n = count as usize;
    for i in 0..n
        invariant
            p0 <= p <= bytes@.len(),
            v@.len() == i,
            n <= u32::MAX,
            forall|j: int| 0 <= j < i ==> market_fits(#[trigger] v@[j]),
            bytes@.subrange(p0 as int, p as int) == enc_market_list(v@),
    {
        let ghost p_before = p;
        let ghost v_before = v@;
        let (m, p1) = match read_market(bytes, p) {
            Some(x) => x,
            None => {
                return None;
            },
        };
        v.push(m);
        p = p1;
        proof {
            assert(v@.drop_last() =~= v_before);
            assert(bytes@.subrange(p0 as int, p as int) =~= bytes@.subrange(
                p0 as int,
                p_before as int,
            ) + bytes@.subrange(p_before as int, p as int));
            assert(bytes@.subrange(p0 as int, p as int) =~= enc_market_list(v@));
        }
    }
    proof {
        assert(bytes@.subrange(pos as int, p as int) =~= enc_u32(v@.len() as u32)
            + enc_market_list(v@));
    }
    Some((v, p))
}

/// Decodes a state commitment produced by `as_bytes`. When it succeeds, the
/// input is exactly the returned state's commitment; trailing bytes are
/// rejected. The decoded value carries no guarantee beyond its shape: only
/// commitments the ledger itself produced describe reachable states.
#[verifier::rlimit(100)]
pub fn decode_state(bytes: &[u8]) -> (r: Option<Contract1>)
    ensures
        match r {
            Some(c) => state_fits(c) && bytes@ == state_bytes(c),
            None => true,
        },
{
    let (users, p) = match read_users(bytes, 0) {
        Some(x) => x,
        None => {
            return None;
        },
    };
    let (markets, q) = match read_markets(bytes, p) {
        Some(x) => x,
        None => {
            return None;
        },
    };
    let (next_market_id, r0) = match read_u64_le(bytes, q) {
        Some(x) => x,
        None => {
            return None;
        },
    };
    if r0 >= bytes.len() {
        return None;
    }
    let admin_tag = *vstd::slice::slice_index_get(bytes, r0);
    let (admin, r1) = match admin_tag {
        0u8 => (None, r0 + 1),
        1u8 => {
            let (s, r1) = match read_str(bytes, r0 + 1) {
                Some(x) => x,
                None => {
                    return None;
                },
            };
            proof {
                lemma_subrange_split(bytes@, r0 as int, r0 + 1, r1 as int);
                assert(bytes@.subrange(r0 as int, r0 + 1) =~= seq![1u8]);
            }
            (Some(s), r1)
        },
        _ => {
            return None;
        },
    };
    if r1 != bytes.len() {
        return None;
    }
    let c = Contract1 { users, markets, next_market_id, admin };
    proof {
        if admin_tag == 0 {
            assert(bytes@.subrange(r0 as int, r1 as int) =~= enc_admin(c.admin));
        }
        lemma_subrange_split(bytes@, 0, p as int, q as int);
        lemma_subrange_split(bytes@, 0, q as int, r0 as int);
        lemma_subrange_split(bytes@, 0, r0 as int, r1 as int);
        // Reassociate the user and market segments into the flat shape of
        // `state_bytes`.
        vstd::seq_lib::lemma_concat_associative(
            enc_u32(c.users@.len() as u32) + enc_user_list(c.users@),
            enc_u32(c.markets@.len() as u32),
            enc_market_list(c.markets@),
        );
        assert(bytes@.subrange(0, r1 as int) == state_bytes(c));
        assert(bytes@.subrange(0, r1 as int) =~= bytes@);
    }
    Some(c)
}

/// Decodes a wire-format action. When it succeeds, the input is exactly the
/// returned action's encoding; trailing bytes are rejected.
pub fn decode_market_action(bytes: &[u8]) -> (r: Option<MarketAction>)
    ensures
        match r {
            Some(a) => action_fits(a) && bytes@ == action_bytes(a),
            None => true,
        },
{
    if bytes.len() < 1 {
        return None;
    }
    let tag = *vstd::slice::slice_index_get(bytes, 0);
    match tag {
        0u8 => {
            let (s, end) = match read_str(bytes, 1) {
                Some(x) => x,
                None => {
                    return None;
                },
            };
            if end != bytes.len() {
                return None;
            }
            let a = MarketAction::SetAdmin { new_admin: s };
            proof {
                assert(bytes@ =~= action_bytes(a));
            }
            Some(a)
        },
        1u8 => {
            if bytes.len() != 1 {
                return None;
            }
            proof {
                assert(bytes@ =~= action_bytes(MarketAction::Initialize));
            }
            Some(MarketAction::Initialize)
        },
        2u8 => {
            let (s, end) = match read_str(bytes, 1) {
                Some(x) => x,
                None => {
                    return None;
                },
            };
            if end != bytes.len() {
                return None;
            }
            let a = MarketAction::CreateMarket { description: s };
            proof {
                assert(bytes@ =~= action_bytes(a));
            }
            Some(a)
        },
        3u8 => {
            let (market_id, p1) = match read_u64_le(bytes, 1) {
                Some(x) => x,
                None => {
                    return None;
                },
            };
            let (side, p2) = match read_bool(bytes, p1) {
                Some(x) => x,
                None => {
                    return None;
                },
            };
            let (amount, p3) = match read_u128_le(bytes, p2) {
                Some(x) => x,
                None => {
                    return None;
                },
            };
            if p3 != bytes.len() {
                return None;
            }
            let a = MarketAction::PlaceBet { market_id, side, amount };
            proof {
                assert(bytes@ =~= action_bytes(a));
            }
            Some(a)
        },
        4u8 => {
            let (market_id, p1) = match read_u64_le(bytes, 1) {
                Some(x) => x,
                None => {
                    return None;
                },
            };
            let (outcome, p2) = match read_bool(bytes, p1) {
                Some(x) => x,
                None => {
                    return None;
                },
            };
            if p2 != bytes.len() {
                return None;
            }
            let a = MarketAction::ResolveMarket { market_id, outcome };
            proof {
                assert(bytes@ =~= action_bytes(a));
            }
            Some(a)
        },
        5u8 => {
            let (market_id, p1) = match read_u64_le(bytes, 1) {
                Some(x) => x,
                None => {
                    return None;
                },
            };
            if p1 != bytes.len() {
                return None;
            }
            let a = MarketAction::ClaimWinnings { market_id };
            proof {
                assert(bytes@ =~= action_bytes(a));
            }
            Some(a)
        },
        6u8 => {
            if bytes.len() != 1 {
                return None;
            }
            proof {
                assert(bytes@ =~= action_bytes(MarketAction::GetBalance));
            }
            Some(MarketAction::GetBalance)
        },
        7u8 => {
            let (market_id, p1) = match read_u64_le(bytes, 1) {
                Some(x) => x,
                None => {
                    return None;
                },
            };
            if p1 != bytes.len() {
                return None;
            }
            let a = MarketAction::GetMarketInfo { market_id };
            proof {
                assert(bytes@ =~= action_bytes(a));
            }
            Some(a)
        },
        _ => None,
    }
}

} // verus!
