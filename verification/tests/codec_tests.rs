use parimutuel_ledger::codec::{decode_market_action, decode_state, encode_market_action};
use parimutuel_ledger::ledger::{Contract1, MarketAction};

fn s(x: &str) -> String {
    x.to_string()
}

fn roundtrip(a: MarketAction) {
    let bytes = encode_market_action(&a).unwrap();
    let back = decode_market_action(&bytes).unwrap();
    assert_eq!(back, a);
}

#[test]
fn actions_roundtrip_through_the_wire() {
    roundtrip(MarketAction::SetAdmin { new_admin: s("alice") });
    roundtrip(MarketAction::Initialize);
    roundtrip(MarketAction::CreateMarket { description: s("rain tomorrow") });
    roundtrip(MarketAction::PlaceBet { market_id: 7, side: true, amount: 1u128 << 100 });
    roundtrip(MarketAction::ResolveMarket { market_id: 7, outcome: false });
    roundtrip(MarketAction::ClaimWinnings { market_id: u64::MAX });
    roundtrip(MarketAction::GetBalance);
    roundtrip(MarketAction::GetMarketInfo { market_id: 0 });
}

#[test]
fn non_ascii_descriptions_survive_the_roundtrip() {
    roundtrip(MarketAction::CreateMarket { description: s("caf\u{e9} \u{2615} rain?") });
}

#[test]
fn action_encoding_matches_borsh_layout() {
    // A tag byte followed by the fields, strings as u32 length + UTF-8,
    // integers little-endian: the same layout borsh's derive would give
    // the action type.
    let enc = encode_market_action(&MarketAction::SetAdmin { new_admin: s("alice") }).unwrap();
    assert_eq!(enc, borsh::to_vec(&(0u8, s("alice"))).unwrap());
    let enc = encode_market_action(&MarketAction::CreateMarket { description: s("rain?") })
        .unwrap();
    assert_eq!(enc, borsh::to_vec(&(2u8, s("rain?"))).unwrap());
    let enc = encode_market_action(&MarketAction::PlaceBet {
        market_id: 513,
        side: true,
        amount: 777_000_000_000_000_000_000u128,
    })
    .unwrap();
    assert_eq!(
        enc,
        borsh::to_vec(&(3u8, 513u64, true, 777_000_000_000_000_000_000u128)).unwrap()
    );
    let enc = encode_market_action(&MarketAction::ResolveMarket { market_id: 1, outcome: false })
        .unwrap();
    assert_eq!(enc, borsh::to_vec(&(4u8, 1u64, false)).unwrap());
    let enc = encode_market_action(&MarketAction::GetBalance).unwrap();
    assert_eq!(enc, vec![6u8]);
}

#[test]
fn malformed_wire_bytes_are_rejected() {
    // Empty input.
    assert_eq!(decode_market_action(&[]), None);
    // Unknown tag.
    assert_eq!(decode_market_action(&[9]), None);
    // Trailing bytes after a complete action.
    assert_eq!(decode_market_action(&[1, 0]), None);
    // Truncated integer field.
    assert_eq!(decode_market_action(&[5, 1, 0, 0]), None);
    // String length prefix longer than the input.
    assert_eq!(decode_market_action(&[2, 100, 0, 0, 0, b'a']), None);
    // Invalid UTF-8 payload.
    assert_eq!(decode_market_action(&[2, 1, 0, 0, 0, 0xff]), None);
    // A boolean byte that is neither 0 nor 1.
    let mut bad = Vec::new();
    bad.push(4u8);
    bad.extend_from_slice(&1u64.to_le_bytes());
    bad.push(7u8);
    assert_eq!(decode_market_action(&bad), None);
}

#[test]
fn empty_state_commitment_is_all_zeroes() {
    // No users (4 zero bytes), no markets (4), counter (8), no admin (1).
    let c = Contract1::new();
    assert_eq!(c.commit().unwrap(), vec![0u8; 17]);
    assert_eq!(c.as_bytes().unwrap(), vec![0u8; 17]);
}

#[test]
fn state_commitment_is_reproducible_and_tracks_changes() {
    let mut c1 = Contract1::new();
    c1.initialize(s("a")).unwrap();
    c1.create_market(s("a"), s("m")).unwrap();
    c1.place_bet(s("a"), 1, true, 5).unwrap();
    let mut c2 = Contract1::new();
    c2.initialize(s("a")).unwrap();
    c2.create_market(s("a"), s("m")).unwrap();
    c2.place_bet(s("a"), 1, true, 5).unwrap();
    // Identical histories commit to identical bytes.
    assert_eq!(c1.commit().unwrap(), c2.commit().unwrap());
    // A further action changes the commitment.
    c2.place_bet(s("a"), 1, false, 5).unwrap();
    assert_ne!(c1.commit().unwrap(), c2.commit().unwrap());
}

#[test]
fn committed_state_decodes_back() {
    let mut c = Contract1::new();
    c.set_admin(s("oracle"), s("oracle")).unwrap();
    c.initialize(s("a")).unwrap();
    c.initialize(s("b")).unwrap();
    c.create_market(s("a"), s("rain tomorrow \u{2614}")).unwrap();
    c.place_bet(s("a"), 1, true, 100).unwrap();
    c.place_bet(s("b"), 1, false, 300).unwrap();
    c.resolve_market(s("oracle"), 1, false).unwrap();
    c.claim_winnings(s("b"), 1).unwrap();
    let bytes = c.commit().unwrap();
    let back = decode_state(&bytes).unwrap();
    // The decoded state commits to the same bytes and carries the same data.
    assert_eq!(back.commit().unwrap(), bytes);
    assert_eq!(back.next_market_id, 1);
    assert_eq!(back.admin.as_deref(), Some("oracle"));
    assert_eq!(back.users.len(), 2);
    assert_eq!(back.markets[0].description, "rain tomorrow \u{2614}");
    assert_eq!(back.markets[0].yes_pool, 100);
    assert_eq!(back.markets[0].no_pool, 300);
    // Mangled commitments are rejected.
    assert!(decode_state(&bytes[..bytes.len() - 1]).is_none());
}

#[test]
fn execute_bytes_runs_decoded_actions() {
    let mut c = Contract1::new();
    let calldata = encode_market_action(&MarketAction::Initialize).unwrap();
    let out = c.execute_bytes(s("a"), &calldata).unwrap();
    assert_eq!(out, b"Initialized with 10000 balance".to_vec());
    // A rejected action surfaces its reason and leaves state alone.
    let again = c.execute_bytes(s("a"), &calldata);
    assert_eq!(again, Err(s("User already initialized")));
    // Undecodable bytes are rejected outright.
    let garbage = c.execute_bytes(s("a"), &[42, 42]);
    assert_eq!(garbage, Err(s("Failed to decode action")));
}
