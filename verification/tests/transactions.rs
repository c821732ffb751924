use braid::errors::GameError;
use braid::state_channel::{State, StateChannel};
use braid::transactions::{decode_path, BlockchainTransaction};

// Amounts are fixed-point with one decimal place: 1000 tenths is 100.0 units.

#[test]
fn test_commit_ante() {
    let tx = BlockchainTransaction::commit_ante("player1", 1000);
    assert_eq!(tx.sender, "player1");
    assert_eq!(tx.receiver, "treasure_pool");
    assert_eq!(tx.amount, 1000);
    assert_eq!(tx.amount as f64 / 10.0, 100.0);
}

#[test]
fn test_submit_path() {
    let path = vec![(0, 0), (0, 1), (1, 1)];
    let tx = BlockchainTransaction::submit_path("player1", path.clone());
    assert_eq!(tx.sender, "player1");
    assert_eq!(tx.receiver, "game_contract");
    assert_eq!(tx.amount, 0);
    let data: Vec<(usize, usize)> = decode_path(&tx.data).unwrap();
    assert_eq!(data, path);
}

#[test]
fn test_claim_treasure() {
    let tx = BlockchainTransaction::claim_treasure("player1", 5000);
    assert_eq!(tx.sender, "player1");
    assert_eq!(tx.receiver, "treasure_pool");
    assert_eq!(tx.amount, 5000);
    assert_eq!(tx.amount as f64 / 10.0, 500.0);
}

#[test]
fn test_slash_claim() {
    let tx = BlockchainTransaction::slash_claim("player1", "player2", "cheating");
    assert_eq!(tx.sender, "player1");
    assert_eq!(tx.receiver, "player2");
    assert_eq!(tx.amount, 0);
    assert_eq!(String::from_utf8(tx.data).unwrap(), "cheating");
}

#[test]
fn test_audit_transaction() {
    let audit_data = vec![1, 2, 3, 4];
    let tx = BlockchainTransaction::audit_transaction("auditor", audit_data.clone());
    assert_eq!(tx.sender, "auditor");
    assert_eq!(tx.receiver, "audit_contract");
    assert_eq!(tx.amount, 0);
    assert_eq!(tx.data, audit_data);
}

#[test]
fn test_open_state_channel() {
    let initial_state = State {
        player_address: "player1".to_string(),
        move_hash: vec![0, 1, 2, 3],
        turn_number: 0,
    };
    let tx = BlockchainTransaction::open_state_channel("player1", "server1", initial_state);
    assert_eq!(tx.sender, "player1");
    assert_eq!(tx.receiver, "server1");
    assert_eq!(tx.amount, 0);
    let data: State = StateChannel::deserialize_state(&tx.data).unwrap();
    assert_eq!(data.player_address, "player1");
    assert_eq!(data.move_hash, vec![0, 1, 2, 3]);
    assert_eq!(data.turn_number, 0);
}

#[test]
fn test_close_state_channel() {
    let final_state = State {
        player_address: "player1".to_string(),
        move_hash: vec![0, 1, 2, 3],
        turn_number: 10,
    };
    let tx = BlockchainTransaction::close_state_channel("player1", "server1", final_state);
    assert_eq!(tx.sender, "player1");
    assert_eq!(tx.receiver, "server1");
    assert_eq!(tx.amount, 0);
    let data: State = StateChannel::deserialize_state(&tx.data).unwrap();
    assert_eq!(data.player_address, "player1");
    assert_eq!(data.move_hash, vec![0, 1, 2, 3]);
    assert_eq!(data.turn_number, 10);
}

#[test]
fn test_commit_move_on_chain() {
    let move_hash = vec![0, 1, 2, 3];
    let zk_proof = vec![4, 5, 6, 7];
    let tx = BlockchainTransaction::commit_move_on_chain("player1", move_hash.clone(), zk_proof.clone());
    assert_eq!(tx.sender, "player1");
    assert_eq!(tx.receiver, "game_contract");
    assert_eq!(tx.amount, 0);
    assert_eq!(tx.data[..move_hash.len()], move_hash[..]);
    assert_eq!(tx.data[move_hash.len()..], zk_proof[..]);
}

#[test]
fn test_transaction_record_round_trip() {
    let tx = BlockchainTransaction::new("alice", "bob", 77, vec![9, 8, 7]);
    let bytes = tx.serialize();
    let back = BlockchainTransaction::deserialize(&bytes).unwrap();
    assert_eq!(back.sender, "alice");
    assert_eq!(back.receiver, "bob");
    assert_eq!(back.amount, 77);
    assert_eq!(back.data, vec![9, 8, 7]);
}

#[test]
fn test_transaction_deserialize_rejects_garbage() {
    assert!(matches!(
        BlockchainTransaction::deserialize(&[1, 2, 3]),
        Err(GameError::DecodeError)
    ));
    // A truncated but well-started record is rejected too.
    let tx = BlockchainTransaction::commit_ante("player1", 1000);
    let bytes = tx.serialize();
    assert!(matches!(
        BlockchainTransaction::deserialize(&bytes[..bytes.len() - 1]),
        Err(GameError::DecodeError)
    ));
}

#[test]
fn test_path_round_trip_per_factory() {
    // The empty path and a longer path both survive the round trip exactly.
    for path in [
        vec![],
        vec![(0, 0)],
        vec![(0, 0), (0, 1), (1, 1), (2, 1), (2, 2)],
    ] {
        let tx = BlockchainTransaction::submit_path("p1", path.clone());
        assert_eq!(decode_path(&tx.data).unwrap(), path);
    }
    assert_eq!(decode_path(&[0xff; 4]), Err(GameError::DecodeError));
}

#[test]
fn test_state_round_trip_non_ascii() {
    let state = State {
        player_address: "spieler \u{00e9}\u{4e16}".to_string(),
        move_hash: vec![255, 0, 128],
        turn_number: u64::MAX,
    };
    let channel = StateChannel {
        player_address: state.player_address.clone(),
        server_address: "server".to_string(),
        initial_state: State {
            player_address: state.player_address.clone(),
            move_hash: vec![],
            turn_number: 0,
        },
        current_state: state,
        player_signature: None,
        server_signature: None,
    };
    let bytes = channel.serialize_state();
    let back = StateChannel::deserialize_state(&bytes).unwrap();
    assert_eq!(back.player_address, "spieler \u{00e9}\u{4e16}");
    assert_eq!(back.move_hash, vec![255, 0, 128]);
    assert_eq!(back.turn_number, u64::MAX);
    assert!(matches!(
        StateChannel::deserialize_state(&bytes[1..]),
        Err(GameError::DecodeError)
    ));
}
