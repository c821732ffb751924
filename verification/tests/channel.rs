use braid::errors::GameError;
use braid::state_channel::{State, StateChannel};
use secp256k1::{PublicKey, SecretKey};
use sha2::Digest;

const PLAYER_KEY: [u8; 32] = [1; 32];
const SERVER_KEY: [u8; 32] = [2; 32];
const OTHER_KEY: [u8; 32] = [3; 32];

fn public_key_bytes(key: [u8; 32]) -> Vec<u8> {
    let sk = SecretKey::from_byte_array(key).unwrap();
    PublicKey::from_secret_key(&sk).serialize().to_vec()
}

/// Sign a snapshot the way the protocol defines it, but entirely through the
/// outside crates: SHA-256 of the canonical encoding, ECDSA over secp256k1,
/// compact serialization.
fn sign_proposed(state: &State, key: [u8; 32]) -> Vec<u8> {
    let digest: [u8; 32] = sha2::Sha256::digest(state.encode()).into();
    let sk = SecretKey::from_byte_array(key).unwrap();
    let msg = secp256k1::Message::from_digest(digest);
    secp256k1::ecdsa::sign(msg, &sk).serialize_compact().to_vec()
}

#[test]
fn test_sign_then_verify() {
    let channel = StateChannel::new("player1", "server1");
    let public_key = public_key_bytes(PLAYER_KEY);
    let signature = channel.sign_state(&PLAYER_KEY).unwrap();
    assert!(channel.verify_state(&channel.current_state, &signature, &public_key));
}

#[test]
fn test_sign_matches_direct_signature() {
    // The library's signing path agrees byte for byte with signing the
    // canonical state digest directly through sha2 and secp256k1.
    let channel = StateChannel::new("player1", "server1");
    let signature = channel.sign_state(&PLAYER_KEY).unwrap();
    assert_eq!(signature, sign_proposed(&channel.current_state, PLAYER_KEY));
    assert_eq!(signature.len(), 64);
}

#[test]
fn test_verify_rejects_wrong_key() {
    let channel = StateChannel::new("player1", "server1");
    let signature = channel.sign_state(&PLAYER_KEY).unwrap();
    let other_public_key = public_key_bytes(OTHER_KEY);
    assert!(!channel.verify_state(&channel.current_state, &signature, &other_public_key));
}

#[test]
fn test_verify_rejects_mutated_state() {
    let channel = StateChannel::new("player1", "server1");
    let public_key = public_key_bytes(PLAYER_KEY);
    let signature = channel.sign_state(&PLAYER_KEY).unwrap();
    let mutated = State {
        player_address: channel.current_state.player_address.clone(),
        move_hash: channel.current_state.move_hash.clone(),
        turn_number: channel.current_state.turn_number + 1,
    };
    assert!(!channel.verify_state(&mutated, &signature, &public_key));
}

#[test]
fn test_verify_rejects_malformed_signature() {
    let channel = StateChannel::new("player1", "server1");
    let public_key = public_key_bytes(PLAYER_KEY);
    let signature = channel.sign_state(&PLAYER_KEY).unwrap();
    assert!(!channel.verify_state(&channel.current_state, &signature[..63], &public_key));
    assert!(!channel.verify_state(&channel.current_state, &signature, &public_key[..32]));
}

#[test]
fn test_sign_rejects_invalid_key() {
    let channel = StateChannel::new("player1", "server1");
    // The zero scalar is not a valid secp256k1 secret key, nor are 31 bytes.
    assert!(channel.sign_state(&[0; 32]).is_none());
    assert!(channel.sign_state(&[1; 31]).is_none());
}

#[test]
fn test_update_state_accepts_signed_successor() {
    let mut channel = StateChannel::new("player1", "server1");
    let proposed = State {
        player_address: "player1".to_string(),
        move_hash: vec![0, 1, 2, 3],
        turn_number: 1,
    };
    let player_signature = sign_proposed(&proposed, PLAYER_KEY);
    let server_signature = sign_proposed(&proposed, SERVER_KEY);
    let player_public_key = public_key_bytes(PLAYER_KEY);
    let server_public_key = public_key_bytes(SERVER_KEY);
    let r = channel.update_state(
        vec![0, 1, 2, 3],
        1,
        player_signature,
        server_signature,
        &player_public_key,
        &server_public_key,
    );
    assert_eq!(r, Ok(()));
    assert_eq!(channel.current_state.turn_number, 1);
    assert_eq!(channel.current_state.move_hash, vec![0, 1, 2, 3]);
    assert!(channel.player_signature.is_some());
    assert!(channel.server_signature.is_some());
    // The initial state stays what it was at creation: the dispute fallback.
    assert_eq!(channel.initial_state.turn_number, 0);
}

#[test]
fn test_update_state_rejects_stale_turn() {
    let mut channel = StateChannel::new("player1", "server1");
    let player_public_key = public_key_bytes(PLAYER_KEY);
    let server_public_key = public_key_bytes(SERVER_KEY);
    let r = channel.update_state(
        vec![1],
        0,
        vec![0; 64],
        vec![0; 64],
        &player_public_key,
        &server_public_key,
    );
    assert_eq!(r, Err(GameError::StaleUpdate));
    assert_eq!(channel.current_state.turn_number, 0);
    assert!(channel.player_signature.is_none());
}

#[test]
fn test_update_state_rejects_bad_signature() {
    let mut channel = StateChannel::new("player1", "server1");
    let proposed = State {
        player_address: "player1".to_string(),
        move_hash: vec![1],
        turn_number: 1,
    };
    // The player signs, but the claimed server signature is from another key.
    let player_signature = sign_proposed(&proposed, PLAYER_KEY);
    let forged = sign_proposed(&proposed, OTHER_KEY);
    let player_public_key = public_key_bytes(PLAYER_KEY);
    let server_public_key = public_key_bytes(SERVER_KEY);
    let r = channel.update_state(
        vec![1],
        1,
        player_signature,
        forged,
        &player_public_key,
        &server_public_key,
    );
    assert_eq!(r, Err(GameError::InvalidSignature));
    assert_eq!(channel.current_state.turn_number, 0);
}
