//! The state channel: two parties advance a per-player game state off-chain
//! by exchanging signed snapshots, settling on the external ledger only at
//! close or dispute time.

use vstd::bytes::lemma_auto_spec_u64_to_from_le_bytes;
use vstd::prelude::*;
use vstd::utf8::encode_utf8;

use crate::codec::{
    enc_bytes, enc_str, enc_u64, lemma_enc_u64_injective, read_bytes_at, read_str_at, read_u64_at,
    write_bytes, write_str, write_u64,
};
use crate::crypto::{
    public_key_of, secret_key_ok, sha256, sha256_of, sign_digest, signature_of, signature_valid,
    verify_digest_signature,
};
use crate::errors::GameError;

verus! {

/// A snapshot of one player's channel state. Immutable once signed; a channel
/// replaces its current snapshot only through `update_state`.
pub struct State {
    /// Address of the player the channel belongs to.
    pub player_address: String,
    /// Opaque commitment to the player's latest move.
    pub move_hash: Vec<u8>,
    /// Strictly increasing turn counter.
    pub turn_number: u64,
}

/// The canonical encoding of a state snapshot: the address string, the move
/// hash block, the turn number.
pub open spec fn state_enc(player: Seq<char>, move_hash: Seq<u8>, turn: u64) -> Seq<u8> {
    enc_str(player) + enc_bytes(move_hash) + enc_u64(turn)
}

/// How the canonical encoding of a state splits back into its three fields.
pub proof fn lemma_state_enc_split(data: Seq<u8>, p: Seq<char>, m: Seq<u8>, t: u64)
    requires
        data == state_enc(p, m, t),
    ensures
        data.len() == 8 + encode_utf8(p).len() as int + 8 + m.len() as int + 8,
        data.subrange(0, 8 + encode_utf8(p).len() as int) == enc_str(p),
        data.subrange(8 + encode_utf8(p).len() as int, 8 + encode_utf8(p).len() as int + 8 + m.len() as int)
            == enc_bytes(m),
        data.subrange(8 + encode_utf8(p).len() as int + 8 + m.len() as int, data.len() as int) == enc_u64(t),
{
    lemma_auto_spec_u64_to_from_le_bytes();
    assert(enc_str(p).len() == 8 + encode_utf8(p).len() as int);
    assert(enc_bytes(m).len() == 8 + m.len() as int);
    assert(data.subrange(0, 8 + encode_utf8(p).len() as int) =~= enc_str(p));
    assert(data.subrange(8 + encode_utf8(p).len() as int, 8 + encode_utf8(p).len() as int + 8 + m.len() as int)
        =~= enc_bytes(m));
    assert(data.subrange(8 + encode_utf8(p).len() as int + 8 + m.len() as int, data.len() as int) =~= enc_u64(
        t,
    ));
}

impl State {
    /// The canonical encoding of this snapshot.
    pub open spec fn enc(&self) -> Seq<u8> {
        state_enc(self.player_address@, self.move_hash@, self.turn_number)
    }

    /// The digest both parties sign: SHA-256 of the canonical encoding.
    pub open spec fn digest(&self) -> Seq<u8> {
        sha256_of(self.enc())
    }

    /// Serialize this snapshot canonically.
    pub fn encode(&self) -> (r: Vec<u8>)
        ensures
            r@ == self.enc(),
    {
        let mut out: Vec<u8> = Vec::new();
        write_str(&mut out, self.player_address.as_str());
        write_bytes(&mut out, self.move_hash.as_slice());
        write_u64(&mut out, self.turn_number);
        proof {
            assert(out@ =~= self.enc());
        }
        out
    }
}

/// The cryptographic protocol object of one player's channel: the fixed
/// initial snapshot (the dispute fallback), the current snapshot, and the two
/// parties' signatures over the current snapshot, when present.
pub struct StateChannel {
    /// Address of the player party.
    pub player_address: String,
    /// Address of the server party.
    pub server_address: String,
    /// The snapshot fixed at creation; never replaced.
    pub initial_state: State,
    /// The latest accepted snapshot.
    pub current_state: State,
    /// The player's signature over the current snapshot, once an update was
    /// accepted.
    pub player_signature: Option<Vec<u8>>,
    /// The server's signature over the current snapshot, once an update was
    /// accepted.
    pub server_signature: Option<Vec<u8>>,
}

impl StateChannel {
    /// The digest of the snapshot an update with these fields proposes.
    pub open spec fn proposed_digest(&self, move_hash: Seq<u8>, turn: u64) -> Seq<u8> {
        sha256_of(state_enc(self.player_address@, move_hash, turn))
    }

    /// The current snapshot is finalized: both signatures are present and
    /// both verify against it under the respective party's public key.
    pub open spec fn finalized(&self, player_public_key: Seq<u8>, server_public_key: Seq<u8>) -> bool {
        &&& self.player_signature matches Some(s) && signature_valid(
            self.current_state.digest(),
            s@,
            player_public_key,
        )
        &&& self.server_signature matches Some(s) && signature_valid(
            self.current_state.digest(),
            s@,
            server_public_key,
        )
    }

    /// Open a channel: initial and current snapshot both at turn 0 with an
    /// empty move hash, no signatures.
    pub fn new(player_address: &str, server_address: &str) -> (c: StateChannel)
        ensures
            c.player_address@ == player_address@,
            c.server_address@ == server_address@,
            c.initial_state.player_address@ == player_address@,
            c.initial_state.move_hash@ == Seq::<u8>::empty(),
            c.initial_state.turn_number == 0,
            c.current_state.player_address@ == player_address@,
            c.current_state.move_hash@ == Seq::<u8>::empty(),
            c.current_state.turn_number == 0,
            c.player_signature is None,
            c.server_signature is None,
    {
        let initial_state = State {
            player_address: player_address.to_owned(),
            move_hash: Vec::new(),
            turn_number: 0,
        };
        let current_state = State {
            player_address: player_address.to_owned(),
            move_hash: Vec::new(),
            turn_number: 0,
        };
        StateChannel {
            player_address: player_address.to_owned(),
            server_address: server_address.to_owned(),
            initial_state,
            current_state,
            player_signature: None,
            server_signature: None,
        }
    }

    /// Sign the current snapshot: canonically serialize it, hash the bytes,
    /// sign the digest. Does not change the channel. Fails exactly when the
    /// secret key bytes are not a valid key; the produced signature verifies
    /// against the current snapshot under the key's public key.
    pub fn sign_state(&self, secret_key: &[u8]) -> (r: Option<Vec<u8>>)
        ensures
            r is Some <==> secret_key_ok(secret_key@),
            r matches Some(sig) ==> {
                &&& sig@ == signature_of(self.current_state.digest(), secret_key@)
                &&& signature_valid(self.current_state.digest(), sig@, public_key_of(secret_key@))
            },
    {
        let state_bytes = self.current_state.encode();
        let state_hash = sha256(state_bytes.as_slice());
        sign_digest(state_hash.as_slice(), secret_key)
    }

    /// Check a signature over a snapshot: canonically serialize the snapshot,
    /// hash the bytes, and verify the signature against the digest under the
    /// given public key. Pure.
    pub fn verify_state(&self, state: &State, signature: &[u8], public_key: &[u8]) -> (r: bool)
        ensures
            r == signature_valid(state.digest(), signature@, public_key@),
    {
        let state_bytes = state.encode();
        let state_hash = sha256(state_bytes.as_slice());
        verify_digest_signature(state_hash.as_slice(), signature, public_key)
    }

    /// Replace the current snapshot with a new one carrying `move_hash` and
    /// `turn_number`, storing both signatures. Rejected with `StaleUpdate`
    /// when the turn number does not strictly increase, and with
    /// `InvalidSignature` when either signature fails to verify against the
    /// new snapshot under the respective party's public key; a rejected
    /// update leaves the channel unchanged.
    pub fn update_state(
        &mut self,
        move_hash: Vec<u8>,
        turn_number: u64,
        player_signature: Vec<u8>,
        server_signature: Vec<u8>,
        player_public_key: &[u8],
        server_public_key: &[u8],
    ) -> (r: Result<(), GameError>)
        ensures
            r is Ok <==> (turn_number > old(self).current_state.turn_number && signature_valid(
                old(self).proposed_digest(move_hash@, turn_number),
                player_signature@,
                player_public_key@,
            ) && signature_valid(
                old(self).proposed_digest(move_hash@, turn_number),
                server_signature@,
                server_public_key@,
            )),
            r is Ok ==> {
                &&& final (self).current_state.player_address@ == old(self).player_address@
                &&& final (self).current_state.move_hash@ == move_hash@
                &&& final (self).current_state.turn_number == turn_number
                &&& final (self).player_signature matches Some(s) && s@ == player_signature@
                &&& final (self).server_signature matches Some(s) && s@ == server_signature@
                &&& final (self).initial_state == old(self).initial_state
                &&& final (self).player_address == old(self).player_address
                &&& final (self).server_address == old(self).server_address
                &&& final (self).finalized(player_public_key@, server_public_key@)
            },
            r matches Err(e) ==> {
                &&& *final (self) == *old(self)
                &&& (e == GameError::StaleUpdate <==> turn_number <= old(
                    self,
                ).current_state.turn_number)
                &&& (e == GameError::StaleUpdate || e == GameError::InvalidSignature)
            },
    {
        if turn_number <= self.current_state.turn_number {
            return Err(GameError::StaleUpdate);
        }
        let proposed = State {
            player_address: self.player_address.clone(),
            move_hash,
            turn_number,
        };
        let state_bytes = proposed.encode();
        let state_hash = sha256(state_bytes.as_slice());
        let player_ok = verify_digest_signature(
            state_hash.as_slice(),
            player_signature.as_slice(),
            player_public_key,
        );
        let server_ok = verify_digest_signature(
            state_hash.as_slice(),
            server_signature.as_slice(),
            server_public_key,
        );
        if !player_ok || !server_ok {
            return Err(GameError::InvalidSignature);
        }
        self.current_state = proposed;
        self.player_signature = Some(player_signature);
        self.server_signature = Some(server_signature);
        Ok(())
    }

    /// Serialize the current snapshot for on-chain settlement.
    pub fn serialize_state(&self) -> (r: Vec<u8>)
        ensures
            r@ == self.current_state.enc(),
    {
        self.current_state.encode()
    }

    /// Decode a canonically serialized snapshot. Fails with `DecodeError`
    /// exactly on bytes that are not the canonical encoding of any snapshot;
    /// on the encoding of a snapshot it recovers that snapshot's fields
    /// exactly.
    pub fn deserialize_state(data: &[u8]) -> (r: Result<State, GameError>)
        ensures
            r matches Ok(s) ==> data@ == s.enc(),
            forall|p: Seq<char>, m: Seq<u8>, t: u64|
                data@ == #[trigger] state_enc(p, m, t) ==> (r matches Ok(s) && s.player_address@
                    == p && s.move_hash@ == m && s.turn_number == t),
            r matches Err(e) ==> e == GameError::DecodeError,
    {
        proof {
            lemma_auto_spec_u64_to_from_le_bytes();
        }
        let r1 = read_str_at(data, 0);
        match r1 {
            None => {
                proof {
                    assert forall|p: Seq<char>, m: Seq<u8>, t: u64|
                        data@ == #[trigger] state_enc(p, m, t) implies false by {
                        lemma_state_enc_split(data@, p, m, t);
                    }
                }
                Err(GameError::DecodeError)
            },
            Some((addr, p1)) => {
                let r2 = read_bytes_at(data, p1);
                match r2 {
                    None => {
                        proof {
                            assert forall|p: Seq<char>, m: Seq<u8>, t: u64|
                                data@ == #[trigger] state_enc(p, m, t) implies false by {
                                lemma_state_enc_split(data@, p, m, t);
                            }
                        }
                        Err(GameError::DecodeError)
                    },
                    Some((mh, p2)) => {
                        let r3 = read_u64_at(data, p2);
                        match r3 {
                            None => {
                                proof {
                                    assert forall|p: Seq<char>, m: Seq<u8>, t: u64|
                                        data@ == #[trigger] state_enc(p, m, t) implies false by {
                                        lemma_state_enc_split(data@, p, m, t);
                                    }
                                }
                                Err(GameError::DecodeError)
                            },
                            Some((turn, p3)) => {
                                if p3 != data.len() {
                                    proof {
                                        assert forall|p: Seq<char>, m: Seq<u8>, t: u64|
                                            data@ == #[trigger] state_enc(p, m, t) implies false by {
                                            lemma_state_enc_split(data@, p, m, t);
                                        }
                                    }
                                    return Err(GameError::DecodeError);
                                }
                                let s = State {
                                    player_address: addr,
                                    move_hash: mh,
                                    turn_number: turn,
                                };
                                proof {
                                    assert(data@ =~= s.enc());
                                    assert forall|p: Seq<char>, m: Seq<u8>, t: u64|
                                        data@ == #[trigger] state_enc(p, m, t) implies (
                                    s.player_address@ == p && s.move_hash@ == m && s.turn_number
                                        == t) by {
                                        lemma_state_enc_split(data@, p, m, t);
                                        lemma_enc_u64_injective(turn, t);
                                    }
                                }
                                Ok(s)
                            },
                        }
                    },
                }
            },
        }
    }
}

} // verus!
