//! Ledger transaction records: the canonical, factory-built records the core
//! hands to the external ledger for antes, path submission, treasure claims,
//! slashing, audits, and state-channel settlement.

use vstd::bytes::lemma_auto_spec_u64_to_from_le_bytes;
use vstd::prelude::*;
use vstd::slice::slice_to_vec;
use vstd::utf8::encode_utf8;

use crate::codec::{
    enc_bytes, enc_str, enc_u64, lemma_enc_u64_injective, read_bytes_at, read_str_at, read_u64_at,
    write_bytes, write_str, write_u64,
};
use crate::errors::GameError;
use crate::state_channel::State;

verus! {

/// The canonical encoding of a path: the number of steps, then each step's
/// coordinates as two 8-byte integers.
pub open spec fn enc_pairs(path: Seq<(usize, usize)>) -> Seq<u8>
    decreases path.len(),
{
    if path.len() == 0 {
        Seq::empty()
    } else {
        enc_u64(path[0].0 as u64) + enc_u64(path[0].1 as u64) + enc_pairs(path.skip(1))
    }
}

/// The canonical encoding of an ordered (x, y) path.
pub open spec fn enc_path(path: Seq<(usize, usize)>) -> Seq<u8> {
    enc_u64(path.len() as u64) + enc_pairs(path)
}

pub proof fn lemma_enc_pairs_len(path: Seq<(usize, usize)>)
    ensures
        enc_pairs(path).len() == 16 * path.len(),
    decreases path.len(),
{
    lemma_auto_spec_u64_to_from_le_bytes();
    if path.len() > 0 {
        lemma_enc_pairs_len(path.skip(1));
    }
}

pub proof fn lemma_enc_pairs_index(path: Seq<(usize, usize)>, i: int)
    requires
        0 <= i < path.len(),
    ensures
        enc_pairs(path).subrange(16 * i, 16 * i + 8) == enc_u64(path[i].0 as u64),
        enc_pairs(path).subrange(16 * i + 8, 16 * i + 16) == enc_u64(path[i].1 as u64),
    decreases i,
{
    lemma_auto_spec_u64_to_from_le_bytes();
    lemma_enc_pairs_len(path);
    lemma_enc_pairs_len(path.skip(1));
    if i == 0 {
        assert(enc_pairs(path).subrange(0, 8) =~= enc_u64(path[0].0 as u64));
        assert(enc_pairs(path).subrange(8, 16) =~= enc_u64(path[0].1 as u64));
    } else {
        lemma_enc_pairs_index(path.skip(1), i - 1);
        assert(enc_pairs(path).subrange(16 * i, 16 * i + 8) =~= enc_pairs(path.skip(1)).subrange(
            16 * (i - 1),
            16 * (i - 1) + 8,
        ));
        assert(enc_pairs(path).subrange(16 * i + 8, 16 * i + 16) =~= enc_pairs(
            path.skip(1),
        ).subrange(16 * (i - 1) + 8, 16 * (i - 1) + 16));
        assert(path[i] == path.skip(1)[i - 1]);
    }
}

pub proof fn lemma_enc_pairs_push(path: Seq<(usize, usize)>, p: (usize, usize))
    ensures
        enc_pairs(path.push(p)) == enc_pairs(path) + enc_u64(p.0 as u64) + enc_u64(p.1 as u64),
    decreases path.len(),
{
    lemma_auto_spec_u64_to_from_le_bytes();
    if path.len() == 0 {
        assert(path.push(p).skip(1) =~= Seq::<(usize, usize)>::empty());
        assert(path.push(p)[0] == p);
        assert(enc_pairs(Seq::<(usize, usize)>::empty()) == Seq::<u8>::empty());
        assert(enc_pairs(path) == Seq::<u8>::empty());
        assert(enc_pairs(path.push(p)) =~= enc_pairs(path) + enc_u64(p.0 as u64) + enc_u64(
            p.1 as u64,
        ));
    } else {
        lemma_enc_pairs_push(path.skip(1), p);
        assert(path.push(p).skip(1) =~= path.skip(1).push(p));
        assert(path.push(p)[0] == path[0]);
        assert(enc_pairs(path.push(p)) =~= enc_pairs(path) + enc_u64(p.0 as u64) + enc_u64(
            p.1 as u64,
        ));
    }
}

/// Two paths with the same canonical encoding are the same path.
pub proof fn lemma_enc_path_injective(a: Seq<(usize, usize)>, b: Seq<(usize, usize)>)
    requires
        enc_path(a) == enc_path(b),
        a.len() <= usize::MAX,
        b.len() <= usize::MAX,
    ensures
        a == b,
{
    lemma_auto_spec_u64_to_from_le_bytes();
    assert(enc_path(a).subrange(0, 8) =~= enc_u64(a.len() as u64));
    assert(enc_path(b).subrange(0, 8) =~= enc_u64(b.len() as u64));
    lemma_enc_u64_injective(a.len() as u64, b.len() as u64);
    assert(a.len() == b.len());
    assert forall|i: int| 0 <= i < a.len() implies a[i] == b[i] by {
        lemma_enc_pairs_index(a, i);
        lemma_enc_pairs_index(b, i);
        lemma_enc_pairs_len(a);
        lemma_enc_pairs_len(b);
        assert(enc_pairs(a) =~= enc_path(a).subrange(8, enc_path(a).len() as int));
        assert(enc_pairs(b) =~= enc_path(b).subrange(8, enc_path(b).len() as int));
        lemma_enc_u64_injective(a[i].0 as u64, b[i].0 as u64);
        lemma_enc_u64_injective(a[i].1 as u64, b[i].1 as u64);
    }
    assert(a =~= b);
}

/// Serialize an ordered path canonically.
pub fn encode_path(path: &Vec<(usize, usize)>) -> (r: Vec<u8>)
    ensures
        r@ == enc_path(path@),
{
    let mut out: Vec<u8> = Vec::new();
    write_u64(&mut out, path.len() as u64);
    let mut i: usize = 0;
    while i < path.len()
        invariant
            i <= path@.len(),
            out@ == enc_u64(path@.len() as u64) + enc_pairs(path@.subrange(0, i as int)),
        decreases path@.len() - i,
    {
        let (x, y) = path[i];
        write_u64(&mut out, x as u64);
        write_u64(&mut out, y as u64);
        proof {
            lemma_enc_pairs_push(path@.subrange(0, i as int), path@[i as int]);
            assert(path@.subrange(0, i + 1) =~= path@.subrange(0, i as int).push(path@[i as int]));
            assert(out@ =~= enc_u64(path@.len() as u64) + enc_pairs(path@.subrange(0, i + 1)));
        }
        i = i + 1;
    }
    proof {
        assert(path@.subrange(0, path@.len() as int) =~= path@);
    }
    out
}

/// Decode a canonically serialized path. Fails with `DecodeError` exactly on
/// bytes that are not the canonical encoding of any path; on the encoding of
/// a path it recovers that path exactly.
pub fn decode_path(data: &[u8]) -> (r: Result<Vec<(usize, usize)>, GameError>)
    ensures
        r matches Ok(path) ==> data@ == enc_path(path@),
        forall|p: Seq<(usize, usize)>|
            data@ == #[trigger] enc_path(p) ==> (r matches Ok(path) && path@ == p),
        r matches Err(e) ==> e == GameError::DecodeError,
{
    proof {
        lemma_auto_spec_u64_to_from_le_bytes();
    }
    let head = read_u64_at(data, 0);
    let (n, mut pos) = match head {
        Some(h) => h,
        None => {
            proof {
                assert forall|p: Seq<(usize, usize)>| data@ == #[trigger] enc_path(p) implies false by {
                    assert(data@.len() >= 8);
                }
            }
            return Err(GameError::DecodeError);
        },
    };
    let dlen = data.len();
    if n > (usize::MAX as u64) || dlen < 8 || ((dlen - 8) as u64) / 16 < n {
        proof {
            assert forall|p: Seq<(usize, usize)>| data@ == #[trigger] enc_path(p) implies false by {
                lemma_enc_pairs_len(p);
                assert(data@.subrange(0, 8) =~= enc_u64(p.len() as u64));
                lemma_enc_u64_injective(n, p.len() as u64);
            }
        }
        return Err(GameError::DecodeError);
    }
    let count = n as usize;
    let mut path: Vec<(usize, usize)> = Vec::new();
    let mut i: usize = 0;
    while i < count
        invariant
            i <= count,
            count <= (dlen - 8) / 16,
            dlen == data@.len(),
            n <= usize::MAX,
            count == n as usize,
            enc_u64(n) == data@.subrange(0, 8),
            pos == 8 + 16 * i,
            path@.len() == i,
            data@.subrange(8, pos as int) == enc_pairs(path@),
            forall|j: int| 0 <= j < i ==> (#[trigger] path@[j]).0 <= usize::MAX && path@[j].1
                <= usize::MAX,
        decreases count - i,
    {
        let rx = read_u64_at(data, pos);
        let (xv, pos2) = match rx {
            Some(v) => v,
            None => {
                proof {
                    assert forall|p: Seq<(usize, usize)>|
                        data@ == #[trigger] enc_path(p) implies false by {
                        lemma_auto_spec_u64_to_from_le_bytes();
                        lemma_enc_pairs_len(p);
                        assert(data@.subrange(0, 8) =~= enc_u64(p.len() as u64));
                        lemma_enc_u64_injective(n, p.len() as u64);
                    }
                }
                return Err(GameError::DecodeError);
            },
        };
        let ry = read_u64_at(data, pos2);
        let (yv, pos3) = match ry {
            Some(v) => v,
            None => {
                proof {
                    assert forall|p: Seq<(usize, usize)>|
                        data@ == #[trigger] enc_path(p) implies false by {
                        lemma_auto_spec_u64_to_from_le_bytes();
                        lemma_enc_pairs_len(p);
                        assert(data@.subrange(0, 8) =~= enc_u64(p.len() as u64));
                        lemma_enc_u64_injective(n, p.len() as u64);
                    }
                }
                return Err(GameError::DecodeError);
            },
        };
        if xv > (usize::MAX as u64) || yv > (usize::MAX as u64) {
            proof {
                assert forall|p: Seq<(usize, usize)>| data@ == #[trigger] enc_path(p) implies false by {
                    lemma_auto_spec_u64_to_from_le_bytes();
                    lemma_enc_pairs_len(p);
                    assert(data@.subrange(0, 8) =~= enc_u64(p.len() as u64));
                    lemma_enc_u64_injective(n, p.len() as u64);
                    lemma_enc_pairs_index(p, i as int);
                    assert(data@.subrange(8, data@.len() as int) =~= enc_pairs(p));
                    assert(data@.subrange(pos as int, pos + 8) =~= enc_pairs(p).subrange(
                        16 * i,
                        16 * i + 8,
                    ));
                    assert(data@.subrange(pos2 as int, pos2 + 8) =~= enc_pairs(p).subrange(
                        16 * i + 8,
                        16 * i + 16,
                    ));
                    lemma_enc_u64_injective(xv, p[i as int].0 as u64);
                    lemma_enc_u64_injective(yv, p[i as int].1 as u64);
                }
            }
            return Err(GameError::DecodeError);
        }
        let ghost prev = path@;
        path.push((xv as usize, yv as usize));
        proof {
            lemma_auto_spec_u64_to_from_le_bytes();
            assert(path@ =~= prev.push((xv as usize, yv as usize)));
            lemma_enc_pairs_push(prev, (xv as usize, yv as usize));
            assert((xv as usize) as u64 == xv);
            assert((yv as usize) as u64 == yv);
            assert(enc_pairs(path@) == enc_pairs(prev) + enc_u64(xv) + enc_u64(yv));
            assert(enc_u64(xv) == data@.subrange(pos as int, pos2 as int));
            assert(enc_u64(yv) == data@.subrange(pos2 as int, pos3 as int));
            assert(data@.subrange(8, pos3 as int) =~= data@.subrange(8, pos as int) + data@.subrange(
                pos as int,
                pos2 as int,
            ) + data@.subrange(pos2 as int, pos3 as int));
            assert(data@.subrange(8, pos3 as int) == enc_pairs(path@));
        }
        pos = pos3;
        i = i + 1;
    }
    if pos != dlen {
        proof {
            assert forall|p: Seq<(usize, usize)>| data@ == #[trigger] enc_path(p) implies false by {
                lemma_enc_pairs_len(p);
                assert(data@.subrange(0, 8) =~= enc_u64(p.len() as u64));
                lemma_enc_u64_injective(n, p.len() as u64);
            }
        }
        return Err(GameError::DecodeError);
    }
    proof {
        assert(data@ =~= enc_path(path@));
        assert forall|p: Seq<(usize, usize)>|
            data@ == #[trigger] enc_path(p) implies path@ == p by {
            lemma_enc_pairs_len(p);
            lemma_enc_path_injective(path@, p);
        }
    }
    Ok(path)
}

/// The canonical encoding of a whole transaction record.
pub open spec fn tx_enc(sender: Seq<char>, receiver: Seq<char>, amount: u64, data: Seq<u8>) -> Seq<
    u8,
> {
    enc_str(sender) + enc_str(receiver) + enc_u64(amount) + enc_bytes(data)
}

/// How the canonical encoding of a transaction splits into its four fields.
pub proof fn lemma_tx_enc_split(bytes: Seq<u8>, s: Seq<char>, r: Seq<char>, a: u64, d: Seq<u8>)
    requires
        bytes == tx_enc(s, r, a, d),
    ensures
        bytes.len() == 8 + encode_utf8(s).len() as int + 8 + encode_utf8(r).len() as int + 8 + 8
            + d.len() as int,
        bytes.subrange(0, 8 + encode_utf8(s).len() as int) == enc_str(s),
        bytes.subrange(
            8 + encode_utf8(s).len() as int,
            8 + encode_utf8(s).len() as int + 8 + encode_utf8(r).len() as int,
        ) == enc_str(r),
        bytes.subrange(
            8 + encode_utf8(s).len() as int + 8 + encode_utf8(r).len() as int,
            8 + encode_utf8(s).len() as int + 8 + encode_utf8(r).len() as int + 8,
        ) == enc_u64(a),
        bytes.subrange(
            8 + encode_utf8(s).len() as int + 8 + encode_utf8(r).len() as int + 8,
            bytes.len() as int,
        ) == enc_bytes(d),
{
    lemma_auto_spec_u64_to_from_le_bytes();
    assert(bytes.subrange(0, 8 + encode_utf8(s).len() as int) =~= enc_str(s));
    assert(bytes.subrange(
        8 + encode_utf8(s).len() as int,
        8 + encode_utf8(s).len() as int + 8 + encode_utf8(r).len() as int,
    ) =~= enc_str(r));
    assert(bytes.subrange(
        8 + encode_utf8(s).len() as int + 8 + encode_utf8(r).len() as int,
        8 + encode_utf8(s).len() as int + 8 + encode_utf8(r).len() as int + 8,
    ) =~= enc_u64(a));
    assert(bytes.subrange(
        8 + encode_utf8(s).len() as int + 8 + encode_utf8(r).len() as int + 8,
        bytes.len() as int,
    ) =~= enc_bytes(d));
}

/// A transaction record for the external ledger. Amounts are fixed-point with
/// one decimal place: a value of 10 stands for one whole unit... the same
/// scale the treasure clock uses.
pub struct BlockchainTransaction {
    /// The party the record debits or attributes the action to.
    pub sender: String,
    /// The contract or party the record addresses.
    pub receiver: String,
    /// Amount moved, in tenths of a unit.
    pub amount: u64,
    /// Opaque payload; its shape is fixed per factory.
    pub data: Vec<u8>,
}

impl BlockchainTransaction {
    pub fn new(sender: &str, receiver: &str, amount: u64, data: Vec<u8>) -> (t:
        BlockchainTransaction)
        ensures
            t.sender@ == sender@,
            t.receiver@ == receiver@,
            t.amount == amount,
            t.data@ == data@,
    {
        BlockchainTransaction {
            sender: sender.to_owned(),
            receiver: receiver.to_owned(),
            amount,
            data,
        }
    }

    /// Commit an ante of `amount` tenths to the treasure pool.
    pub fn commit_ante(sender: &str, amount: u64) -> (t: BlockchainTransaction)
        ensures
            t.sender@ == sender@,
            t.receiver@ == "treasure_pool"@,
            t.amount == amount,
            t.data@ == Seq::<u8>::empty(),
    {
        BlockchainTransaction::new(sender, "treasure_pool", amount, Vec::new())
    }

    /// Submit the explored path at the end of the game; the payload is the
    /// canonical encoding of the ordered (x, y) path.
    pub fn submit_path(sender: &str, path: Vec<(usize, usize)>) -> (t: BlockchainTransaction)
        ensures
            t.sender@ == sender@,
            t.receiver@ == "game_contract"@,
            t.amount == 0,
            t.data@ == enc_path(path@),
    {
        let data = encode_path(&path);
        BlockchainTransaction::new(sender, "game_contract", 0, data)
    }

    /// Claim `amount` tenths of treasure for reaching the goal in time.
    pub fn claim_treasure(sender: &str, amount: u64) -> (t: BlockchainTransaction)
        ensures
            t.sender@ == sender@,
            t.receiver@ == "treasure_pool"@,
            t.amount == amount,
            t.data@ == Seq::<u8>::empty(),
    {
        BlockchainTransaction::new(sender, "treasure_pool", amount, Vec::new())
    }

    /// Accuse `receiver` of misbehavior; the payload is the UTF-8 reason.
    pub fn slash_claim(sender: &str, receiver: &str, reason: &str) -> (t: BlockchainTransaction)
        ensures
            t.sender@ == sender@,
            t.receiver@ == receiver@,
            t.amount == 0,
            t.data@ == encode_utf8(reason@),
    {
        let data = slice_to_vec(reason.as_bytes());
        BlockchainTransaction::new(sender, receiver, 0, data)
    }

    /// Hand caller-supplied bytes to the audit contract.
    pub fn audit_transaction(sender: &str, data: Vec<u8>) -> (t: BlockchainTransaction)
        ensures
            t.sender@ == sender@,
            t.receiver@ == "audit_contract"@,
            t.amount == 0,
            t.data@ == data@,
    {
        BlockchainTransaction::new(sender, "audit_contract", 0, data)
    }

    /// Open a state channel; the payload is the canonical encoding of the
    /// initial snapshot.
    pub fn open_state_channel(sender: &str, receiver: &str, initial_state: State) -> (t:
        BlockchainTransaction)
        ensures
            t.sender@ == sender@,
            t.receiver@ == receiver@,
            t.amount == 0,
            t.data@ == initial_state.enc(),
    {
        let data = initial_state.encode();
        BlockchainTransaction::new(sender, receiver, 0, data)
    }

    /// Close a state channel and settle; the payload is the canonical
    /// encoding of the last snapshot.
    pub fn close_state_channel(sender: &str, receiver: &str, final_state: State) -> (t:
        BlockchainTransaction)
        ensures
            t.sender@ == sender@,
            t.receiver@ == receiver@,
            t.amount == 0,
            t.data@ == final_state.enc(),
    {
        let data = final_state.encode();
        BlockchainTransaction::new(sender, receiver, 0, data)
    }

    /// Commit a move on-chain in a dispute: the move hash bytes immediately
    /// followed by the proof bytes, with no delimiter.
    pub fn commit_move_on_chain(sender: &str, move_hash: Vec<u8>, zk_proof: Vec<u8>) -> (t:
        BlockchainTransaction)
        ensures
            t.sender@ == sender@,
            t.receiver@ == "game_contract"@,
            t.amount == 0,
            t.data@ == move_hash@ + zk_proof@,
    {
        let mut data = move_hash;
        let mut proof_bytes = zk_proof;
        data.append(&mut proof_bytes);
        BlockchainTransaction::new(sender, "game_contract", 0, data)
    }

    /// The canonical encoding of this record.
    pub open spec fn enc(&self) -> Seq<u8> {
        tx_enc(self.sender@, self.receiver@, self.amount, self.data@)
    }

    /// Serialize the record for sending to the ledger.
    pub fn serialize(&self) -> (r: Vec<u8>)
        ensures
            r@ == self.enc(),
    {
        let mut out: Vec<u8> = Vec::new();
        write_str(&mut out, self.sender.as_str());
        write_str(&mut out, self.receiver.as_str());
        write_u64(&mut out, self.amount);
        write_bytes(&mut out, self.data.as_slice());
        proof {
            assert(out@ =~= self.enc());
        }
        out
    }

    /// Decode a canonically serialized record. Fails with `DecodeError`
    /// exactly on bytes that are not the canonical encoding of any record; on
    /// the encoding of a record it recovers that record's fields exactly.
    pub fn deserialize(bytes: &[u8]) -> (r: Result<BlockchainTransaction, GameError>)
        ensures
            r matches Ok(t) ==> bytes@ == t.enc(),
            forall|s: Seq<char>, rc: Seq<char>, a: u64, d: Seq<u8>|
                bytes@ == #[trigger] tx_enc(s, rc, a, d) ==> (r matches Ok(t) && t.sender@ == s
                    && t.receiver@ == rc && t.amount == a && t.data@ == d),
            r matches Err(e) ==> e == GameError::DecodeError,
    {
        proof {
            lemma_auto_spec_u64_to_from_le_bytes();
        }
        let r1 = read_str_at(bytes, 0);
        let (sender, p1) = match r1 {
            Some(v) => v,
            None => {
                proof {
                    assert forall|s: Seq<char>, rc: Seq<char>, a: u64, d: Seq<u8>|
                        bytes@ == #[trigger] tx_enc(s, rc, a, d) implies false by {
                        lemma_tx_enc_split(bytes@, s, rc, a, d);
                    }
                }
                return Err(GameError::DecodeError);
            },
        };
        let r2 = read_str_at(bytes, p1);
        let (receiver, p2) = match r2 {
            Some(v) => v,
            None => {
                proof {
                    assert forall|s: Seq<char>, rc: Seq<char>, a: u64, d: Seq<u8>|
                        bytes@ == #[trigger] tx_enc(s, rc, a, d) implies false by {
                        lemma_tx_enc_split(bytes@, s, rc, a, d);
                    }
                }
                return Err(GameError::DecodeError);
            },
        };
        let r3 = read_u64_at(bytes, p2);
        let (amount, p3) = match r3 {
            Some(v) => v,
            None => {
                proof {
                    assert forall|s: Seq<char>, rc: Seq<char>, a: u64, d: Seq<u8>|
                        bytes@ == #[trigger] tx_enc(s, rc, a, d) implies false by {
                        lemma_tx_enc_split(bytes@, s, rc, a, d);
                    }
                }
                return Err(GameError::DecodeError);
            },
        };
        let r4 = read_bytes_at(bytes, p3);
        let (data, p4) = match r4 {
            Some(v) => v,
            None => {
                proof {
                    assert forall|s: Seq<char>, rc: Seq<char>, a: u64, d: Seq<u8>|
                        bytes@ == #[trigger] tx_enc(s, rc, a, d) implies false by {
                        lemma_tx_enc_split(bytes@, s, rc, a, d);
                    }
                }
                return Err(GameError::DecodeError);
            },
        };
        if p4 != bytes.len() {
            proof {
                assert forall|s: Seq<char>, rc: Seq<char>, a: u64, d: Seq<u8>|
                    bytes@ == #[trigger] tx_enc(s, rc, a, d) implies false by {
                    lemma_tx_enc_split(bytes@, s, rc, a, d);
                }
            }
            return Err(GameError::DecodeError);
        }
        let t = BlockchainTransaction { sender, receiver, amount, data };
        proof {
            assert(bytes@ =~= t.enc());
            assert forall|s: Seq<char>, rc: Seq<char>, a: u64, d: Seq<u8>|
                bytes@ == #[trigger] tx_enc(s, rc, a, d) implies (t.sender@ == s && t.receiver@
                == rc && t.amount == a && t.data@ == d) by {
                lemma_tx_enc_split(bytes@, s, rc, a, d);
                lemma_enc_u64_injective(amount, a);
            }
        }
        Ok(t)
    }
}

} // verus!
