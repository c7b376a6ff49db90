//! Log entries that the leader sends to the other replicas: the phase of a
//! transaction, one byte, and the transaction's id, a platform-width integer
//! with its most significant byte first.

use vstd::prelude::*;
use crate::alglobo_node::N_NODES;
use crate::codec::{
    be_bytes, be_value, lemma_be_value_of_bytes, lemma_le_value_bound, lemma_word_width,
    push_usize_be, read_usize_be, usize_width, word_width,
};

verus! {

/// The bytes of a log entry.
pub open spec fn encode_log(status: u8, id: usize) -> Seq<u8> {
    seq![status] + be_bytes(id as nat, word_width())
}

/// What a buffer holds as a log entry: nothing unless it has exactly the
/// length of one.
pub open spec fn decode_log(buf: Seq<u8>) -> Option<(u8, usize)> {
    if buf.len() == 1 + word_width() {
        Some((buf[0], be_value(buf.subrange(1, 1 + word_width() as int)) as usize))
    } else {
        None
    }
}

/// The length of a log entry.
pub fn log_entry_len() -> (len: usize)
    ensures
        len == 1 + word_width(),
{
    1 + usize_width()
}

/// Writes a log entry.
pub fn encode_log_entry(status: u8, id: usize) -> (bytes: Vec<u8>)
    ensures
        bytes@ == encode_log(status, id),
{
    let mut bytes: Vec<u8> = Vec::new();
    bytes.push(status);
    push_usize_be(&mut bytes, id);
    bytes
}

/// Reads a log entry.
pub fn decode_log_entry(buf: &[u8]) -> (entry: Option<(u8, usize)>)
    ensures
        entry == decode_log(buf@),
{
    let width: usize = usize_width();
    if buf.len() != 1 + width {
        return None;
    }
    let id: usize = read_usize_be(buf, 1);
    Some((buf[0], id))
}

/// Reading a log entry that was written gives it back.
pub proof fn lemma_decode_encode_log(status: u8, id: usize)
    ensures
        decode_log(encode_log(status, id)) == Some((status, id)),
{
    lemma_word_width();
    lemma_be_value_of_bytes(id as nat, word_width());
    let bytes = encode_log(status, id);
    assert(bytes.subrange(1, 1 + word_width() as int) =~= be_bytes(id as nat, word_width()));
}

/// `targets` are the replicas of the ring but `skip`, each once, in
/// ascending order.
pub open spec fn is_everyone_but(targets: Seq<usize>, skip: usize) -> bool {
    &&& forall|j: int| 0 <= j < targets.len() ==> targets[j] < N_NODES && targets[j] != skip
    &&& forall|i: int, j: int| 0 <= i < j < targets.len() ==> targets[i] < targets[j]
    &&& forall|id: usize| id < N_NODES && id != skip ==> targets.contains(id)
}

/// The replicas of the ring but `skip`, in ascending order.
pub fn everyone_but(skip: usize) -> (targets: Vec<usize>)
    ensures
        is_everyone_but(targets@, skip),
{
    let mut targets: Vec<usize> = Vec::new();
    let mut id: usize = 0;
    while id < N_NODES
        invariant
            id <= N_NODES,
            forall|j: int| 0 <= j < targets@.len() ==> targets@[j] < id && targets@[j] != skip,
            forall|i: int, j: int| 0 <= i < j < targets@.len() ==> targets@[i] < targets@[j],
            forall|other: usize| other < id && other != skip ==> targets@.contains(other),
        decreases N_NODES - id,
    {
        if id != skip {
            let ghost before = targets@;
            targets.push(id);
            proof {
                assert(targets@[before.len() as int] == id);
                assert forall|other: usize| other < id + 1 && other != skip implies targets@.contains(
                    other,
                ) by {
                    if other < id {
                        assert(before.contains(other));
                        let at = choose|j: int| 0 <= j < before.len() && before[j] == other;
                        assert(targets@[at] == other);
                    }
                }
            }
        }
        id = id + 1;
    }
    targets
}

} // verus!
