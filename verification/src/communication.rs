//! Messages exchanged between the coordinator and the agents.

use vstd::prelude::*;

verus! {

/// Transaction message for the first phase: preparing (ASCII `P`).
pub const PREPARE: u8 = 0x50;

/// Transaction message for the second phase: committing (ASCII `C`).
pub const COMMIT: u8 = 0x43;

/// Transaction message for the second phase: aborting (ASCII `A`).
pub const ABORT: u8 = 0x41;

/// Message that tells an agent to stop listening (ASCII `F`).
pub const FINISH: u8 = 0x46;

/// Reply that acknowledges an operation.
pub const ACK: u8 = 1;

/// Reply when a payment was not accepted.
pub const PAYMENT_ERR: u8 = 0;

/// Reply when a payment was accepted.
pub const PAYMENT_OK: u8 = 1;

/// The bytes of one agent message.
pub type DataMsgBytes = [u8; 9];

/// Nine byte message from the coordinator to an agent.
#[derive(Clone, Copy, Debug, PartialEq, Eq, Structural)]
pub struct DataMsg {
    /// Id of the transaction to operate on.
    pub transaction_id: u32,
    /// Amount of the payment.
    pub data: u32,
    /// Operation to perform.
    pub opcode: u8,
}

/// The value of four bytes read as a big-endian unsigned integer.
pub open spec fn be_value(b0: u8, b1: u8, b2: u8, b3: u8) -> int {
    b0 as int * 0x100_0000 + b1 as int * 0x1_0000 + b2 as int * 0x100 + b3 as int
}

/// The `i`-th of the four big-endian bytes of `x`, counted from the most
/// significant one.
pub open spec fn be_byte(x: u32, i: int) -> u8 {
    if i == 0 {
        (x as int / 0x100_0000) as u8
    } else if i == 1 {
        (x as int / 0x1_0000 % 0x100) as u8
    } else if i == 2 {
        (x as int / 0x100 % 0x100) as u8
    } else {
        (x as int % 0x100) as u8
    }
}

/// The message that nine bytes stand for.
pub open spec fn decode(b: Seq<u8>) -> DataMsg
    recommends
        b.len() == 9,
{
    DataMsg {
        transaction_id: be_value(b[0], b[1], b[2], b[3]) as u32,
        data: be_value(b[4], b[5], b[6], b[7]) as u32,
        opcode: b[8],
    }
}

/// The nine bytes that stand for a message.
pub open spec fn encode(m: DataMsg) -> Seq<u8> {
    seq![
        be_byte(m.transaction_id, 0),
        be_byte(m.transaction_id, 1),
        be_byte(m.transaction_id, 2),
        be_byte(m.transaction_id, 3),
        be_byte(m.data, 0),
        be_byte(m.data, 1),
        be_byte(m.data, 2),
        be_byte(m.data, 3),
        m.opcode,
    ]
}

fn read_be(b0: u8, b1: u8, b2: u8, b3: u8) -> (x: u32)
    ensures
        x == be_value(b0, b1, b2, b3),
{
    (b0 as u32) * 0x100_0000 + (b1 as u32) * 0x1_0000 + (b2 as u32) * 0x100 + (b3 as u32)
}

fn write_be(x: u32, i: usize) -> (b: u8)
    requires
        i < 4,
    ensures
        b == be_byte(x, i as int),
{
    if i == 0 {
        (x / 0x100_0000) as u8
    } else if i == 1 {
        (x / 0x1_0000 % 0x100) as u8
    } else if i == 2 {
        (x / 0x100 % 0x100) as u8
    } else {
        (x % 0x100) as u8
    }
}

impl DataMsg {
    /// Reads a message from its nine bytes.
    pub fn from_bytes(msg: DataMsgBytes) -> (m: DataMsg)
        ensures
            m == decode(msg@),
    {
        DataMsg {
            transaction_id: read_be(msg[0], msg[1], msg[2], msg[3]),
            data: read_be(msg[4], msg[5], msg[6], msg[7]),
            opcode: msg[8],
        }
    }

    /// Writes a message as its nine bytes.
    pub fn to_bytes(data_msg: &DataMsg) -> (bytes: DataMsgBytes)
        ensures
            bytes@ == encode(*data_msg),
    {
        let t = data_msg.transaction_id;
        let d = data_msg.data;
        let bytes = [
            write_be(t, 0),
            write_be(t, 1),
            write_be(t, 2),
            write_be(t, 3),
            write_be(d, 0),
            write_be(d, 1),
            write_be(d, 2),
            write_be(d, 3),
            data_msg.opcode,
        ];
        assert(bytes@ =~= encode(*data_msg));
        bytes
    }
}

/// Decoding what was encoded gives the message back.
pub proof fn lemma_decode_encode(m: DataMsg)
    ensures
        encode(m).len() == 9,
        decode(encode(m)) == m,
{
}

/// Four bytes are the big-endian bytes of their own big-endian value.
pub proof fn lemma_be_bytes_of_value(b0: u8, b1: u8, b2: u8, b3: u8)
    ensures
        0 <= be_value(b0, b1, b2, b3) <= u32::MAX,
        be_byte(be_value(b0, b1, b2, b3) as u32, 0) == b0,
        be_byte(be_value(b0, b1, b2, b3) as u32, 1) == b1,
        be_byte(be_value(b0, b1, b2, b3) as u32, 2) == b2,
        be_byte(be_value(b0, b1, b2, b3) as u32, 3) == b3,
{
    let low = b1 as int * 0x1_0000 + b2 as int * 0x100 + b3 as int;
    let v = b0 as int * 0x100_0000 + low;
    assert(v == be_value(b0, b1, b2, b3));
    assert(0 <= low < 0x100_0000);
    assert(v / 0x100_0000 == b0 as int);
    let mid = b2 as int * 0x100 + b3 as int;
    let hi = b0 as int * 0x100 + b1 as int;
    assert(v == hi * 0x1_0000 + mid);
    assert(v / 0x1_0000 == hi);
    assert(hi % 0x100 == b1 as int);
    let hi2 = hi * 0x100 + b2 as int;
    assert(v == hi2 * 0x100 + b3 as int);
    assert(v / 0x100 == hi2);
    assert(hi2 % 0x100 == b2 as int);
    assert(v % 0x100 == b3 as int);
}

/// Encoding what was decoded gives the bytes back.
pub proof fn lemma_encode_decode(b: Seq<u8>)
    requires
        b.len() == 9,
    ensures
        encode(decode(b)) == b,
{
    lemma_be_bytes_of_value(b[0], b[1], b[2], b[3]);
    lemma_be_bytes_of_value(b[4], b[5], b[6], b[7]);
    assert(encode(decode(b)) =~= b);
}

} // verus!
