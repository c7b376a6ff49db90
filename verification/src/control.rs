//! Control messages between replicas: a type byte, a count, and that many
//! node ids, each a platform-width integer with its least significant byte
//! first.

use vstd::prelude::*;
use crate::alglobo_node::N_NODES;
use crate::codec::{
    le_bytes, le_value, lemma_le_bytes_len, lemma_le_value_of_bytes, lemma_word_width,
    push_usize_le, read_usize_le, usize_width, word_width,
};

verus! {

/// Control message that acknowledges another (ASCII `A`).
pub const MSG_ACK: u8 = 0x41;

/// Control message of an election round (ASCII `E`).
pub const MSG_ELECTION: u8 = 0x45;

/// Control message that announces the coordinator (ASCII `C`).
pub const MSG_COORDINATOR: u8 = 0x43;

/// Control message that stops a replica (ASCII `K`).
pub const MSG_KILL: u8 = 0x4b;

/// Where the `k`-th word after the type byte starts.
pub open spec fn word_start(k: int) -> int {
    1 + k * word_width()
}

/// The `k`-th word after the type byte: the count is word 0, the ids follow.
pub open spec fn word_at(buf: Seq<u8>, k: int) -> nat {
    le_value(buf.subrange(word_start(k), word_start(k + 1)))
}

/// The ids as bytes, one word after the other.
pub open spec fn le_words(ids: Seq<usize>) -> Seq<u8>
    decreases ids.len(),
{
    if ids.len() == 0 {
        Seq::empty()
    } else {
        le_words(ids.drop_last()) + le_bytes(ids.last() as nat, word_width())
    }
}

/// The bytes of a control message.
pub open spec fn encode_control(header: u8, ids: Seq<usize>) -> Seq<u8> {
    seq![header] + le_bytes(ids.len(), word_width()) + le_words(ids)
}

/// What a buffer holds as a control message: nothing where it is shorter
/// than the count word or than the ids that the count announces; bytes after
/// the last id are not read.
pub open spec fn decode_control(buf: Seq<u8>) -> Option<(u8, Seq<usize>)> {
    if buf.len() < word_start(1) {
        None
    } else if buf.len() < word_start(word_at(buf, 0) as int + 1) {
        None
    } else {
        Some((buf[0], Seq::new(word_at(buf, 0), |k: int| word_at(buf, k + 1) as usize)))
    }
}

/// Words follow each other without a gap.
pub proof fn lemma_word_start_step(k: int)
    ensures
        word_start(k + 1) == word_start(k) + word_width(),
        k >= 0 ==> word_start(k) >= 1,
{
    let w = word_width() as int;
    assert((k + 1) * w == k * w + w) by (nonlinear_arith);
    if k >= 0 {
        assert(k * w >= 0) by (nonlinear_arith)
            requires
                k >= 0,
                w >= 0,
        ;
    }
}

/// Word starts grow with the index.
pub proof fn lemma_word_start_grows(a: int, b: int)
    requires
        a <= b,
    ensures
        word_start(a) <= word_start(b),
{
    let w = word_width() as int;
    assert(a * w <= b * w) by (nonlinear_arith)
        requires
            a <= b,
            w >= 0,
    ;
}

/// The length of the buffer that a replica receives control messages in:
/// room for the type byte, the count, and one id more than there are
/// replicas.
pub fn control_buffer_len() -> (len: usize)
    ensures
        len == word_start(N_NODES + 2),
{
    let width: usize = usize_width();
    proof {
        assert((N_NODES + 2) * width == 7 * width) by (nonlinear_arith)
            requires
                N_NODES == 5,
        ;
    }
    1 + width + (N_NODES + 1) * width
}

/// Reads a control message from a buffer: the type byte and the ids.
pub fn parse_message(buf: &[u8]) -> (r: Option<(u8, Vec<usize>)>)
    ensures
        r is Some <==> decode_control(buf@) is Some,
        r matches Some((header, ids)) ==> decode_control(buf@) == Some((header, ids@)),
{
    let width: usize = usize_width();
    let len: usize = buf.len();
    proof {
        lemma_word_start_step(0);
        lemma_word_start_step(1);
    }
    if len < 1 + width {
        return None;
    }
    let count: usize = read_usize_le(buf, 1);
    if count > (len - 1 - width) / width {
        proof {
            let avail = (len - 1 - width) as int;
            let w = width as int;
            assert(count as int * w > avail) by (nonlinear_arith)
                requires
                    count as int > avail / w,
                    w > 0,
                    avail >= 0,
            ;
            assert(word_start(count + 1) == 1 + (count + 1) * w);
            assert((count + 1) * w == count * w + w) by (nonlinear_arith);
        }
        return None;
    }
    proof {
        let avail = (len - 1 - width) as int;
        let w = width as int;
        assert(count as int * w <= avail) by (nonlinear_arith)
            requires
                count as int <= avail / w,
                w > 0,
                avail >= 0,
        ;
        assert((count + 1) * w == count * w + w) by (nonlinear_arith);
    }
    let mut ids: Vec<usize> = Vec::new();
    let mut pos: usize = 1 + width;
    let mut k: usize = 0;
    while k < count
        invariant
            k <= count,
            width == word_width(),
            len == buf@.len(),
            pos == word_start(k + 1),
            word_start(count + 1) <= len,
            ids@.len() == k,
            forall|j: int| 0 <= j < k ==> ids@[j] == word_at(buf@, j + 1) as usize,
        decreases count - k,
    {
        proof {
            lemma_word_start_step(k + 1);
            lemma_word_start_grows(k + 2, count + 1);
        }
        let id: usize = read_usize_le(buf, pos);
        ids.push(id);
        pos = pos + width;
        k = k + 1;
    }
    proof {
        assert(ids@ =~= Seq::new(word_at(buf@, 0), |j: int| word_at(buf@, j + 1) as usize));
    }
    Some((buf[0], ids))
}

/// Writes a control message: the type byte, the count, the ids.
pub fn ids_to_msg(header: u8, ids: &[usize]) -> (msg: Vec<u8>)
    ensures
        msg@ == encode_control(header, ids@),
{
    let mut msg: Vec<u8> = Vec::new();
    msg.push(header);
    push_usize_le(&mut msg, ids.len());
    let ghost head = msg@;
    let mut k: usize = 0;
    proof {
        assert(ids@.take(0) =~= Seq::<usize>::empty());
        assert(head + le_words(ids@.take(0)) =~= head);
    }
    while k < ids.len()
        invariant
            k <= ids@.len(),
            head == seq![header] + le_bytes(ids@.len(), word_width()),
            msg@ == head + le_words(ids@.take(k as int)),
        decreases ids@.len() - k,
    {
        let ghost before = msg@;
        push_usize_le(&mut msg, ids[k]);
        proof {
            let next = ids@.take(k + 1);
            assert(next.drop_last() =~= ids@.take(k as int));
            assert(next.last() == ids@[k as int]);
            assert(msg@ =~= head + le_words(next));
        }
        k = k + 1;
    }
    proof {
        assert(ids@.take(ids@.len() as int) =~= ids@);
    }
    msg
}

/// The message that stops a replica: a control message of type `KILL`
/// without ids.
pub fn kill_message() -> (msg: Vec<u8>)
    ensures
        msg@ == encode_control(MSG_KILL, Seq::<usize>::empty()),
{
    let none: Vec<usize> = Vec::new();
    ids_to_msg(MSG_KILL, none.as_slice())
}

/// The ids as bytes take one word each.
pub proof fn lemma_le_words_len(ids: Seq<usize>)
    ensures
        le_words(ids).len() == ids.len() * word_width(),
    decreases ids.len(),
{
    let w = word_width() as int;
    if ids.len() > 0 {
        lemma_le_words_len(ids.drop_last());
        lemma_le_bytes_len(ids.last() as nat, word_width());
        assert((ids.len() - 1) * w + w == ids.len() * w) by (nonlinear_arith);
    } else {
        assert(0 * w == 0);
    }
}

/// The `k`-th word of the ids as bytes is the `k`-th id.
pub proof fn lemma_le_words_word(ids: Seq<usize>, k: int)
    requires
        0 <= k < ids.len(),
    ensures
        (k + 1) * word_width() <= le_words(ids).len(),
        le_words(ids).subrange(k * word_width(), (k + 1) * word_width()) == le_bytes(
            ids[k] as nat,
            word_width(),
        ),
    decreases ids.len(),
{
    let w = word_width() as int;
    let front = ids.drop_last();
    let last = le_bytes(ids.last() as nat, word_width());
    lemma_le_words_len(ids);
    lemma_le_words_len(front);
    lemma_le_bytes_len(ids.last() as nat, word_width());
    assert((k + 1) * w == k * w + w) by (nonlinear_arith);
    assert((k + 1) * w <= ids.len() * w) by (nonlinear_arith)
        requires
            k + 1 <= ids.len(),
            w >= 0,
    ;
    assert(k * w >= 0) by (nonlinear_arith)
        requires
            k >= 0,
            w >= 0,
    ;
    if k == ids.len() - 1 {
        assert(le_words(ids).subrange(k * w, (k + 1) * w) =~= last);
    } else {
        lemma_le_words_word(front, k);
        assert(front[k] == ids[k]);
        assert(le_words(ids).subrange(k * w, (k + 1) * w) =~= le_words(front).subrange(
            k * w,
            (k + 1) * w,
        ));
    }
}

/// A buffer that starts with the bytes of a control message, whatever
/// follows them, is read as that message.
pub proof fn lemma_decode_encode_control(header: u8, ids: Seq<usize>, padding: Seq<u8>)
    requires
        ids.len() <= usize::MAX,
    ensures
        decode_control(encode_control(header, ids) + padding) == Some((header, ids)),
{
    let w = word_width() as int;
    let n = ids.len() as int;
    let count = le_bytes(ids.len(), word_width());
    let buf = encode_control(header, ids) + padding;
    lemma_word_width();
    lemma_le_bytes_len(ids.len(), word_width());
    lemma_le_words_len(ids);
    lemma_le_value_of_bytes(ids.len(), word_width());
    lemma_word_start_step(0);
    lemma_word_start_step(n);
    assert(word_start(0) == 1);
    assert(word_start(n + 1) == 1 + w + n * w) by {
        assert((n + 1) * w == n * w + w) by (nonlinear_arith);
    }
    assert(buf.subrange(word_start(0), word_start(1)) =~= count);
    assert(word_at(buf, 0) == n);
    let got = Seq::new(word_at(buf, 0), |k: int| word_at(buf, k + 1) as usize);
    assert forall|k: int| 0 <= k < n implies got[k] == ids[k] by {
        lemma_le_words_word(ids, k);
        lemma_word_start_step(k + 1);
        lemma_word_start_step(k);
        assert(word_start(k + 1) == 1 + w + k * w) by {
            assert((k + 1) * w == k * w + w) by (nonlinear_arith);
        }
        assert(buf.subrange(word_start(k + 1), word_start(k + 2)) =~= le_words(ids).subrange(
            k * w,
            (k + 1) * w,
        ));
        lemma_le_value_of_bytes(ids[k] as nat, word_width());
    }
    assert(got =~= ids);
}

} // verus!
