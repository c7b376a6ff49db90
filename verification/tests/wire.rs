use alglobo::codec::{push_usize_be, push_usize_le, read_usize_be, read_usize_le, usize_width};
use alglobo::communication::{
    DataMsg, ABORT, ACK, COMMIT, FINISH, PAYMENT_ERR, PAYMENT_OK, PREPARE,
};
use alglobo::alglobo_node::{RESPONDER_MILLIS, TIMEOUT_MILLIS};
use alglobo::control::{
    control_buffer_len, ids_to_msg, kill_message, parse_message, MSG_ACK, MSG_COORDINATOR,
    MSG_ELECTION, MSG_KILL,
};
use alglobo::replication::{decode_log_entry, encode_log_entry, everyone_but, log_entry_len};

#[test]
fn opcodes_are_the_letters_of_the_protocol() {
    assert_eq!(PREPARE, b'P');
    assert_eq!(COMMIT, b'C');
    assert_eq!(ABORT, b'A');
    assert_eq!(FINISH, b'F');
    assert_eq!(ACK, 1);
    assert_eq!(PAYMENT_OK, 1);
    assert_eq!(PAYMENT_ERR, 0);
    assert_eq!(MSG_ACK, b'A');
    assert_eq!(MSG_ELECTION, b'E');
    assert_eq!(MSG_COORDINATOR, b'C');
    assert_eq!(MSG_KILL, b'K');
}

#[test]
fn data_msg_is_nine_bytes_big_endian() {
    let msg = DataMsg { transaction_id: 0x0102_0304, data: 0x0a0b_0c0d, opcode: PREPARE };
    let bytes = DataMsg::to_bytes(&msg);
    assert_eq!(bytes, [0x01, 0x02, 0x03, 0x04, 0x0a, 0x0b, 0x0c, 0x0d, b'P']);
}

#[test]
fn data_msg_from_bytes_reads_big_endian() {
    let msg = DataMsg::from_bytes([0, 0, 0, 7, 0, 0, 1, 0x2c, b'C']);
    assert_eq!(msg.transaction_id, 7);
    assert_eq!(msg.data, 300);
    assert_eq!(msg.opcode, COMMIT);
}

#[test]
fn data_msg_roundtrip() {
    let samples = [
        DataMsg { transaction_id: 0, data: 0, opcode: 0 },
        DataMsg { transaction_id: 1, data: 100, opcode: PREPARE },
        DataMsg { transaction_id: u32::MAX, data: u32::MAX, opcode: 255 },
        DataMsg { transaction_id: 0x8000_0000, data: 0x00ff_ff00, opcode: ABORT },
        DataMsg { transaction_id: 65536, data: 255, opcode: FINISH },
    ];
    for msg in samples {
        assert_eq!(DataMsg::from_bytes(DataMsg::to_bytes(&msg)), msg);
    }
}

#[test]
fn data_msg_bytes_roundtrip() {
    let bytes = [0xde, 0xad, 0xbe, 0xef, 0x00, 0x01, 0x02, 0x03, 0x7f];
    assert_eq!(DataMsg::to_bytes(&DataMsg::from_bytes(bytes)), bytes);
}

#[test]
fn data_msg_matches_std_big_endian() {
    let msg = DataMsg { transaction_id: 123_456_789, data: 987_654_321, opcode: COMMIT };
    let mut expected = Vec::new();
    expected.extend(123_456_789u32.to_be_bytes());
    expected.extend(987_654_321u32.to_be_bytes());
    expected.push(COMMIT);
    assert_eq!(DataMsg::to_bytes(&msg).to_vec(), expected);
}

#[test]
fn usize_width_is_the_platform_width() {
    assert_eq!(usize_width(), std::mem::size_of::<usize>());
}

#[test]
fn usize_le_matches_std() {
    for x in [0usize, 1, 255, 256, 0x0102_0304, usize::MAX, usize::MAX - 1] {
        let mut out = vec![9u8];
        push_usize_le(&mut out, x);
        let mut expected = vec![9u8];
        expected.extend(x.to_le_bytes());
        assert_eq!(out, expected);
        assert_eq!(read_usize_le(&out, 1), x);
    }
}

#[test]
fn usize_be_matches_std() {
    for x in [0usize, 1, 255, 256, 0x0102_0304, usize::MAX, usize::MAX - 1] {
        let mut out = vec![7u8, 8u8];
        push_usize_be(&mut out, x);
        let mut expected = vec![7u8, 8u8];
        expected.extend(x.to_be_bytes());
        assert_eq!(out, expected);
        assert_eq!(read_usize_be(&out, 2), x);
    }
}

#[test]
fn control_message_layout() {
    let msg = ids_to_msg(MSG_ELECTION, &[3, 4]);
    let mut expected = vec![b'E'];
    expected.extend(2usize.to_le_bytes());
    expected.extend(3usize.to_le_bytes());
    expected.extend(4usize.to_le_bytes());
    assert_eq!(msg, expected);
}

#[test]
fn control_message_without_ids() {
    let msg = ids_to_msg(MSG_KILL, &[]);
    let mut expected = vec![b'K'];
    expected.extend(0usize.to_le_bytes());
    assert_eq!(msg, expected);
    assert_eq!(parse_message(&msg), Some((b'K', vec![])));
}

#[test]
fn kill_message_is_a_control_message() {
    let msg = kill_message();
    let mut expected = vec![b'K'];
    expected.extend(0usize.to_le_bytes());
    assert_eq!(msg, expected);
    assert_eq!(parse_message(&msg), Some((MSG_KILL, vec![])));
    assert_eq!(parse_message(&[MSG_KILL]), None);
}

#[test]
fn control_message_roundtrip() {
    let cases: Vec<(u8, Vec<usize>)> = vec![
        (MSG_ACK, vec![2]),
        (MSG_ELECTION, vec![0, 1, 2, 3, 4]),
        (MSG_COORDINATOR, vec![4, 3, 0]),
        (MSG_KILL, vec![]),
        (0, vec![usize::MAX, 0, 77]),
    ];
    for (header, ids) in cases {
        let msg = ids_to_msg(header, &ids);
        assert_eq!(parse_message(&msg), Some((header, ids)));
    }
}

#[test]
fn buffers_and_timeouts() {
    let width = std::mem::size_of::<usize>();
    assert_eq!(control_buffer_len(), 1 + width + 6 * width);
    assert_eq!(log_entry_len(), 1 + width);
    assert_eq!(TIMEOUT_MILLIS, 5000);
    assert_eq!(RESPONDER_MILLIS, 1250);
    let full = ids_to_msg(MSG_COORDINATOR, &[4, 0, 1, 2, 3, 4]);
    assert_eq!(full.len(), control_buffer_len());
}

#[test]
fn control_message_in_a_padded_buffer() {
    let msg = ids_to_msg(MSG_COORDINATOR, &[4, 1]);
    let mut buf = vec![0u8; control_buffer_len()];
    buf[..msg.len()].copy_from_slice(&msg);
    assert_eq!(parse_message(&buf), Some((b'C', vec![4, 1])));
}

#[test]
fn kill_byte_in_a_zeroed_buffer_has_no_ids() {
    let mut buf = vec![0u8; control_buffer_len()];
    buf[0] = MSG_KILL;
    assert_eq!(parse_message(&buf), Some((b'K', vec![])));
}

#[test]
fn control_message_shorter_than_its_count_word_is_rejected() {
    let width = std::mem::size_of::<usize>();
    assert_eq!(parse_message(&[]), None);
    assert_eq!(parse_message(&[MSG_ACK]), None);
    assert_eq!(parse_message(&vec![0u8; width]), None);
    assert_eq!(parse_message(&vec![0u8; 1 + width]), Some((0, vec![])));
}

#[test]
fn control_message_shorter_than_its_ids_is_rejected() {
    let msg = ids_to_msg(MSG_ELECTION, &[1, 2, 3]);
    for cut in 0..msg.len() {
        assert_eq!(parse_message(&msg[..cut]), None);
    }
    assert_eq!(parse_message(&msg), Some((b'E', vec![1, 2, 3])));
}

#[test]
fn control_message_with_a_huge_count_is_rejected() {
    let mut msg = vec![MSG_ELECTION];
    msg.extend(usize::MAX.to_le_bytes());
    msg.extend(5usize.to_le_bytes());
    assert_eq!(parse_message(&msg), None);
}

#[test]
fn log_entry_layout() {
    let bytes = encode_log_entry(PREPARE, 7);
    let mut expected = vec![b'P'];
    expected.extend(7usize.to_be_bytes());
    assert_eq!(bytes, expected);
}

#[test]
fn log_entry_roundtrip() {
    for (status, id) in [(PREPARE, 0usize), (COMMIT, 1), (ABORT, 258), (0, usize::MAX)] {
        let bytes = encode_log_entry(status, id);
        assert_eq!(decode_log_entry(&bytes), Some((status, id)));
    }
}

#[test]
fn log_entry_of_another_length_is_rejected() {
    let bytes = encode_log_entry(COMMIT, 3);
    assert_eq!(decode_log_entry(&bytes[..bytes.len() - 1]), None);
    let mut longer = bytes.clone();
    longer.push(0);
    assert_eq!(decode_log_entry(&longer), None);
    assert_eq!(decode_log_entry(&[]), None);
}

#[test]
fn everyone_but_one_replica() {
    assert_eq!(everyone_but(0), vec![1, 2, 3, 4]);
    assert_eq!(everyone_but(2), vec![0, 1, 3, 4]);
    assert_eq!(everyone_but(4), vec![0, 1, 2, 3]);
    assert_eq!(everyone_but(9), vec![0, 1, 2, 3, 4]);
}
