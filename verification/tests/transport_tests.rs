use kmeans::udp_transmission::{next_port, split_message, Reassembler, MAX_MESSAGE_SIZE};

fn bytes(n: usize) -> Vec<u8> {
    (0..n).map(|i| (i % 251) as u8).collect()
}

#[test]
fn long_message_is_cut_into_full_chunks_and_a_short_last_one() {
    let msg = bytes(100_000);
    let parts = split_message(&msg);
    assert_eq!(parts.len(), 2);
    assert_eq!(parts[0].len(), MAX_MESSAGE_SIZE);
    assert_eq!(parts[1].len(), 100_000 - MAX_MESSAGE_SIZE);
    assert_eq!(parts.concat(), msg);
}

#[test]
fn empty_message_sends_nothing() {
    assert!(split_message(&[]).is_empty());
}

#[test]
fn split_then_receive_gives_the_message_back() {
    for n in [1usize, 17, MAX_MESSAGE_SIZE - 1, MAX_MESSAGE_SIZE + 1, 3 * MAX_MESSAGE_SIZE + 5] {
        let msg = bytes(n);
        let mut r = Reassembler::new();
        let parts = split_message(&msg);
        for (i, p) in parts.iter().enumerate() {
            let done = r.add_chunk(p);
            assert_eq!(done, i + 1 == parts.len());
        }
        assert_eq!(r.data, msg);
    }
}

#[test]
fn message_of_whole_chunks_leaves_receiver_waiting() {
    let msg = bytes(2 * MAX_MESSAGE_SIZE);
    let mut r = Reassembler::new();
    for p in split_message(&msg) {
        assert!(!r.add_chunk(&p));
    }
    assert_eq!(r.data.len(), 2 * MAX_MESSAGE_SIZE);
}

#[test]
fn next_port_counts_up_to_the_last_port() {
    assert_eq!(next_port(8888), Some(8889));
    assert_eq!(next_port(-1), Some(0));
    assert_eq!(next_port(i32::MAX), None);
}
