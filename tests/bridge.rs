use uart_bridge::bridge::{
    handle_esp_now_receive, stop_condition_fn, Bridge, SerialAction, FLUSH_CHUNK, MAX_DATAGRAM,
    UART_BUFFER_CAPACITY,
};
use uart_bridge::codec::encode_hex;

fn incrementing(n: usize) -> Vec<u8> {
    (0..n).map(|i| i as u8).collect()
}

#[test]
fn full_buffer_flushes_once_and_resets() {
    let mut bridge = Bridge::new(32);
    let input = incrementing(40);
    let out = bridge.step(None, &input);
    assert_eq!(out.consumed, 32);
    assert_eq!(out.broadcast, Some(encode_hex(&input[..32])));
    assert_eq!(out.to_serial, None);
    assert_eq!(bridge.pending_len(), 0);
}

#[test]
fn full_buffer_flush_through_events() {
    let mut bridge = Bridge::new(32);
    for b in 0..31u8 {
        assert!(matches!(bridge.on_serial(Some(b)), SerialAction::ReadMore));
    }
    assert_eq!(bridge.pending_len(), 31);
    match bridge.on_serial(Some(31)) {
        SerialAction::Broadcast(v) => assert_eq!(v, encode_hex(&incrementing(32))),
        _ => panic!("expected a flush"),
    }
    assert_eq!(bridge.pending_len(), 0);
}

#[test]
fn chunk_flush_in_large_buffer() {
    let mut bridge = Bridge::new(UART_BUFFER_CAPACITY);
    let input = incrementing(FLUSH_CHUNK);
    let out = bridge.step(None, &input);
    assert_eq!(out.consumed, 32);
    assert_eq!(out.broadcast, Some(encode_hex(&input)));
    assert_eq!(bridge.pending_len(), 0);
}

#[test]
fn partial_chunk_waits_then_flushes() {
    let mut bridge = Bridge::new(UART_BUFFER_CAPACITY);
    let input = incrementing(33);
    let first = bridge.step(None, &input[..31]);
    assert_eq!(first.broadcast, None);
    assert_eq!(first.consumed, 31);
    assert_eq!(bridge.pending_len(), 31);
    let second = bridge.step(None, &input[31..32]);
    assert_eq!(second.broadcast, Some(encode_hex(&input[..32])));
    assert_eq!(bridge.pending_len(), 0);
}

#[test]
fn non_multiple_of_chunk_is_kept() {
    let mut bridge = Bridge::new(UART_BUFFER_CAPACITY);
    let out = bridge.step(None, &incrementing(40));
    assert_eq!(out.broadcast, None);
    assert_eq!(out.consumed, 40);
    assert_eq!(bridge.pending_len(), 40);
    let idle = bridge.step(None, &[]);
    assert_eq!(idle.broadcast, None);
    assert_eq!(bridge.pending_len(), 40);
}

#[test]
fn dry_input_with_empty_buffer_does_nothing() {
    let mut bridge = Bridge::new(UART_BUFFER_CAPACITY);
    assert!(matches!(bridge.on_serial(None), SerialAction::Done));
    assert_eq!(bridge.pending_len(), 0);
    assert_eq!(bridge.buffer_capacity(), 1024);
}

#[test]
fn receive_path_writes_hello() {
    let mut bridge = Bridge::new(UART_BUFFER_CAPACITY);
    let out = bridge.step(Some(b"48656C6C6F"), &[]);
    assert_eq!(out.to_serial, Some(b"Hello".to_vec()));
    assert_eq!(out.broadcast, None);
    assert_eq!(out.consumed, 0);
    assert_eq!(bridge.pending_len(), 0);
}

#[test]
fn receive_path_leaves_pending_bytes_alone() {
    let mut bridge = Bridge::new(UART_BUFFER_CAPACITY);
    bridge.step(None, &[1, 2, 3]);
    let out = bridge.step(Some(b"41"), &[]);
    assert_eq!(out.to_serial, Some(vec![0x41]));
    assert_eq!(bridge.pending_len(), 3);
}

#[test]
fn receive_clamps_to_max_datagram() {
    let payload: Vec<u8> = b"41".iter().cycle().take(260).cloned().collect();
    let out = handle_esp_now_receive(&payload);
    assert_eq!(out.len(), MAX_DATAGRAM / 2);
    assert!(out.iter().all(|&b| b == 0x41));
}

#[test]
fn receive_skips_bad_pairs() {
    assert_eq!(handle_esp_now_receive(b"41ZZ42"), vec![0x41, 0x42]);
}

#[test]
fn no_loopback_between_paths() {
    let input = incrementing(32);
    let mut a = Bridge::new(UART_BUFFER_CAPACITY);
    let mut b = Bridge::new(UART_BUFFER_CAPACITY);
    let with = a.step(Some(b"FFFF"), &input);
    let without = b.step(None, &input);
    assert_eq!(with.to_serial, Some(vec![0xFF, 0xFF]));
    assert_eq!(with.broadcast, without.broadcast);
    assert_eq!(with.broadcast, Some(encode_hex(&input)));
}

#[test]
fn never_stops() {
    for _ in 0..100 {
        assert!(!stop_condition_fn());
    }
}
