use reconcile::socket::Socket;

#[test]
fn send_while_open_hands_the_message_back() {
    let mut socket: Socket<u32> = Socket::new();
    assert_eq!(socket.send(7, true), Some(7));
    assert_eq!(socket.buffered_len(), 0);
}

#[test]
fn send_while_closed_buffers_the_message() {
    let mut socket: Socket<u32> = Socket::new();
    assert_eq!(socket.send(7, false), None);
    assert_eq!(socket.buffered_len(), 1);
}

#[test]
fn buffer_drops_oldest_beyond_cap() {
    let mut socket: Socket<u32> = Socket::new();
    for m in 0..12u32 {
        socket.send(m, false);
    }
    assert_eq!(socket.buffered_len(), 10);
    let drained = socket.on_open();
    assert_eq!(drained, (2..12u32).collect::<Vec<u32>>());
    assert_eq!(socket.buffered_len(), 0);
}

#[test]
fn failed_transmission_buffers_too() {
    let mut socket: Socket<u32> = Socket::new();
    let msg = socket.send(9, true).unwrap();
    socket.buffer_message(msg);
    assert_eq!(socket.buffered_len(), 1);
    assert_eq!(socket.on_open(), vec![9]);
}

#[test]
fn backoff_grows_by_steps_and_caps() {
    let mut socket: Socket<u32> = Socket::new();
    assert_eq!(socket.retry_secs(), 0);
    assert_eq!(socket.on_close(), 15);
    assert_eq!(socket.on_close(), 30);
    assert_eq!(socket.on_close(), 45);
    for _ in 0..50 {
        socket.on_close();
    }
    assert_eq!(socket.retry_secs(), 600);
    assert_eq!(socket.on_close(), 600);
}

#[test]
fn backoff_resets_on_any_sign_of_life() {
    let mut socket: Socket<u32> = Socket::new();
    socket.on_close();
    socket.on_close();
    assert_eq!(socket.retry_secs(), 30);
    socket.on_message();
    assert_eq!(socket.retry_secs(), 0);
    socket.on_close();
    assert_eq!(socket.retry_secs(), 15);
    socket.on_open();
    assert_eq!(socket.retry_secs(), 0);
}
