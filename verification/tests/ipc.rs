use ccp_aggregation_example::FakeIpc;

#[test]
fn what_is_sent_is_received() {
    let mut ipc = FakeIpc::new();
    assert!(ipc.send(None, "hello, ".as_bytes()).is_ok());
    assert!(ipc.send(Some(4), "world".as_bytes()).is_ok());
    let mut buf = [0u8; 64];
    assert!(ipc.recv(&mut buf).ok() == Some("hello, world".as_bytes()));
}

#[test]
fn a_short_buffer_gets_the_front() {
    let mut ipc = FakeIpc::new();
    assert!(ipc.send(None, &[1, 2, 3]).is_ok());
    let mut buf = [9u8; 2];
    assert!(ipc.recv(&mut buf).ok() == Some(&[1u8, 2][..]));
    assert_eq!(buf, [1, 2]);
}

#[test]
fn a_long_buffer_keeps_its_rest() {
    let mut ipc = FakeIpc::new();
    assert!(ipc.send(None, &[1, 2]).is_ok());
    let mut buf = [9u8; 4];
    assert!(ipc.recv(&mut buf).ok() == Some(&[1u8, 2][..]));
    assert_eq!(buf, [1, 2, 9, 9]);
}

#[test]
fn receiving_and_closing_forget_nothing() {
    let mut ipc = FakeIpc::new();
    assert!(ipc.send(None, &[7]).is_ok());
    let mut buf = [0u8; 1];
    assert!(ipc.recv(&mut buf).is_ok());
    assert!(ipc.close().is_ok());
    assert!(ipc.recv(&mut buf).ok() == Some(&[7u8][..]));
}

#[test]
fn nothing_sent_is_nothing_received() {
    let ipc = FakeIpc::new();
    let mut buf = [5u8; 3];
    assert!(ipc.recv(&mut buf).ok() == Some(&[][..]));
    assert_eq!(buf, [5, 5, 5]);
}

#[test]
fn later_sends_follow() {
    let mut ipc = FakeIpc::new();
    assert!(ipc.send(None, &[1, 2]).is_ok());
    let mut small = [0u8; 2];
    let mut large = [0u8; 3];
    assert!(ipc.recv(&mut large).ok() == Some(&[1u8, 2][..]));
    assert!(ipc.send(None, &[3, 4]).is_ok());
    assert!(ipc.recv(&mut small).ok() == Some(&[1u8, 2][..]));
    assert!(ipc.recv(&mut large).ok() == Some(&[1u8, 2, 3][..]));
}
