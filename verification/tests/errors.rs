use simple_channels::mpsc::{RecvError, SendError, TryRecvError};

#[test]
fn send_error_gives_the_value_back() {
    let err = SendError(17u32);
    assert_eq!(err.0, 17);
    let err = SendError(String::from("kept"));
    assert_eq!(err.0, "kept");
}

#[test]
fn send_error_message() {
    assert_eq!(SendError(5u8).message(), "sending on a disconnected channel");
}

#[test]
fn recv_error_message() {
    assert_eq!(
        RecvError::Disconnected.message(),
        "receiving on an empty and disconnected channel"
    );
}

#[test]
fn try_recv_error_messages() {
    assert_eq!(TryRecvError::Empty.message(), "receiving on an empty channel");
    assert_eq!(
        TryRecvError::Disconnected.message(),
        "receiving on an empty and disconnected channel"
    );
}

#[test]
fn errors_compare_and_copy() {
    assert_eq!(SendError(1), SendError(1));
    assert_ne!(SendError(1), SendError(2));
    assert_eq!(RecvError::Disconnected, RecvError::Disconnected);
    assert_ne!(TryRecvError::Empty, TryRecvError::Disconnected);
    let a = TryRecvError::Empty;
    let b = a;
    assert_eq!(a, b);
    let c = SendError(9u64);
    let d = c;
    assert_eq!(c, d);
}
