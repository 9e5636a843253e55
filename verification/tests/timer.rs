use std::time::Duration;

use btp::handshake::HandshakeTimer;

#[test]
fn positive_finish_before_timeout() {
    let timer = HandshakeTimer::new(Duration::from_millis(50));
    assert_eq!(timer.duration(), Duration::from_millis(50));
}
