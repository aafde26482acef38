use mpx::payload::{IpAddr, Payload};
use mpx::qr::{render, width};

#[test]
fn renders_a_plausible_block() {
    let art = render("multiplex://b/abc").unwrap();
    assert!(art.lines().count() > 10);
    assert!(art.contains('█'));
}

/// A real handshake payload has to draw inside a plain 80x24 terminal.
#[test]
fn a_handshake_payload_fits_a_plain_terminal() {
    let url = Payload {
        addrs: vec![IpAddr::V4([192, 168, 1, 24])],
        port: 41337,
        spub: [3; 32],
        token: [7; 16],
        name: "devbox".into(),
        offline: None,
    }
    .to_url();
    let art = render(&url).unwrap();
    assert!(width(&art) <= 80, "QR was {} columns wide", width(&art));
    assert!(
        art.lines().count() <= 24,
        "QR was {} rows tall",
        art.lines().count()
    );
    assert_eq!(width(&art), 45);
}

#[test]
fn a_text_too_long_for_a_code_is_not_drawn() {
    assert_eq!(render(&"x".repeat(3000)), None);
}

#[test]
fn a_block_is_as_wide_as_its_widest_line() {
    assert_eq!(width(""), 0);
    assert_eq!(width("ab\nabcd\r\nabc"), 4);
    assert_eq!(width("█▀▄\n█"), 3);
}
