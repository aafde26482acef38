use mpx::cbor::Value;
use mpx::frame::{
    self, frame_len, pin_proof, read_frame, session_key, write_frame, Channel, FrameError,
    MAX_FRAME,
};
use mpx::util::hex;

#[test]
fn channel_roundtrip_and_sequencing() {
    let shared = [9u8; 32];
    let epub = [1u8; 32];
    let spub = [2u8; 32];
    let mut client = Channel::derive(&shared, &epub, &spub);
    let mut server = Channel::derive(&shared, &epub, &spub);

    let hello = client.seal_c2s(b"hello");
    assert_eq!(server.open_c2s(&hello).unwrap(), b"hello");
    let offer = server.seal_s2c(b"offer");
    assert_eq!(client.open_s2c(&offer).unwrap(), b"offer");

    // Same plaintext, next sequence: the ciphertext must differ, and a
    // replayed first frame must fail against the advanced counter.
    let hello2 = client.seal_c2s(b"hello");
    assert_ne!(hello, hello2);
    assert!(server.open_c2s(&hello).is_err());
}

#[test]
fn pin_proof_binds_to_transcript() {
    let a = pin_proof("482163", &[1; 32], &[2; 32]);
    let b = pin_proof("482163", &[1; 32], &[3; 32]);
    let c = pin_proof("482164", &[1; 32], &[2; 32]);
    assert_ne!(a, b);
    assert_ne!(a, c);
    assert_eq!(a, pin_proof("482163", &[1; 32], &[2; 32]));
}

#[test]
fn frame_io_caps_length() {
    let mut buf = Vec::new();
    write_frame(&mut buf, b"abc").unwrap();
    assert_eq!(buf, [0, 0, 0, 3, b'a', b'b', b'c']);
    let mut oversized = ((MAX_FRAME + 1) as u32).to_be_bytes().to_vec();
    oversized.extend_from_slice(&[0; 8]);
    assert!(matches!(
        read_frame(&mut oversized.as_slice()),
        Err(FrameError::TooLarge(_))
    ));
}

#[test]
fn sealed_frames_and_proofs_have_their_known_values() {
    assert_eq!(
        hex(&pin_proof("482163", &[1; 32], &[2; 32])),
        "25311ea78949be760e8fe1414431e0ed6e180c36d0a687cbedee9d0f8e01d95c"
    );
    assert_eq!(
        hex(&session_key(&[0x11; 32])),
        "7b4e909bbe7ffe44c465a220037d608ee35897d31ef972f07f74892cb0f73f13"
    );
    let mut client = Channel::derive(&[9; 32], &[1; 32], &[2; 32]);
    assert_eq!(
        hex(&client.seal_c2s(b"hello")),
        "507048fb232d15ba63334a73692e3e538010b9d9b9"
    );
    assert_eq!(
        hex(&client.seal_c2s(b"hello")),
        "02bcb4310ebdf1afbbf99c00d993cad1c8d0e089c4"
    );
    let mut server = Channel::derive(&[9; 32], &[1; 32], &[2; 32]);
    assert_eq!(
        hex(&server.seal_s2c(b"offer")),
        "6b9282379b1ee844ece8e74a9c2f16ec44917268d4"
    );
}

#[test]
fn both_ends_derive_one_channel() {
    let server_secret = [0x11u8; 32];
    let client_secret = [0x22u8; 32];
    let spub = session_key(&server_secret);
    let epub = session_key(&client_secret);
    let shared = |secret: [u8; 32], public: [u8; 32]| {
        x25519_dalek::StaticSecret::from(secret)
            .diffie_hellman(&x25519_dalek::PublicKey::from(public))
            .to_bytes()
    };
    let a = shared(client_secret, spub);
    let b = shared(server_secret, epub);
    assert_eq!(
        hex(&a),
        "9e004098efc091d4ec2663b4e9f5cfd4d7064571690b4bea97ab146ab9f35056"
    );
    let mut client = Channel::derive(&a, &epub, &spub);
    let mut server = Channel::derive(&b, &epub, &spub);
    assert_eq!(server.open_c2s(&client.seal_c2s(b"x")).unwrap(), b"x");
}

#[test]
fn a_frame_that_fails_does_not_move_the_count() {
    let mut client = Channel::derive(&[9; 32], &[1; 32], &[2; 32]);
    let mut server = Channel::derive(&[9; 32], &[1; 32], &[2; 32]);
    let good = client.seal_c2s(b"hello");
    let mut bad = good.clone();
    bad[0] ^= 1;
    assert_eq!(server.open_c2s(&bad), Err(FrameError::Crypto));
    assert_eq!(server.open_c2s(b"short"), Err(FrameError::Crypto));
    assert_eq!(server.open_c2s(&good).unwrap(), b"hello");
    let offer = server.seal_s2c(b"offer");
    assert_eq!(client.open_s2c(b""), Err(FrameError::Crypto));
    assert_eq!(client.open_s2c(&offer).unwrap(), b"offer");
}

/// Frames open in the order they were sealed, whatever is refused or replied in
/// between, in either direction.
#[test]
fn a_run_of_frames_opens_in_order() {
    let mut client = Channel::derive(&[9; 32], &[1; 32], &[2; 32]);
    let mut server = Channel::derive(&[9; 32], &[1; 32], &[2; 32]);
    let messages: Vec<Vec<u8>> = (0..20u8).map(|n| vec![n; n as usize]).collect();
    let frames: Vec<Vec<u8>> = messages.iter().map(|m| client.seal_c2s(m)).collect();
    let mut replies = vec![];
    for (i, frame) in frames.iter().enumerate() {
        let mut torn = frame.clone();
        torn[0] ^= 1;
        assert!(server.open_c2s(&torn).is_err());
        replies.push(server.seal_s2c(&messages[19 - i]));
        if i > 0 {
            assert!(server.open_c2s(&frames[i - 1]).is_err());
        }
        if i < 19 {
            assert!(server.open_c2s(&frames[i + 1]).is_err());
        }
        assert_eq!(server.open_c2s(frame).unwrap(), messages[i]);
    }
    for (i, reply) in replies.iter().enumerate() {
        assert!(client.open_s2c(b"noise").is_err());
        assert_eq!(client.open_s2c(reply).unwrap(), messages[19 - i]);
    }
}

#[test]
fn frames_are_read_off_one_by_one() {
    let mut wire = Vec::new();
    write_frame(&mut wire, b"one").unwrap();
    write_frame(&mut wire, b"").unwrap();
    write_frame(&mut wire, &[7; MAX_FRAME]).unwrap();
    wire.extend_from_slice(&[0, 0, 0, 9, 1, 2]);
    let mut stream = wire.as_slice();
    assert_eq!(read_frame(&mut stream).unwrap(), b"one");
    assert_eq!(read_frame(&mut stream).unwrap(), b"");
    assert_eq!(read_frame(&mut stream).unwrap(), vec![7; MAX_FRAME]);
    let short = read_frame(&mut stream).unwrap_err();
    assert_eq!(short, FrameError::Io("failed to fill whole buffer".to_string()));
    assert!(stream.is_empty());
    assert!(matches!(read_frame(&mut stream), Err(FrameError::Io(_))));
}

#[test]
fn an_oversized_frame_takes_only_its_header() {
    let wire = [0xff, 0xff, 0xff, 0xff, 1, 2];
    let mut stream = &wire[..];
    assert_eq!(read_frame(&mut stream), Err(FrameError::TooLarge(u32::MAX as usize)));
    assert_eq!(stream, [1, 2]);
    assert_eq!(frame_len(&[0, 1, 0, 0]), Ok(MAX_FRAME));
    assert_eq!(frame_len(&[0, 1, 0, 1]), Err(FrameError::TooLarge(MAX_FRAME + 1)));
}

#[test]
fn errors_in_words() {
    assert_eq!(FrameError::Io("gone".to_string()).message(), "connection error: gone");
    assert_eq!(FrameError::TooLarge(65537).message(), "oversized frame (65537 bytes)");
    assert_eq!(FrameError::Crypto.message(), "frame failed authentication");
    assert_eq!(FrameError::Malformed.message(), "malformed frame");
}

#[test]
fn bodies_have_their_known_bytes() {
    let body = Value::Dict(vec![
        (frame::text("v"), Value::Integer(1)),
        (frame::text("epub"), Value::Bytes(vec![0xaa, 0xbb])),
        (frame::text("ok"), Value::Bool(true)),
    ]);
    let bytes = frame::encode(&body);
    assert_eq!(hex(&bytes), "a36176016465707562 42aabb 626f6b f5".replace(' ', ""));
    assert_eq!(frame::decode(&bytes).unwrap(), body);
}

#[test]
fn bodies_of_every_kind_are_read_back() {
    let body = Value::Array(vec![
        Value::Integer(0),
        Value::Integer(-1),
        Value::Integer(u64::MAX as i128),
        Value::Integer(-(1i128 << 64)),
        Value::Null,
        Value::Bool(false),
        Value::Float(1.5f64.to_bits()),
        Value::Float(0.1f64.to_bits()),
        Value::Tag(99, Box::new(frame::text("tagged"))),
        Value::Dict(vec![(Value::Integer(1), Value::Array(vec![]))]),
        Value::Text("π".repeat(5000)),
        Value::Bytes(vec![1; 70000]),
    ]);
    assert_eq!(frame::decode(&frame::encode(&body)).unwrap(), body);
}

#[test]
fn what_is_no_body_is_malformed() {
    assert_eq!(frame::decode(&[]), Err(FrameError::Malformed));
    assert_eq!(frame::decode(&[0xa1, 0x61]), Err(FrameError::Malformed));
    assert_eq!(frame::decode(&[0xff]), Err(FrameError::Malformed));
    // What follows a whole item is not looked at.
    assert_eq!(frame::decode(&[0x01, 0xff]), Ok(Value::Integer(1)));
}

#[test]
fn lookups_take_the_first_entry_of_the_right_kind() {
    let body = Value::Dict(vec![
        (Value::Integer(7), frame::text("seven")),
        (frame::text("a"), frame::text("first")),
        (frame::text("a"), frame::text("second")),
        (frame::text("b"), Value::Bytes(vec![1])),
    ]);
    assert_eq!(frame::map_get(&body, "a"), Some(&frame::text("first")));
    assert_eq!(frame::map_get(&body, "c"), None);
    assert_eq!(frame::get_text(&body, "a").unwrap(), "first");
    assert_eq!(frame::get_text(&body, "b"), None);
    assert_eq!(frame::get_bytes(&body, "b").unwrap(), [1]);
    assert_eq!(frame::get_bytes(&body, "a"), None);
    assert_eq!(frame::map_get(&Value::Null, "a"), None);
}
