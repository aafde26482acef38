use mpx::payload::{IpAddr, OfflineKey, Payload, MAX_ADDRS, MAX_NAME};

fn sample(offline: Option<OfflineKey>) -> Payload {
    Payload {
        addrs: vec![
            IpAddr::V4([192, 168, 1, 24]),
            IpAddr::V6([
                0xfd, 0xa1, 0x5a, 0x14, 0x3d, 0xf6, 0x49, 0xc1, 0, 0, 0, 0, 0, 0, 0, 1,
            ]),
        ],
        port: 41337,
        spub: [3; 32],
        token: [7; 16],
        name: "devbox".into(),
        offline,
    }
}

#[test]
fn url_roundtrip() {
    let handshake = sample(None);
    assert_eq!(Payload::from_url(&handshake.to_url()).unwrap(), handshake);

    let offline = sample(Some(OfflineKey {
        ssh_user: "jhen".into(),
        ssh_port: 22,
        seed: [9; 32],
        authorized_keys: Some("/etc/ssh/keys/ak".into()),
        hostkey_sha256: Some([4; 32]),
    }));
    assert_eq!(Payload::from_url(&offline.to_url()).unwrap(), offline);
}

/// The whole point of the format: a handshake payload has to fit a QR code that
/// a terminal can draw.
#[test]
fn handshake_payload_stays_small() {
    let mut payload = sample(None);
    payload.addrs = vec![IpAddr::V4([192, 168, 1, 24])];
    assert_eq!(payload.encode().len(), 65);
    assert!(
        payload.to_url().len() <= 106,
        "url was {} chars, a QR version 5 at EC level L holds 106",
        payload.to_url().len()
    );
}

#[test]
fn rejects_other_versions_and_truncation() {
    let good = sample(None).encode();
    assert!(Payload::decode(&good).is_some());

    let mut wrong_version = good.clone();
    wrong_version[0] = 1;
    assert!(Payload::decode(&wrong_version).is_none());

    for cut in 1..good.len() {
        assert!(
            Payload::decode(&good[..cut]).is_none(),
            "a payload truncated to {cut} bytes must not decode"
        );
    }
    assert!(Payload::from_url("multiplex://b/!!!").is_none());
    assert!(Payload::from_url("https://example.com").is_none());
    assert!(Payload::from_url("multiplex://open?host=devbox").is_none());
}

#[test]
fn caps_addresses_and_name() {
    let mut payload = sample(None);
    payload.addrs = vec![
        IpAddr::V4([10, 0, 0, 1]),
        IpAddr::V4([10, 0, 0, 2]),
        IpAddr::V4([10, 0, 0, 3]),
        IpAddr::V4([10, 0, 0, 4]),
    ];
    payload.name = "a".repeat(80);
    let decoded = Payload::decode(&payload.encode()).unwrap();
    assert_eq!(decoded.addrs.len(), MAX_ADDRS);
    assert_eq!(decoded.name.len(), MAX_NAME);
}

/// A multi-byte name must never be cut mid-character.
#[test]
fn truncates_names_on_character_boundaries() {
    let payload = Payload {
        name: "π".repeat(30),
        ..sample(None)
    };
    let decoded = Payload::decode(&payload.encode()).unwrap();
    assert!(decoded.name.chars().all(|c| c == 'π'));
    assert!(decoded.name.len() <= MAX_NAME);
}

#[test]
fn the_bytes_of_a_payload() {
    let mut payload = sample(None);
    payload.addrs = vec![IpAddr::V4([192, 168, 1, 24])];
    let mut expected = vec![2, 0];
    expected.extend_from_slice(&[3; 32]);
    expected.extend_from_slice(&[7; 16]);
    expected.extend_from_slice(&[0xa1, 0x79, 1, 4, 192, 168, 1, 24, 6]);
    expected.extend_from_slice(b"devbox");
    assert_eq!(payload.encode(), expected);
    assert_eq!(
        payload.to_url(),
        "multiplex://b/AgADAwMDAwMDAwMDAwMDAwMDAwMDAwMDAwMDAwMDAwMDAwcHBwcHBwcHBwcHBwcHBweheQEEwKgBGAZkZXZib3g"
    );
}

#[test]
fn the_bytes_of_an_offline_tail() {
    let key = OfflineKey {
        ssh_user: "jhen".into(),
        ssh_port: 2222,
        seed: [0x55; 32],
        authorized_keys: None,
        hostkey_sha256: None,
    };
    let head = sample(None).encode();
    let whole = sample(Some(key)).encode();
    assert_eq!(whole[1], 1);
    let mut tail = vec![4];
    tail.extend_from_slice(b"jhen");
    tail.extend_from_slice(&[0x08, 0xae]);
    tail.extend_from_slice(&[0x55; 32]);
    tail.extend_from_slice(&[0, 0]);
    assert_eq!(whole[head.len()..], tail);
    for cut in 1..whole.len() {
        assert!(Payload::decode(&whole[..cut]).is_none());
    }
}

#[test]
fn what_follows_a_payload_is_not_looked_at() {
    let mut bytes = sample(None).encode();
    bytes.extend_from_slice(b"more");
    assert_eq!(Payload::decode(&bytes).unwrap(), sample(None));
    // Nor is a flag that means nothing.
    bytes[1] = 0xfe;
    assert_eq!(Payload::decode(&bytes).unwrap(), sample(None));
}

#[test]
fn rejects_fields_that_the_format_does_not_have() {
    let good = sample(None).encode();
    let count_at = 2 + 32 + 16 + 2;
    let mut too_many = good.clone();
    too_many[count_at] = 4;
    assert!(Payload::decode(&too_many).is_none());
    let mut no_family = good.clone();
    no_family[count_at + 1] = 5;
    assert!(Payload::decode(&no_family).is_none());
    let mut no_text = good.clone();
    let last = no_text.len() - 1;
    no_text[last] = 0xff;
    assert!(Payload::decode(&no_text).is_none());

    let mut key = sample(Some(OfflineKey {
        ssh_user: "u".into(),
        ssh_port: 1,
        seed: [0; 32],
        authorized_keys: None,
        hostkey_sha256: None,
    }))
    .encode();
    let last = key.len() - 1;
    key[last] = 31;
    key.extend_from_slice(&[0; 40]);
    assert!(Payload::decode(&key).is_none());
}

#[test]
fn long_texts_are_cut_to_what_a_byte_counts() {
    let key = |user: String, path: Option<String>| {
        sample(Some(OfflineKey {
            ssh_user: user,
            ssh_port: 22,
            seed: [1; 32],
            authorized_keys: path,
            hostkey_sha256: None,
        }))
    };
    let long = key("u".repeat(300), Some("p".repeat(256)));
    let back = Payload::decode(&long.encode()).unwrap().offline.unwrap();
    assert_eq!(back.ssh_user, "u".repeat(255));
    assert_eq!(back.authorized_keys, Some("p".repeat(255)));
    // An empty path reads as none.
    let empty = key("u".into(), Some(String::new()));
    let back = Payload::decode(&empty.encode()).unwrap().offline.unwrap();
    assert_eq!(back.authorized_keys, None);
    // Cut inside a character, the payload does not read.
    let torn = key("π".repeat(128), None);
    assert!(Payload::decode(&torn.encode()).is_none());
}

#[test]
fn a_url_must_be_canonical() {
    let url = sample(None).to_url();
    assert!(Payload::from_url(&format!("{url}=")).is_none());
    assert!(Payload::from_url(&url.replace("multiplex", "Multiplex")).is_none());
    assert!(Payload::from_url("").is_none());
    assert!(Payload::from_url("multiplex://b/").is_none());
}
