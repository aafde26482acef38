use mpx::authkeys::FileRead;
use mpx::hostinfo::{
    ed25519_host_key_digest, host_key_files, host_key_fingerprints, local_addrs, machine_name,
    Interface,
};
use mpx::payload::IpAddr;
use mpx::util::hex;

const KEY: &str = "ssh-ed25519 AAAAC3NzaC1lZDI1NTE5AAAAILM+rvN+ot98qgEN796jTiQfZfG1KaT0PtFDJ/XFSqti user@example.com\n";
const RSA_KEY: &str =
    "ssh-rsa AAAAB3NzaC1yc2EAAAADAQABAAAAIQDBwsPExcbHyMnKy8zNzs/Q0dLT1NXW19jZ2tvc3d7f4A== root@devbox\n";

fn file(content: &str) -> FileRead {
    FileRead::Bytes(content.as_bytes().to_vec())
}

#[test]
fn fingerprints_read_generated_keys() {
    let mut rng = rand_core::OsRng;
    let key = ssh_key::PrivateKey::random(&mut rng, ssh_key::Algorithm::Ed25519).unwrap();
    let names = vec![
        "ssh_host_ed25519_key.pub".to_string(),
        "ssh_host_bogus_key.pub".to_string(),
    ];
    assert_eq!(
        host_key_files(&names),
        ["ssh_host_bogus_key.pub", "ssh_host_ed25519_key.pub"]
    );
    let fps = host_key_fingerprints(&vec![
        file("not a key"),
        file(&key.public_key().to_openssh().unwrap()),
    ]);
    assert_eq!(fps.len(), 1);
    assert!(fps[0].starts_with("ssh-ed25519 SHA256:"), "{}", fps[0]);
}

#[test]
fn machine_name_is_never_empty() {
    let name = hostname::get().ok().and_then(|name| name.into_string().ok());
    assert!(!machine_name(name.as_deref()).is_empty());
    assert!(!machine_name(None).is_empty());
    assert!(!machine_name(Some("")).is_empty());
}

#[test]
fn local_suffixes_are_dropped() {
    assert_eq!(machine_name(Some("devbox.local")), "devbox");
    assert_eq!(machine_name(Some("devbox.local.local")), "devbox");
    assert_eq!(machine_name(Some("devbox.localhost")), "devbox.localhost");
    assert_eq!(machine_name(Some(".local")), "host");
    assert_eq!(machine_name(Some("devbox")), "devbox");
}

#[test]
fn fingerprints_have_their_known_values() {
    let fps = host_key_fingerprints(&vec![
        file(RSA_KEY),
        FileRead::Missing,
        file(KEY),
        FileRead::Failed("denied".into()),
        FileRead::Bytes(vec![0xff]),
    ]);
    assert_eq!(
        fps,
        [
            "ssh-ed25519 SHA256:UCUiLr7Pjs9wFFJMDByLgc3NrtdU344OgUM45wZPcIQ",
            "ssh-rsa SHA256:LpNzPWlEqvA0eDtubpmawgW4fr4YZ8di09K68+GFnFI",
        ]
    );
    assert_eq!(
        hex(&ed25519_host_key_digest(&file(KEY)).unwrap()),
        "5025222ebecf8ecf7014524c0c1c8b81cdcdaed754df8e0e814338e7064f7084"
    );
    assert_eq!(ed25519_host_key_digest(&FileRead::Missing), None);
    assert_eq!(ed25519_host_key_digest(&file("no key")), None);
}

#[test]
fn host_key_files_are_picked_and_sorted() {
    let names: Vec<String> = [
        "sshd_config",
        "ssh_host_rsa_key.pub",
        "ssh_host_rsa_key",
        "ssh_host_ecdsa_key.pub",
        "moduli",
        "ssh_host_ed25519_key.pub",
        "xssh_host_rsa_key.pub",
        "ssh_host_key.pub",
    ]
    .iter()
    .map(|s| s.to_string())
    .collect();
    assert_eq!(
        host_key_files(&names),
        [
            "ssh_host_ecdsa_key.pub",
            "ssh_host_ed25519_key.pub",
            "ssh_host_key.pub",
            "ssh_host_rsa_key.pub",
        ]
    );
}

fn v4(a: u8, b: u8, c: u8, d: u8) -> Interface {
    Interface {
        ip: IpAddr::V4([a, b, c, d]),
        text: format!("{a}.{b}.{c}.{d}"),
    }
}

/// An address whose first two segments are given, and the last one is 1.
fn v6(first: u16, second: u16, text: &str) -> Interface {
    let mut octets = [0u8; 16];
    octets[..2].copy_from_slice(&first.to_be_bytes());
    octets[2..4].copy_from_slice(&second.to_be_bytes());
    octets[15] = 1;
    Interface {
        ip: IpAddr::V6(octets),
        text: text.into(),
    }
}

#[test]
fn private_addresses_come_first() {
    let list = vec![
        v4(127, 0, 0, 1),
        v6(0, 0, "::1"),
        v6(0x2001, 0xdb8, "2001:db8::1"),
        v4(8, 8, 8, 8),
        v4(169, 254, 1, 1),
        v6(0xfe80, 0, "fe80::1"),
        v6(0xfebf, 0, "febf::1"),
        v6(0xfec0, 0, "fec0::1"),
        v4(192, 168, 1, 24),
        v4(10, 0, 0, 1),
        v4(172, 16, 0, 1),
    ];
    assert_eq!(
        local_addrs(&list),
        [
            "192.168.1.24",
            "10.0.0.1",
            "172.16.0.1",
            "8.8.8.8",
            "2001:db8::1",
            "fec0::1",
        ]
    );
}

#[test]
fn neighbours_that_are_equal_are_listed_once_and_six_at_most() {
    let list = vec![v4(10, 0, 0, 1), v4(10, 0, 0, 1), v4(10, 0, 0, 2), v4(10, 0, 0, 1)];
    assert_eq!(local_addrs(&list), ["10.0.0.1", "10.0.0.2", "10.0.0.1"]);
    let many: Vec<Interface> = (0..9).map(|n| v4(172, 32, 0, n)).collect();
    assert_eq!(local_addrs(&many).len(), 6);
    assert_eq!(local_addrs(&vec![]), Vec::<String>::new());
}

#[test]
fn the_edges_of_the_private_ranges() {
    let public = |a, b| local_addrs(&vec![v4(8, 8, 8, 8), v4(a, b, 0, 1)]) == ["8.8.8.8".to_string(), format!("{a}.{b}.0.1")];
    let private = |a, b| local_addrs(&vec![v4(8, 8, 8, 8), v4(a, b, 0, 1)]) == [format!("{a}.{b}.0.1"), "8.8.8.8".to_string()];
    let skipped = |a, b| local_addrs(&vec![v4(8, 8, 8, 8), v4(a, b, 0, 1)]) == ["8.8.8.8"];
    for b in 0..=255u8 {
        assert!(private(10, b));
        assert!(public(9, b) && public(11, b));
        assert!(skipped(127, b));
        assert!(public(126, b) && public(128, b));
        assert_eq!(private(172, b), (16..32).contains(&b));
        assert_eq!(public(172, b), !(16..32).contains(&b));
        assert_eq!(private(192, b), b == 168);
        assert_eq!(public(192, b), b != 168);
        assert_eq!(skipped(169, b), b == 254);
        assert_eq!(public(169, b), b != 254);
    }
}
