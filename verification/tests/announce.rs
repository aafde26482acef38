use mpx::announce::{AnnounceConfig, SERVICE_TYPE};

#[test]
fn records_carry_the_public_facts() {
    let mut config = AnnounceConfig {
        instance: "devbox".into(),
        port: 41337,
        spub: [3; 32],
        ssh_user: "jhen".into(),
        ssh_port: 2222,
        first_fingerprint: Some("ssh-ed25519 SHA256:x".into()),
    };
    let records = |config: &AnnounceConfig| {
        config
            .records()
            .iter()
            .map(|(k, v)| format!("{k}={v}"))
            .collect::<Vec<_>>()
    };
    assert_eq!(
        records(&config),
        [
            "v=1",
            "name=devbox",
            "spub=AwMDAwMDAwMDAwMDAwMDAwMDAwMDAwMDAwMDAwMDAwM",
            "user=jhen",
            "sshport=2222",
            "fp=ssh-ed25519 SHA256:x",
        ]
    );
    config.first_fingerprint = None;
    assert_eq!(records(&config).len(), 5);
    assert_eq!(config.host(), "devbox.local.");
    assert_eq!(SERVICE_TYPE, "_multiplex-bind._tcp.local.");
}
