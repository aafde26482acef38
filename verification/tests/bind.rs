use mpx::authkeys::FileRead;
use mpx::bind::{
    accepts, announce_line, bind_panel, bind_request, confirms_itself, generate_install,
    handshake_payload, header, hooks_in_effect, host_key_line, id8, install_of, lifetime,
    listen_failure, marker_id, marker_id8, offer_deadline, offered_addrs, offline_enroll,
    offline_installed, offline_line, offline_panel, offline_payload, offline_saved,
    offline_unwritten, offline_warning, pin_from, progress, publish_drawn, publish_payload,
    random_id8, report, session_pin, session_secret, session_token, shown_name, side_by_side,
    spaced_digits, ssh_user, test_env_bytes, test_hook_warnings, unbind, unbind_remove,
    unbind_unwritten, waiting, warn_about_test_hooks, Line, OfflineStep, OfflineTerms, TestHooks,
};
use mpx::clip::CopyOutcome;
use mpx::hostinfo::Interface;
use mpx::payload::{IpAddr, OfflineKey, Payload};
use mpx::qr::render;
use mpx::server::{BindOutcome, ServerEvent};

fn strings(list: &[&str]) -> Vec<String> {
    list.iter().map(|s| s.to_string()).collect()
}

fn printed(lines: &[Line]) -> Vec<String> {
    lines.iter().map(|line| line.printed(false)).collect()
}

fn file(content: &str) -> FileRead {
    FileRead::Bytes(content.as_bytes().to_vec())
}

#[test]
fn lifetimes_are_kept_within_ten_seconds_and_ten_minutes() {
    assert_eq!(lifetime(0), 10);
    assert_eq!(lifetime(10), 10);
    assert_eq!(lifetime(60), 60);
    assert_eq!(lifetime(600), 600);
    assert_eq!(lifetime(u64::MAX), 600);
    assert_eq!(offer_deadline(5, 60), 60_000_000_005);
}

#[test]
fn pins_have_six_digits() {
    assert_eq!(pin_from(&[0, 0, 0, 7]), "000007");
    assert_eq!(pin_from(&[0, 7, 0x5b, 0x73]), "482163");
    // 4294967295 % 1000000
    assert_eq!(pin_from(&[0xff; 4]), "967295");
    assert_eq!(spaced_digits("482163"), "4 8 2 1 6 3");
    assert_eq!(spaced_digits(""), "");
}

#[test]
fn ids_and_markers() {
    assert_eq!(id8(&[0x9f, 0x3a, 0x1c, 0x2e]), "9f3a1c2e");
    assert_eq!(marker_id("9f3a1c2e"), "multiplex:bind:9f3a1c2e");
    assert_eq!(marker_id8("multiplex:bind:9f3a1c2e:ipad"), "9f3a1c2e");
    assert_eq!(marker_id8("multiplex:bind:9f3a1c2e"), "9f3a1c2e");
    assert_eq!(marker_id8("someone@laptop"), "someone@laptop");
}

#[test]
fn test_hooks_take_hex_of_the_right_length() {
    assert_eq!(test_env_bytes::<2>(Some("00fF")), Some([0, 0xff]));
    assert_eq!(test_env_bytes::<2>(Some("00ff00")), None);
    assert_eq!(test_env_bytes::<2>(Some("zz00")), None);
    assert_eq!(test_env_bytes::<2>(None), None);
}

#[test]
fn test_hooks_are_named() {
    let hooks = |session_seed, token, pin, yes| TestHooks { session_seed, token, pin, yes };
    assert!(test_hook_warnings(&hooks(false, false, false, false)).is_empty());
    assert_eq!(
        printed(&test_hook_warnings(&hooks(true, false, false, true))),
        [
            "! test hooks are set — this bind is NOT secure:",
            "!     MPX_BIND_TEST_SESSION_SEED: session key is fixed, not random",
            "!     MPX_BIND_TEST_YES: enrollment skips the confirmation prompt",
            "!     unset them before binding a machine you care about",
        ]
    );
    assert_eq!(test_hook_warnings(&hooks(true, true, true, true)).len(), 6);
}

#[test]
fn only_hooks_in_effect_are_named() {
    let seed = "11".repeat(32);
    let token = "aB".repeat(16);
    let none: Vec<String> = vec![];
    let told = |seed, token, pin, yes| printed(&warn_about_test_hooks(seed, token, pin, yes));
    assert_eq!(told(None, None, None, None), none);
    // Values that pin nothing.
    assert_eq!(told(Some("11"), Some(&seed), None, Some("true")), none);
    assert_eq!(told(Some("zz"), Some(""), None, Some("")), none);
    assert_eq!(
        told(Some(&seed), Some(&token), Some(""), Some("1")),
        [
            "! test hooks are set — this bind is NOT secure:",
            "!     MPX_BIND_TEST_SESSION_SEED: session key is fixed, not random",
            "!     MPX_BIND_TEST_TOKEN: token is fixed, not random",
            "!     MPX_BIND_TEST_PIN: PIN is fixed, not random",
            "!     MPX_BIND_TEST_YES: enrollment skips the confirmation prompt",
            "!     unset them before binding a machine you care about",
        ]
    );
    let hooks = hooks_in_effect(Some("11"), Some(&token), None, None);
    assert!(!hooks.session_seed && hooks.token && !hooks.pin && !hooks.yes);
}

#[test]
fn what_was_asked_for_goes_before_what_was_found() {
    assert_eq!(ssh_user(Some("a"), Some("b")), "a");
    assert_eq!(ssh_user(None, Some("b")), "b");
    assert_eq!(ssh_user(None, None), "root");
    assert_eq!(shown_name(Some("wall"), Some("devbox.local")), "wall");
    assert_eq!(shown_name(None, Some("devbox.local")), "devbox");
    let found = vec![Interface { ip: IpAddr::V4([10, 0, 0, 1]), text: "10.0.0.1".into() }];
    assert_eq!(offered_addrs(&vec![], &found), ["10.0.0.1"]);
    assert_eq!(offered_addrs(&strings(&["x.example"]), &found), ["x.example"]);
}

#[test]
fn the_first_lines_of_an_offer() {
    assert_eq!(
        header("devbox", &strings(&["192.168.1.24"]), 22, "jhen"),
        Line::Plain("● multiplex bind · devbox (192.168.1.24 · ssh :22 · user jhen)".into())
    );
    assert_eq!(
        header("devbox", &vec![], 2222, "root").printed(true),
        "● multiplex bind · devbox (no LAN address · ssh :2222 · user root)"
    );
    assert_eq!(
        host_key_line(&strings(&["ssh-ed25519 SHA256:x", "b"]), "/etc/ssh").printed(true),
        "\x1b[32m✓\x1b[0m host keys read — ssh-ed25519 SHA256:x"
    );
    assert_eq!(
        host_key_line(&vec![], "/etc/ssh"),
        Line::Warn("no host keys under /etc/ssh — the app will connect unpinned".into())
    );
    assert_eq!(
        listen_failure(80, "denied"),
        Line::Warn("cannot listen on port 80: denied".into())
    );
    assert_eq!(
        announce_line(None),
        Line::Done("announcing on your network — visible to Multiplex nearby".into())
    );
    assert_eq!(
        announce_line(Some("no socket")),
        Line::Warn("announce unavailable (no socket) — QR, clipboard, and PIN still work".into())
    );
}

#[test]
fn payloads_of_both_kinds() {
    let payload = handshake_payload(vec![IpAddr::V4([1, 2, 3, 4])], 7, [1; 32], [2; 16], "n");
    assert_eq!(payload.port, 7);
    assert_eq!(payload.token, [2; 16]);
    assert_eq!(payload.offline, None);
    let install = install_of(Ok(("ssh-ed25519 A".into(), Some([5; 32]))), "00ff00ff", "n")
        .ok()
        .unwrap();
    let payload = offline_payload(
        OfflineTerms {
            name: "n".into(),
            user: "u".into(),
            ssh_port: 22,
            authorized_keys: Some("/k".into()),
            hostkey_sha256: Some([6; 32]),
        },
        vec![],
        &install,
    );
    assert_eq!(payload.port, 0);
    assert_eq!(payload.spub, [0; 32]);
    assert_eq!(payload.token, [0; 16]);
    assert_eq!(
        payload.offline,
        Some(OfflineKey {
            ssh_user: "u".into(),
            ssh_port: 22,
            seed: [5; 32],
            authorized_keys: Some("/k".into()),
            hostkey_sha256: Some([6; 32]),
        })
    );
}

#[test]
fn panels() {
    assert_eq!(
        bind_panel("482163", 65),
        [
            "",
            "scan with Multiplex on iPhone",
            "or iPad, or confirm the PIN",
            "it discovers on your network:",
            "",
            "PIN  4 8 2 1 6 3",
            "",
            "expires in 1:05 · single use",
        ]
    );
    assert_eq!(bind_panel("", 600)[7], "expires in 10:00 · single use");
    assert_eq!(offline_panel().len(), 8);
    assert_eq!(offline_panel()[1], "scan or paste this in Multiplex.");
}

#[test]
fn offline_keys_are_installed_under_a_marker() {
    assert_eq!(
        offline_line("ssh-ed25519 AAAA old comment", "00ff00ff", "Dev Box"),
        Some((
            "ssh-ed25519".into(),
            "AAAA".into(),
            "multiplex:bind:00ff00ff:dev-box".into()
        ))
    );
    assert_eq!(offline_line("ssh-ed25519", "00ff00ff", "x"), None);
    assert_eq!(
        offline_installed("/k", "c"),
        Line::Done("keypair generated · public key installed → /k (c)".into())
    );
    assert!(offline_warning().printed(false).starts_with("! this payload CONTAINS a private key"));
}

#[test]
fn an_announced_offer_says_where_to_look() {
    assert_eq!(
        printed(&waiting(false)),
        ["", "~ waiting for Multiplex…  (Ctrl-C cancels)"]
    );
    let told = printed(&waiting(true));
    assert_eq!(told.len(), 3);
    assert_eq!(
        told[2],
        "this terminal confirms the bind — if Multiplex reports success and nothing \
         appears here,\n  it enrolled somewhere else: Ctrl-C, delete that host in the \
         app, and prefer the QR."
    );
}

#[test]
fn requests_and_answers() {
    assert_eq!(
        bind_request("Jhen's Vision Pro", "jhen", "devbox", false),
        "→ Jhen's Vision Pro asks to bind as jhen@devbox — enroll? [Y/n] "
    );
    assert_eq!(
        bind_request("", "jhen", "devbox", true),
        "→ A device asks to bind as jhen@devbox — enrolling (--yes)"
    );
    for yes in ["", "\n", "y\n", "Y", " yes ", "YeS\r\n"] {
        assert!(accepts(yes), "{yes:?}");
    }
    for no in ["n", "no", "yy", "ye s", "ÿ"] {
        assert!(!accepts(no), "{no:?}");
    }
    assert!(confirms_itself(true, None));
    assert!(confirms_itself(false, Some("1")));
    assert!(!confirms_itself(false, Some("true")));
    assert!(!confirms_itself(false, None));
}

#[test]
fn progress_in_words() {
    assert_eq!(
        printed(&progress(&ServerEvent::WrongPin { remaining: 2 })),
        ["! wrong PIN (2 tries left)"]
    );
    assert_eq!(
        printed(&progress(&ServerEvent::PinRetired)),
        [
            "! too many wrong PINs — PIN entry is off for this offer",
            "  the QR still works; re-run `mpx bind` for a fresh PIN",
        ]
    );
}

#[test]
fn outcomes_in_words_and_codes() {
    let enrolled = |acknowledged| BindOutcome::Enrolled {
        device: "d".into(),
        comment: "multiplex:bind:9f3a1c2e:d".into(),
        acknowledged,
    };
    let (lines, code) = report(&enrolled(true), "/k", "devbox");
    assert_eq!(
        printed(&lines),
        [
            "+ key enrolled → /k (multiplex:bind:9f3a1c2e:d)",
            "+ bound. Multiplex has devbox on the wall.",
        ]
    );
    assert_eq!(code, 0);
    let (lines, code) = report(&enrolled(false), "/k", "devbox");
    assert_eq!(
        printed(&lines)[1..3],
        [
            "! the device never acknowledged it — if this wasn't your device,",
            "!   remove it with `mpx unbind 9f3a1c2e`",
        ]
    );
    assert_eq!((lines.len(), code), (4, 0));
    assert_eq!(report(&BindOutcome::Expired, "/k", "n").1, 2);
    assert_eq!(report(&BindOutcome::Declined, "/k", "n").1, 1);
    assert_eq!(report(&BindOutcome::Canceled, "/k", "n").1, 130);
}

#[test]
fn a_panel_is_centred_beside_the_code() {
    let panel = strings(&["one", "", "three"]);
    assert_eq!(
        side_by_side("#####\n###\n##\n#\n#####", &panel),
        ["#####", "###    one", "##", "#      three", "#####"]
    );
    // More lines than rows: the panel starts at the top.
    assert_eq!(side_by_side("##\n##", &panel), ["##  one", "##"]);
}

#[test]
fn an_offer_is_printed_beside_its_code_where_it_fits() {
    let panel = strings(&["PIN  1"]);
    let lines = publish_drawn("url", &None, false, false, Some("##\n##\n##".into()), &panel);
    assert_eq!(
        printed(&lines),
        [
            "",
            "##",
            "##  PIN  1",
            "##",
            "clipboard untouched — re-run with --copy to paste this into Multiplex",
        ]
    );
    let wide = "#".repeat(73);
    let lines = publish_drawn("url", &None, false, false, Some(wide.clone()), &panel);
    assert_eq!(printed(&lines)[..3], ["".to_string(), wide, "  PIN  1".to_string()]);
    let just = "#".repeat(72);
    let lines = publish_drawn("url", &None, false, false, Some(just.clone()), &panel);
    assert_eq!(printed(&lines)[1], format!("{just}  PIN  1"));
}

#[test]
fn an_offer_without_a_code() {
    let panel = strings(&["p"]);
    assert_eq!(
        printed(&publish_drawn("url", &None, false, true, None, &panel)),
        [
            "  p",
            "url",
            "clipboard untouched — re-run with --copy to paste this into Multiplex",
        ]
    );
    assert_eq!(
        printed(&publish_drawn("url", &Some(CopyOutcome::Copied("xclip")), true, false, None, &panel)),
        [
            "+ payload copied to clipboard (xclip)",
            "  inside tmux, OSC 52 needs `set -g allow-passthrough on` in the host's tmux.conf",
            "! payload too large for a QR — use the clipboard",
            "url",
            "  p",
        ]
    );
    assert_eq!(
        printed(&publish_drawn("url", &Some(CopyOutcome::Failed), false, true, None, &panel)),
        [
            "! clipboard unavailable — scan the QR or copy the line below",
            "url",
            "  p",
        ]
    );
}

#[test]
fn a_published_payload_is_drawn() {
    let panel = bind_panel("482163", 60);
    let url = "multiplex://b/abc";
    let lines = publish_payload(url, &None, false, false, &panel);
    assert_eq!(
        lines,
        publish_drawn(url, &None, false, false, render(url), &panel)
    );
    assert!(printed(&lines).iter().any(|line| line.contains("█") && line.contains("PIN  4 8 2 1 6 3")));
    let lines = publish_payload(url, &None, false, true, &panel);
    assert_eq!(lines.len(), panel.len() + 2);
}

const KEYS: &str = "ssh-rsa A me@laptop\n\
                    ssh-ed25519 B multiplex:bind:11111111:ipad\n\
                    ssh-ed25519 C multiplex:bind:22222222:vision-pro\n";

#[test]
fn unbind_lists_what_was_enrolled() {
    let (lines, code) = unbind(false, None, false, "/k", &file(KEYS)).unwrap();
    assert_eq!(
        printed(&lines),
        [
            "11111111  ipad                      ssh-ed25519",
            "22222222  vision-pro                ssh-ed25519",
            "remove one with `mpx unbind <id>` or all with `mpx unbind --all`",
        ]
    );
    assert_eq!(code, 0);
    let (lines, _) = unbind(true, Some("11111111"), true, "/k", &file(KEYS)).unwrap();
    assert_eq!(lines.len(), 2);
    let (lines, code) = unbind(true, None, false, "/k", &FileRead::Missing).unwrap();
    assert_eq!(printed(&lines), ["no multiplex-enrolled keys in /k"]);
    assert_eq!(code, 0);
    assert_eq!(unbind(false, Some("1"), false, "/k", &file(KEYS)), None);
    assert_eq!(unbind(false, None, true, "/k", &file(KEYS)), None);
}

#[test]
fn an_unreadable_file_does_not_look_revoked() {
    let unreadable = FileRead::Bytes(vec![0xff]);
    let (lines, code) = unbind(false, None, true, "/k", &unreadable).unwrap();
    assert_eq!(
        printed(&lines),
        ["! could not read /k: stream did not contain valid UTF-8"]
    );
    assert_eq!(code, 1);
    let removal = unbind_remove(true, "", "/k", &unreadable);
    assert_eq!(removal.content, None);
    assert_eq!(
        printed(&removal.lines),
        ["! could not rewrite /k: stream did not contain valid UTF-8"]
    );
    assert_eq!(removal.code, 1);
}

#[test]
fn unbind_removes_by_id_or_all() {
    let removal = unbind_remove(false, "11111111", "/k", &file(KEYS));
    assert_eq!(
        removal.content.unwrap(),
        "ssh-rsa A me@laptop\nssh-ed25519 C multiplex:bind:22222222:vision-pro\n"
    );
    assert_eq!(printed(&removal.lines), ["+ removed 11111111 (ipad)"]);
    assert_eq!(removal.code, 0);

    let removal = unbind_remove(true, "", "/k", &file(KEYS));
    assert_eq!(removal.content.unwrap(), "ssh-rsa A me@laptop\n");
    assert_eq!(removal.lines.len(), 2);

    let removal = unbind_remove(false, "33333333", "/k", &file(KEYS));
    assert_eq!(removal.content, None);
    assert_eq!(printed(&removal.lines), ["! no matching enrolled key"]);
    assert_eq!(removal.code, 1);
    assert_eq!(
        unbind_unwritten("/k", "denied"),
        Line::Warn("could not rewrite /k: denied".into())
    );
}

#[test]
fn session_material_is_random_unless_pinned() {
    let seed = "11".repeat(32);
    assert_eq!(session_secret(Some(&seed)), [0x11; 32]);
    assert_eq!(session_token(Some("000102030405060708090a0b0c0d0e0F"))[15], 15);
    assert_eq!(session_pin(Some("pin")), "pin");
    // A hook that does not parse pins nothing.
    assert_ne!(session_secret(Some("11")), session_secret(None));
    assert_ne!(session_token(None), session_token(None));
    let pin = session_pin(None);
    assert!(pin.len() == 6 && pin.bytes().all(|b| b.is_ascii_digit()));
    let id = random_id8();
    assert!(id.len() == 8 && id.bytes().all(|b| b.is_ascii_hexdigit()));
}

#[test]
fn a_generated_key_is_the_seeds() {
    let install = generate_install("Dev Box").ok().unwrap();
    assert_eq!(install.key_type, "ssh-ed25519");
    assert!(install.comment.starts_with("multiplex:bind:"));
    assert!(install.comment.ends_with(":dev-box"));
    assert_eq!(install.comment.len(), "multiplex:bind:".len() + 8 + ":dev-box".len());
    let pair = ssh_key::private::Ed25519Keypair::from_seed(&install.seed);
    let public = ssh_key::PublicKey::from(pair.public).to_openssh().unwrap();
    assert_eq!(public, format!("{} {}", install.key_type, install.material));
}

/// The seed in the payload is that of the key in the file, and nothing is
/// published where the key could not be installed.
#[test]
fn an_offline_payload_carries_the_seed_of_the_installed_key() {
    let install = generate_install("Dev Box").ok().unwrap();
    let content = match offline_enroll(&install, "/k", &file("# keys\n")) {
        OfflineStep::Write(content) => content,
        _ => panic!("a new key is written"),
    };
    assert!(matches!(offline_saved("/k", None), OfflineStep::Publish));
    let terms = OfflineTerms {
        name: "Dev Box".into(),
        user: "u".into(),
        ssh_port: 22,
        authorized_keys: None,
        hostkey_sha256: None,
    };
    let url = offline_payload(terms, vec![], &install).to_url();
    let read = Payload::from_url(&url).unwrap();
    let pair = ssh_key::private::Ed25519Keypair::from_seed(&read.offline.unwrap().seed);
    let public = ssh_key::PublicKey::from(pair.public).to_openssh().unwrap();
    assert_eq!(content, format!("# keys\n{public} {}\n", install.comment));

    // The key is there already.
    assert!(matches!(offline_enroll(&install, "/k", &file(&content)), OfflineStep::Publish));
    match offline_enroll(&install, "/k", &FileRead::Failed("denied".into())) {
        OfflineStep::Fail(line) => assert_eq!(line, Line::Warn("could not write /k: denied".into())),
        _ => panic!("nothing to publish"),
    }
    match offline_saved("/k", Some("disk full")) {
        OfflineStep::Fail(line) => assert_eq!(line, offline_unwritten("/k", "disk full")),
        _ => panic!("nothing to publish"),
    }
}

#[test]
fn a_key_that_cannot_be_installed_is_explained() {
    let told = |generated| match install_of(generated, "00ff00ff", "n") {
        Ok(_) => panic!("nothing to install"),
        Err(line) => line.printed(false),
    };
    assert_eq!(told(Err("no entropy".into())), "! keygen failed: no entropy");
    assert_eq!(
        told(Ok(("ssh-rsa A".into(), None))),
        "! keygen produced a non-ed25519 key"
    );
    assert_eq!(
        told(Ok(("ssh-ed25519".into(), Some([0; 32])))),
        "! keygen produced an unreadable public key"
    );
    let install = install_of(Ok(("ssh-ed25519 A".into(), Some([7; 32]))), "00ff00ff", "n")
        .ok()
        .unwrap();
    assert_eq!(install.comment, "multiplex:bind:00ff00ff:n");
    assert_eq!(install.seed, [7; 32]);
}
