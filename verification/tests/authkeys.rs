use mpx::authkeys::{
    ensure_line, marked_keys, parse_line, remove_marked, scratch_name, AddOutcome, FileRead,
    KeysError, MarkedKey,
};

fn file(content: &str) -> FileRead {
    FileRead::Bytes(content.as_bytes().to_vec())
}

fn added(read: &FileRead, key_type: &str, key_b64: &str, comment: &str) -> String {
    match ensure_line(read, key_type, key_b64, comment).unwrap() {
        (AddOutcome::Added, Some(content)) => content,
        other => panic!("expected a new line, got {other:?}"),
    }
}

#[test]
fn append_is_idempotent_and_atomic() {
    let (outcome, content) = ensure_line(
        &FileRead::Missing,
        "ssh-ed25519",
        "AAAAKEY",
        "multiplex:bind:9f3a1c2e:visionpro",
    )
    .unwrap();
    assert_eq!(outcome, AddOutcome::Added);
    let content = content.unwrap();
    let (again, rewritten) = ensure_line(
        &file(&content),
        "ssh-ed25519",
        "AAAAKEY",
        "multiplex:bind:deadbeef:other",
    )
    .unwrap();
    assert!(
        matches!(again, AddOutcome::AlreadyPresent { comment } if comment == "multiplex:bind:9f3a1c2e:visionpro")
    );
    assert_eq!(rewritten, None);
    assert_eq!(content.lines().count(), 1);
}

#[test]
fn preserves_foreign_lines_and_removes_only_marked() {
    let content = "# a comment\ncommand=\"echo hi\" ssh-rsa FOREIGN user@laptop\n";
    let content = added(
        &file(content),
        "ssh-ed25519",
        "MINE",
        "multiplex:bind:9f3a1c2e:visionpro",
    );
    let content = added(
        &file(&content),
        "ssh-ed25519",
        "MINE2",
        "multiplex:bind:11223344:ipad",
    );

    let listed = marked_keys(&file(&content)).unwrap();
    assert_eq!(listed.len(), 2);
    assert_eq!(listed[0].id, "9f3a1c2e");
    assert_eq!(listed[0].device, "visionpro");

    let (removed, content) = remove_marked(&file(&content), |k: &MarkedKey| k.id == "9f3a1c2e").unwrap();
    assert_eq!(removed.len(), 1);
    let content = content.unwrap();
    assert!(content.contains("# a comment"));
    assert!(content.contains("FOREIGN"));
    assert!(content.contains("MINE2"));
    assert!(!content.contains("MINE "));
}

/// An option value may contain something that reads exactly like a key type.
#[test]
fn key_fields_survive_options_that_quote_a_key_type() {
    let line = r#"command="echo ssh-rsa hi",no-pty ssh-ed25519 AAAAREAL multiplex:bind:9f3a1c2e:visionpro"#;
    assert_eq!(
        parse_line(line),
        Some((
            "ssh-ed25519".into(),
            "AAAAREAL".into(),
            "multiplex:bind:9f3a1c2e:visionpro".into()
        ))
    );

    let read = file(&format!("{line}\n"));
    let listed = marked_keys(&read).unwrap();
    assert_eq!(listed.len(), 1, "an optioned line must still be revocable");
    assert_eq!(listed[0].id, "9f3a1c2e");
    assert_eq!(listed[0].key_type, "ssh-ed25519");

    // And the key material is seen, so re-binding it stays a no-op.
    let (again, _) = ensure_line(
        &read,
        "ssh-ed25519",
        "AAAAREAL",
        "multiplex:bind:deadbeef:x",
    )
    .unwrap();
    assert!(matches!(again, AddOutcome::AlreadyPresent { .. }));

    let (removed, content) = remove_marked(&read, |k: &MarkedKey| k.id == "9f3a1c2e").unwrap();
    assert_eq!(removed.len(), 1);
    assert_eq!(content.unwrap().trim(), "");
}

/// A file that cannot be read is a file that must not be rewritten.
#[test]
fn an_unreadable_file_is_never_rewritten() {
    let original: &[u8] = b"ssh-ed25519 AAAAREAL someone@laptop\n\xff\xfe not utf-8\n";
    let read = FileRead::Bytes(original.to_vec());

    let err = ensure_line(&read, "ssh-ed25519", "NEW", "multiplex:bind:9f3a1c2e:box")
        .expect_err("enrolling into an unreadable file must fail, not truncate it");
    assert_eq!(err, KeysError::InvalidData);

    // The same file must not read as "nothing enrolled" either.
    assert!(marked_keys(&read).is_err());
    assert!(remove_marked(&read, |_: &MarkedKey| true).is_err());
}

/// A missing file is still the ordinary first-bind case, not an error.
#[test]
fn a_missing_file_is_empty_not_an_error() {
    assert_eq!(marked_keys(&FileRead::Missing).unwrap(), vec![]);
    assert_eq!(remove_marked(&FileRead::Missing, |_: &MarkedKey| true).unwrap(), (vec![], None));
    assert_eq!(
        ensure_line(&FileRead::Missing, "ssh-ed25519", "AAAA", "multiplex:bind:9f3a1c2e:box")
            .unwrap()
            .0,
        AddOutcome::Added
    );
}

/// A backslash-escaped quote inside an option must not end the field.
#[test]
fn options_tolerate_escaped_quotes() {
    let line = r#"command="echo \"hi\" there" ssh-ed25519 AAAAB3 tag"#;
    assert_eq!(
        parse_line(line),
        Some(("ssh-ed25519".into(), "AAAAB3".into(), "tag".into()))
    );
}

#[test]
fn a_failed_read_is_passed_on() {
    let failed = FileRead::Failed("Permission denied (os error 13)".into());
    assert_eq!(
        marked_keys(&failed),
        Err(KeysError::Failed("Permission denied (os error 13)".into()))
    );
    assert_eq!(
        ensure_line(&failed, "ssh-ed25519", "A", "c").unwrap_err().message(),
        "Permission denied (os error 13)"
    );
    assert_eq!(
        KeysError::InvalidData.message(),
        "stream did not contain valid UTF-8"
    );
}

#[test]
fn lines_without_a_key_have_no_fields() {
    assert_eq!(parse_line(""), None);
    assert_eq!(parse_line("   "), None);
    assert_eq!(parse_line("# ssh-ed25519 AAAA x"), None);
    assert_eq!(parse_line("ssh-ed25519"), None);
    assert_eq!(parse_line("no-pty ssh-ed25519"), None);
    assert_eq!(
        parse_line("  ecdsa-sha2-nistp256\tAAAA   two  words "),
        Some(("ecdsa-sha2-nistp256".into(), "AAAA".into(), "two words".into()))
    );
    assert_eq!(
        parse_line("sk-ssh-ed25519@openssh.com AAAA"),
        Some(("sk-ssh-ed25519@openssh.com".into(), "AAAA".into(), "".into()))
    );
    // An open quote hides every space, so the first field is the whole line.
    assert_eq!(
        parse_line("command=\"x ssh-ed25519 AAAA"),
        Some(("command=\"x".into(), "ssh-ed25519".into(), "AAAA".into()))
    );
}

#[test]
fn a_marker_is_split_at_its_first_colon() {
    let listed = marked_keys(&file(
        "ssh-ed25519 A multiplex:bind:12345678\n\
         ssh-ed25519 B multiplex:bind:9f:a:b\r\n\
         ssh-ed25519 C multiplex:bond:9f:a\n\
         ssh-ed25519 D multiplex:bind:",
    ))
    .unwrap();
    assert_eq!(listed.len(), 3);
    assert_eq!((listed[0].id.as_str(), listed[0].device.as_str()), ("12345678", ""));
    assert_eq!((listed[1].id.as_str(), listed[1].device.as_str()), ("9f", "a:b"));
    assert_eq!(listed[1].line, "ssh-ed25519 B multiplex:bind:9f:a:b");
    assert_eq!((listed[2].id.as_str(), listed[2].device.as_str()), ("", ""));
}

#[test]
fn adding_adds_one_line_and_terminates_the_last() {
    assert_eq!(
        added(&FileRead::Missing, "ssh-ed25519", "K", "c"),
        "ssh-ed25519 K c\n"
    );
    assert_eq!(
        added(&file("ssh-rsa A x"), "ssh-ed25519", "K", "c"),
        "ssh-rsa A x\nssh-ed25519 K c\n"
    );
    assert_eq!(
        added(&file("ssh-rsa A x\n"), "ssh-ed25519", "K", "c"),
        "ssh-rsa A x\nssh-ed25519 K c\n"
    );
}

#[test]
fn removal_without_a_match_leaves_the_file_alone() {
    let read = file("ssh-ed25519 A multiplex:bind:1:x\nother");
    assert_eq!(
        remove_marked(&read, |k: &MarkedKey| k.id == "2").unwrap(),
        (vec![], None)
    );
    let (removed, content) = remove_marked(&read, |_: &MarkedKey| true).unwrap();
    assert_eq!(removed[0].line, "ssh-ed25519 A multiplex:bind:1:x");
    assert_eq!(content.unwrap(), "other");
}

/// What is not removed is not touched: line endings stay, an unterminated last
/// line stays unterminated.
#[test]
fn foreign_lines_keep_their_endings() {
    let read = file("ssh-rsa FOREIGN user@laptop\r\nssh-ed25519 MINE multiplex:bind:9f3a1c2e:box\r\n");
    let (removed, content) = remove_marked(&read, |k: &MarkedKey| k.id == "9f3a1c2e").unwrap();
    assert_eq!(removed.len(), 1);
    assert_eq!(content.unwrap(), "ssh-rsa FOREIGN user@laptop\r\n");

    let read = file(
        "a\r\r\n\n\r\nssh-ed25519 MINE multiplex:bind:1:box\n \tb\u{a0}\nssh-ed25519 TOO multiplex:bind:1:box\r\nlast\r",
    );
    let (removed, content) = remove_marked(&read, |_: &MarkedKey| true).unwrap();
    assert_eq!(removed.len(), 2);
    assert_eq!(content.unwrap(), "a\r\r\n\n\r\n \tb\u{a0}\nlast\r");

    // The marked line itself may be the unterminated one.
    let read = file("x\r\nssh-ed25519 MINE multiplex:bind:1:box");
    let (_, content) = remove_marked(&read, |_: &MarkedKey| true).unwrap();
    assert_eq!(content.unwrap(), "x\r\n");
}

#[test]
fn a_comment_of_several_words_is_found_again() {
    let content = added(&file("x\n"), "ssh-ed25519", "K", "  two   words ");
    assert_eq!(content, "x\nssh-ed25519 K   two   words \n");
    assert_eq!(
        ensure_line(&file(&content), "ssh-ed25519", "K", "other").unwrap(),
        (AddOutcome::AlreadyPresent { comment: "two words".into() }, None)
    );
}

#[test]
fn what_was_added_can_be_removed_again() {
    let before = "# keys\nssh-rsa A x\n";
    let after = added(&file(before), "ssh-ed25519", "K", "multiplex:bind:00ff00ff:box");
    let (removed, content) =
        remove_marked(&file(&after), |k: &MarkedKey| k.id == "00ff00ff").unwrap();
    assert_eq!(removed.len(), 1);
    assert_eq!(removed[0].device, "box");
    assert_eq!(content.unwrap(), before);
}

#[test]
fn scratch_files_are_named_by_process() {
    assert_eq!(
        scratch_name(Some("authorized_keys"), 42),
        ".authorized_keys.mpx-42.tmp"
    );
    assert_eq!(scratch_name(None, 7), ".authorized_keys.mpx-7.tmp");
}
