//! What the `bind` and `unbind` commands say and decide.

use rand_core::{OsRng, RngCore};
use ssh_key::{Algorithm, PrivateKey};
use vstd::prelude::*;
use vstd::string::*;
use vstd::utf8::*;
use crate::authkeys::{
    added_keys_are_listed_and_can_be_removed, adding_keeps_the_rest, answers, answers_at, colon_at,
    content_of, enrolled, ensure_line, key_line, lemma_chomped, lemma_marker_is_word, lines_left,
    mark_of, mark_views, marked_keys, marker, marker_of, markers_are_read_back, marks_in,
    one_word_is_settled, parsed_line, picked_marks, plain_key, removal_keeps_the_rest,
    remove_marked, text_left, with_key, written_lines_are_read_back, FileRead, KeyLine,
    MARKER_PREFIX, Mark, MarkedKey,
};
use crate::bytes::{array_at, be_value, u32_from};
use crate::clip::{tmux_passthrough_hint, CopyOutcome};
use crate::hostinfo::{addrs_of, local_addrs, name_of, machine_name, Interface};
use crate::payload::{
    addr_views, kept_payloads_are_capped, legible, sized, url_decoded, url_of, urls_are_read_back,
    wire_bytes, wire_of, written_payloads_are_read_back, Addr, IpAddr, KeyState, OfflineKey,
    Payload, PayloadState,
};
use crate::qr::{lemma_widest, qr_art, render, widest, widest_of, width};
use crate::server::{BindOutcome, ServerEvent};
use crate::text::{
    append_all, begins_with, cat, cat3, chars_of, decimal_of, fields_of, is_white, is_word, join,
    join_of, lemma_decimal_len, lemma_fields_are_words, lines_of, padded_of, push_decimal,
    push_padded, repeated, same, split_fields, split_lines, text_of, trim, trim_of, views,
};
use crate::util::{
    capitals_are_made_small, device_slug, hex, hex_decode, hex_decoded, hex_digit, hex_of, lower,
    lower_of, note, note_of, ok, ok_of, slug_of, slugs_are_clean, wait, wait_of, warn, warn_of,
};
use crate::crypto::{zeros};

verus! {

/// A line for the operator.
#[derive(Debug, PartialEq, Eq)]
pub enum Line {
    /// Reports success.
    Done(String),
    Note(String),
    /// Goes to the error output.
    Warn(String),
    Wait(String),
    Plain(String),
}

pub ghost enum Said {
    Done(Seq<char>),
    Note(Seq<char>),
    Warn(Seq<char>),
    Wait(Seq<char>),
    Plain(Seq<char>),
}

impl View for Line {
    type V = Said;

    open spec fn view(&self) -> Said {
        match self {
            Line::Done(s) => Said::Done(s@),
            Line::Note(s) => Said::Note(s@),
            Line::Warn(s) => Said::Warn(s@),
            Line::Wait(s) => Said::Wait(s@),
            Line::Plain(s) => Said::Plain(s@),
        }
    }
}

pub open spec fn said(lines: Seq<Line>) -> Seq<Said> {
    Seq::new(lines.len(), |i: int| lines[i]@)
}

impl Line {
    /// The line as it is printed.
    pub fn printed(&self, styled: bool) -> (r: String)
        ensures
            r@ == (match self@ {
                Said::Done(s) => ok_of(s, styled),
                Said::Note(s) => note_of(s, styled),
                Said::Warn(s) => warn_of(s, styled),
                Said::Wait(s) => wait_of(s, styled),
                Said::Plain(s) => s,
            }),
    {
        match self {
            Line::Done(s) => ok(s.as_str(), styled),
            Line::Note(s) => note(s.as_str(), styled),
            Line::Warn(s) => warn(s.as_str(), styled),
            Line::Wait(s) => wait(s.as_str(), styled),
            Line::Plain(s) => s.clone(),
        }
    }
}

/// The seconds that an offer stays valid: as asked for, between 10 and 600.
pub fn lifetime(expires: u64) -> (r: u64)
    ensures
        r == (if expires < 10 {
            10
        } else if expires > 600 {
            600
        } else {
            expires
        }),
{
    if expires < 10 {
        10
    } else if expires > 600 {
        600
    } else {
        expires
    }
}

/// When an offer that is made now expires, in nanoseconds.
pub fn offer_deadline(now: u64, lifetime: u64) -> (r: u64)
    requires
        now + lifetime * 1_000_000_000 <= u64::MAX,
    ensures
        r == now + lifetime * 1_000_000_000,
{
    assert(lifetime * 1_000_000_000 <= u64::MAX);
    now + lifetime * 1_000_000_000
}

/// The PIN that four random bytes make: six digits.
pub fn pin_from(bytes: &[u8; 4]) -> (r: String)
    ensures
        r@ == padded_of(be_value(bytes@) % 1_000_000, 6),
        r@.len() == 6,
{
    let n: u32 = u32_from(bytes) % 1_000_000;
    let mut pin = String::new();
    push_padded(&mut pin, n as u64, 6);
    proof {
        lemma_decimal_len(n as nat);
        assert(pin@ =~= padded_of(n as nat, 6));
    }
    pin
}

/// The id that four random bytes make: eight hex digits.
pub fn id8(bytes: &[u8; 4]) -> (r: String)
    ensures
        r@ == hex_of(bytes@),
        r@.len() == 8,
{
    hex(bytes)
}

/// The marker of a session, without the device.
pub fn marker_id(id: &str) -> (r: String)
    ensures
        r@ == MARKER_PREFIX@ + id@,
{
    cat(MARKER_PREFIX, id)
}

/// The id in a marker, which is what `unbind` takes; a comment without a marker
/// as it is.
pub open spec fn id_in(comment: Seq<char>) -> Seq<char> {
    match marker_of(comment) {
        Some((id, device)) => id,
        None => comment,
    }
}

/// The id in the comment of an enrolled key.
pub fn marker_id8(comment: &str) -> (r: String)
    ensures
        r@ == id_in(comment@),
{
    if !begins_with(comment, MARKER_PREFIX) {
        return comment.to_owned();
    }
    let chars = chars_of(comment);
    let from = chars_of(MARKER_PREFIX).len();
    let mut i: usize = from;
    let ghost rest = comment@.skip(from as int);
    while i < chars.len() && chars[i] != ':'
        invariant
            chars@ == comment@,
            from <= i <= chars@.len(),
            rest == comment@.skip(from as int),
            colon_at(rest) == i - from + colon_at(
                comment@.skip(i as int),
            ),
        decreases chars.len() - i,
    {
        assert(comment@.skip(i as int)[0] == comment@[i as int]);
        assert(comment@.skip(i as int).drop_first() == comment@.skip(i + 1));
        i = i + 1;
    }
    proof {
        if i < chars@.len() {
            assert(comment@.skip(i as int)[0] == ':');
        }
        assert(rest.take(i - from) == chars@.subrange(from as int, i as int));
    }
    text_of(&chars, from, i)
}

/// The characters of a PIN, one by one.
pub open spec fn singles(pin: Seq<char>) -> Seq<Seq<char>> {
    Seq::new(pin.len(), |i: int| seq![pin[i]])
}

/// The PIN with spaces between its digits.
pub fn spaced_digits(pin: &str) -> (r: String)
    ensures
        r@ == join_of(singles(pin@), " "@),
{
    let chars = chars_of(pin);
    let mut parts: Vec<String> = Vec::new();
    let mut i: usize = 0;
    while i < chars.len()
        invariant
            chars@ == pin@,
            i <= chars@.len(),
            parts@.len() == i,
            forall|k: int| 0 <= k < i ==> (#[trigger] parts@[k])@ == seq![pin@[k]],
        decreases chars.len() - i,
    {
        let part = text_of(&chars, i, i + 1);
        assert(part@ =~= seq![pin@[i as int]]);
        parts.push(part);
        i = i + 1;
    }
    assert(views(parts@) =~= singles(pin@));
    join(&parts, " ")
}

/// The bytes that a test hook's value gives, if it is hex for that many.
pub fn test_env_bytes<const N: usize>(value: Option<&str>) -> (r: Option<[u8; N]>)
    ensures
        match pinned(text_given(value), N as nat) {
            Some(bytes) => r matches Some(array) && array@ == bytes,
            None => r is None,
        },
{
    let bytes = hex_decode(value?)?;
    if bytes.len() != N {
        return None;
    }
    assert(bytes@.subrange(0, N as int) == bytes@);
    Some(array_at::<N>(bytes.as_slice(), 0))
}

/// Calls `OsRng::fill_bytes`, which gives up on the process if the system has no
/// randomness. Nothing is trusted of the bytes.
#[verifier::external_body]
fn random_bytes<const N: usize>() -> (r: [u8; N]) {
    let mut bytes = [0u8; N];
    OsRng.fill_bytes(&mut bytes);
    bytes
}

/// The bytes that a test hook pins.
pub open spec fn pinned(value: Option<Seq<char>>, len: nat) -> Option<Seq<u8>> {
    match value {
        Some(text) => match hex_decoded(encode_utf8(text)) {
            Some(bytes) => if bytes.len() == len { Some(bytes) } else { None },
            None => None,
        },
        None => None,
    }
}

pub open spec fn text_given(value: Option<&str>) -> Option<Seq<char>> {
    match value {
        Some(text) => Some(text@),
        None => None,
    }
}

/// The secret of a session: random, unless a test hook pins it.
pub fn session_secret(hook: Option<&str>) -> (r: [u8; 32])
    ensures
        pinned(text_given(hook), 32) matches Some(bytes) ==> r@ == bytes,
{
    match test_env_bytes::<32>(hook) {
        Some(bytes) => bytes,
        None => random_bytes::<32>(),
    }
}

/// The token of a session: random, unless a test hook pins it.
pub fn session_token(hook: Option<&str>) -> (r: [u8; 16])
    ensures
        pinned(text_given(hook), 16) matches Some(bytes) ==> r@ == bytes,
{
    match test_env_bytes::<16>(hook) {
        Some(bytes) => bytes,
        None => random_bytes::<16>(),
    }
}

/// The PIN of a session: what a test hook says, or six random digits.
pub fn session_pin(hook: Option<&str>) -> (r: String)
    ensures
        match hook {
            Some(pin) => r@ == pin@,
            None => exists|bytes: Seq<u8>|
                bytes.len() == 4 && r@ == padded_of(#[trigger] be_value(bytes) % 1_000_000, 6)
                    && r@.len() == 6,
        },
{
    match hook {
        Some(pin) => pin.to_owned(),
        None => {
            let bytes = random_bytes::<4>();
            let pin = pin_from(&bytes);
            assert(bytes@.len() == 4 && pin@ == padded_of(be_value(bytes@) % 1_000_000, 6));
            pin
        },
    }
}

/// A random id of eight hex digits.
pub fn random_id8() -> (r: String)
    ensures
        r@.len() == 8,
        exists|bytes: Seq<u8>| bytes.len() == 4 && r@ == #[trigger] hex_of(bytes),
{
    let bytes = random_bytes::<4>();
    let id = id8(&bytes);
    assert(bytes@.len() == 4 && id@ == hex_of(bytes@));
    id
}

/// The test hooks that are in effect.
pub struct TestHooks {
    pub session_seed: bool,
    pub token: bool,
    pub pin: bool,
    /// Only `1` skips the prompt.
    pub yes: bool,
}

pub open spec fn when(cond: bool, line: Said) -> Seq<Said> {
    if cond { seq![line] } else { Seq::empty() }
}

/// What the operator is told of test hooks: each one that is in effect, with
/// its effect, and nothing if none is.
pub open spec fn hooks_told(hooks: TestHooks) -> Seq<Said> {
    if hooks.session_seed || hooks.token || hooks.pin || hooks.yes {
        seq![Said::Warn("test hooks are set — this bind is NOT secure:"@)] + when(
            hooks.session_seed,
            Said::Warn("    MPX_BIND_TEST_SESSION_SEED: session key is fixed, not random"@),
        ) + when(
            hooks.token,
            Said::Warn("    MPX_BIND_TEST_TOKEN: token is fixed, not random"@),
        ) + when(
            hooks.pin,
            Said::Warn("    MPX_BIND_TEST_PIN: PIN is fixed, not random"@),
        ) + when(
            hooks.yes,
            Said::Warn("    MPX_BIND_TEST_YES: enrollment skips the confirmation prompt"@),
        ) + seq![Said::Warn("    unset them before binding a machine you care about"@)]
    } else {
        Seq::empty()
    }
}

fn say(lines: &mut Vec<Line>, line: Line)
    ensures
        said(final(lines)@) == said(old(lines)@).push(line@),
{
    lines.push(line);
    assert(said(lines@) =~= said(old(lines)@).push(line@));
}

fn say_when(lines: &mut Vec<Line>, cond: bool, line: Line)
    ensures
        said(final(lines)@) == said(old(lines)@) + when(cond, line@),
{
    if cond {
        say(lines, line);
    }
    assert(said(lines@) =~= said(old(lines)@) + when(cond, line@));
}

/// The test hooks that the values of their variables put in effect: a seed or
/// token that does not parse pins nothing.
pub fn hooks_in_effect(
    seed: Option<&str>,
    token: Option<&str>,
    pin: Option<&str>,
    yes: Option<&str>,
) -> (r: TestHooks)
    ensures
        r.session_seed == (pinned(text_given(seed), 32) is Some),
        r.token == (pinned(text_given(token), 16) is Some),
        r.pin == (pin is Some),
        r.yes == (yes matches Some(value) && value@ == "1"@),
{
    TestHooks {
        session_seed: test_env_bytes::<32>(seed).is_some(),
        token: test_env_bytes::<16>(token).is_some(),
        pin: pin.is_some(),
        yes: confirms_itself(false, yes),
    }
}

/// What the operator is told of the values of the test hooks' variables: the
/// hooks in effect are exactly those that the session goes by.
pub fn warn_about_test_hooks(
    seed: Option<&str>,
    token: Option<&str>,
    pin: Option<&str>,
    yes: Option<&str>,
) -> (r: Vec<Line>)
    ensures
        said(r@) == hooks_told(
            TestHooks {
                session_seed: pinned(text_given(seed), 32) is Some,
                token: pinned(text_given(token), 16) is Some,
                pin: pin is Some,
                yes: yes matches Some(value) && value@ == "1"@,
            },
        ),
{
    test_hook_warnings(&hooks_in_effect(seed, token, pin, yes))
}

/// No hook takes effect silently.
pub fn test_hook_warnings(hooks: &TestHooks) -> (r: Vec<Line>)
    ensures
        said(r@) == hooks_told(*hooks),
{
    let mut lines: Vec<Line> = Vec::new();
    if !(hooks.session_seed || hooks.token || hooks.pin || hooks.yes) {
        assert(said(lines@) =~= Seq::<Said>::empty());
        return lines;
    }
    say(&mut lines, Line::Warn("test hooks are set — this bind is NOT secure:".to_owned()));
    assert(said(lines@) =~= seq![Said::Warn("test hooks are set — this bind is NOT secure:"@)]);
    say_when(
        &mut lines,
        hooks.session_seed,
        Line::Warn("    MPX_BIND_TEST_SESSION_SEED: session key is fixed, not random".to_owned()),
    );
    say_when(
        &mut lines,
        hooks.token,
        Line::Warn("    MPX_BIND_TEST_TOKEN: token is fixed, not random".to_owned()),
    );
    say_when(
        &mut lines,
        hooks.pin,
        Line::Warn("    MPX_BIND_TEST_PIN: PIN is fixed, not random".to_owned()),
    );
    say_when(
        &mut lines,
        hooks.yes,
        Line::Warn("    MPX_BIND_TEST_YES: enrollment skips the confirmation prompt".to_owned()),
    );
    say(
        &mut lines,
        Line::Warn("    unset them before binding a machine you care about".to_owned()),
    );
    assert(said(lines@) =~= hooks_told(*hooks));
    lines
}

/// Which user name the app is to connect as: the one that was asked for, the
/// current one, or `root`.
pub fn ssh_user(asked: Option<&str>, current: Option<&str>) -> (r: String)
    ensures
        r@ == (match asked {
            Some(user) => user@,
            None => match current {
                Some(user) => user@,
                None => "root"@,
            },
        }),
{
    match asked {
        Some(user) => user.to_owned(),
        None => match current {
            Some(user) => user.to_owned(),
            None => "root".to_owned(),
        },
    }
}

/// Which name the app shows: the one that was asked for, or the machine's.
pub fn shown_name(asked: Option<&str>, hostname: Option<&str>) -> (r: String)
    ensures
        r@ == (match asked {
            Some(name) => name@,
            None => name_of(
                match hostname {
                    Some(name) => Some(name@),
                    None => None,
                },
            ),
        }),
{
    match asked {
        Some(name) => name.to_owned(),
        None => machine_name(hostname),
    }
}

/// Which addresses are offered: those that were given in place of the detected
/// ones, if any were.
pub fn offered_addrs(given: &Vec<String>, interfaces: &Vec<Interface>) -> (r: Vec<String>)
    ensures
        views(r@) == (if given@.len() == 0 { addrs_of(interfaces@) } else { views(given@) }),
{
    if given.len() == 0 {
        local_addrs(interfaces)
    } else {
        let mut addrs: Vec<String> = Vec::new();
        append_all(&mut addrs, given);
        assert(views(addrs@) =~= views(given@));
        addrs
    }
}

/// The line that an offer begins with.
pub open spec fn header_of(
    name: Seq<char>,
    addrs: Seq<Seq<char>>,
    ssh_port: nat,
    user: Seq<char>,
) -> Seq<char> {
    "● multiplex bind · "@ + name + " ("@ + (if addrs.len() == 0 {
        "no LAN address"@
    } else {
        join_of(addrs, ", "@)
    }) + " · ssh :"@ + decimal_of(ssh_port) + " · user "@ + user + ")"@
}

/// The line that an offer begins with.
pub fn header(name: &str, addrs: &Vec<String>, ssh_port: u16, user: &str) -> (r: Line)
    ensures
        r@ == Said::Plain(header_of(name@, views(addrs@), ssh_port as nat, user@)),
{
    let summary = if addrs.len() == 0 {
        "no LAN address".to_owned()
    } else {
        join(addrs, ", ")
    };
    let mut line = cat3("● multiplex bind · ", name, " (");
    line.append(summary.as_str());
    line.append(" · ssh :");
    push_decimal(&mut line, ssh_port as u64);
    line.append(" · user ");
    line.append(user);
    line.append(")");
    Line::Plain(line)
}

/// What the operator is told of the host keys.
pub fn host_key_line(hostkeys: &Vec<String>, dir: &str) -> (r: Line)
    ensures
        r@ == (if hostkeys@.len() > 0 {
            Said::Done("host keys read — "@ + hostkeys@[0]@)
        } else {
            Said::Warn("no host keys under "@ + dir@ + " — the app will connect unpinned"@)
        }),
{
    if hostkeys.len() > 0 {
        Line::Done(cat("host keys read — ", hostkeys[0].as_str()))
    } else {
        Line::Warn(cat3("no host keys under ", dir, " — the app will connect unpinned"))
    }
}

/// What the operator is told if the port cannot be listened on.
pub fn listen_failure(port: u16, why: &str) -> (r: Line)
    ensures
        r@ == Said::Warn("cannot listen on port "@ + decimal_of(port as nat) + ": "@ + why@),
{
    let mut line = "cannot listen on port ".to_owned();
    push_decimal(&mut line, port as u64);
    line.append(": ");
    line.append(why);
    Line::Warn(line)
}

/// What the operator is told of the announcement: that it is made, or why not.
pub fn announce_line(failure: Option<&str>) -> (r: Line)
    ensures
        r@ == (match failure {
            None => Said::Done("announcing on your network — visible to Multiplex nearby"@),
            Some(why) => Said::Warn(
                "announce unavailable ("@ + why@ + ") — QR, clipboard, and PIN still work"@,
            ),
        }),
{
    match failure {
        None => Line::Done("announcing on your network — visible to Multiplex nearby".to_owned()),
        Some(why) => Line::Warn(
            cat3("announce unavailable (", why, ") — QR, clipboard, and PIN still work"),
        ),
    }
}

/// The payload of a handshake offer.
pub fn handshake_payload(
    addrs: Vec<IpAddr>,
    port: u16,
    spub: [u8; 32],
    token: [u8; 16],
    name: &str,
) -> (r: Payload)
    ensures
        r@ == (PayloadState {
            addrs: addr_views(addrs@),
            port: port as nat,
            spub: spub@,
            token: token@,
            name: name@,
            offline: None,
        }),
{
    Payload { addrs, port, spub, token, name: name.to_owned(), offline: None }
}

/// The panel beside a handshake offer's code.
pub open spec fn panel_of(pin: Seq<char>, lifetime: nat) -> Seq<Seq<char>> {
    seq![
        ""@,
        "scan with Multiplex on iPhone"@,
        "or iPad, or confirm the PIN"@,
        "it discovers on your network:"@,
        ""@,
        "PIN  "@ + join_of(singles(pin), " "@),
        ""@,
        "expires in "@ + decimal_of(lifetime / 60) + ":"@ + padded_of(lifetime % 60, 2)
            + " · single use"@,
    ]
}

/// The panel beside a handshake offer's code.
pub fn bind_panel(pin: &str, lifetime: u64) -> (r: Vec<String>)
    ensures
        views(r@) == panel_of(pin@, lifetime as nat),
{
    let mut left = "expires in ".to_owned();
    push_decimal(&mut left, lifetime / 60);
    left.append(":");
    push_padded(&mut left, lifetime % 60, 2);
    left.append(" · single use");
    let panel = vec![
        "".to_owned(),
        "scan with Multiplex on iPhone".to_owned(),
        "or iPad, or confirm the PIN".to_owned(),
        "it discovers on your network:".to_owned(),
        "".to_owned(),
        cat("PIN  ", spaced_digits(pin).as_str()),
        "".to_owned(),
        left,
    ];
    assert(views(panel@) =~= panel_of(pin@, lifetime as nat));
    panel
}

/// The panel beside an offline offer's code.
pub open spec fn offline_panel_of() -> Seq<Seq<char>> {
    seq![
        ""@,
        "scan or paste this in Multiplex."@,
        "It works over SSH alone — no"@,
        "local network needed."@,
        ""@,
        "The app replaces this key with"@,
        "one of its own as soon as it"@,
        "connects."@,
    ]
}

/// The panel beside an offline offer's code.
pub fn offline_panel() -> (r: Vec<String>)
    ensures
        views(r@) == offline_panel_of(),
{
    let panel = vec![
        "".to_owned(),
        "scan or paste this in Multiplex.".to_owned(),
        "It works over SSH alone — no".to_owned(),
        "local network needed.".to_owned(),
        "".to_owned(),
        "The app replaces this key with".to_owned(),
        "one of its own as soon as it".to_owned(),
        "connects.".to_owned(),
    ];
    assert(views(panel@) =~= offline_panel_of());
    panel
}

/// The key type, the material and the comment that a generated key is installed
/// under, if its public half can be read.
pub open spec fn installed_as(public: Seq<char>, id: Seq<char>, name: Seq<char>) -> Option<
    (Seq<char>, Seq<char>, Seq<char>),
> {
    let fields = fields_of(public);
    if fields.len() < 2 {
        None
    } else {
        Some((fields[0], fields[1], MARKER_PREFIX@ + id + ":"@ + slug_of(name)))
    }
}

/// The key type, the material and the comment that a generated key is installed
/// under.
pub fn offline_line(public: &str, id: &str, name: &str) -> (r: Option<(String, String, String)>)
    ensures
        match r {
            Some((key_type, material, comment)) => installed_as(public@, id@, name@) == Some(
                (key_type@, material@, comment@),
            ),
            None => installed_as(public@, id@, name@) is None,
        },
{
    let fields = split_fields(public);
    if fields.len() < 2 {
        return None;
    }
    let mut comment = cat3(MARKER_PREFIX, id, ":");
    comment.append(device_slug(name).as_str());
    assert(views(fields@)[0] == fields@[0]@);
    assert(views(fields@)[1] == fields@[1]@);
    Some((fields[0].clone(), fields[1].clone(), comment))
}

/// The OpenSSH line of the ed25519 public key that belongs to a private seed.
pub uninterp spec fn openssh_line(seed: Seq<u8>) -> Seq<char>;

/// Calls `PrivateKey::random` for ed25519, and `to_openssh` on the public half.
/// Gives the public half's line and the private seed. Trusted: there is a seed,
/// and the line is that of the public key derived from it: `ssh-ed25519` and
/// the material, without a comment. Nothing is said of which seed it is.
#[verifier::external_body]
fn generate_key() -> (r: Result<(String, Option<[u8; 32]>), String>)
    ensures
        r matches Ok((public, seed)) ==> {
            &&& seed matches Some(s) && public@ == openssh_line(s@)
            &&& fields_of(public@).len() == 2 && fields_of(public@)[0] == "ssh-ed25519"@
        },
{
    let key = PrivateKey::random(&mut OsRng, Algorithm::Ed25519).map_err(|err| err.to_string())?;
    let public = key.public_key().to_openssh().map_err(|err| err.to_string())?;
    let seed = key.key_data().ed25519().map(|pair| pair.private.to_bytes());
    Ok((public, seed))
}

/// A generated key, as it is installed.
pub struct Install {
    pub key_type: String,
    pub material: String,
    pub comment: String,
    pub seed: [u8; 32],
}

/// How a generated key is installed, or what the operator is told if it cannot
/// be.
pub fn install_of(generated: Result<(String, Option<[u8; 32]>), String>, id: &str, name: &str) -> (r:
    Result<Install, Line>)
    ensures
        match generated {
            Err(why) => r matches Err(line) && line@ == Said::Warn("keygen failed: "@ + why@),
            Ok((public, None)) => r matches Err(line) && line@ == Said::Warn(
                "keygen produced a non-ed25519 key"@,
            ),
            Ok((public, Some(seed))) => match installed_as(public@, id@, name@) {
                Some((key_type, material, comment)) => r matches Ok(install) && install.key_type@
                    == key_type && install.material@ == material && install.comment@ == comment
                    && install.seed == seed,
                None => r matches Err(line) && line@ == Said::Warn(
                    "keygen produced an unreadable public key"@,
                ),
            },
        },
{
    let (public, seed) = match generated {
        Ok(key) => key,
        Err(why) => {
            return Err(Line::Warn(cat("keygen failed: ", why.as_str())));
        },
    };
    let seed = match seed {
        Some(seed) => seed,
        None => {
            return Err(Line::Warn("keygen produced a non-ed25519 key".to_owned()));
        },
    };
    match offline_line(public.as_str(), id, name) {
        Some((key_type, material, comment)) => Ok(Install { key_type, material, comment, seed }),
        None => Err(Line::Warn("keygen produced an unreadable public key".to_owned())),
    }
}

/// Generates a key for an offline offer, to be installed under a random id and
/// the slug of the machine's name. What is installed is the public half of the
/// seed.
pub fn generate_install(name: &str) -> (r: Result<Install, Line>)
    ensures
        match r {
            Ok(install) => install.key_type@ == "ssh-ed25519"@ && exists|id: Seq<u8>|
                id.len() == 4 && installed_as(
                    openssh_line(install.seed@),
                    #[trigger] hex_of(id),
                    name@,
                ) == Some((install.key_type@, install.material@, install.comment@)),
            Err(line) => exists|why: Seq<char>|
                line@ == Said::Warn(#[trigger] ("keygen failed: "@ + why)),
        },
{
    let id = random_id8();
    install_of(generate_key(), id.as_str(), name)
}

/// What the operator is told once a generated key is installed.
pub fn offline_installed(path: &str, comment: &str) -> (r: Line)
    ensures
        r@ == Said::Done(
            "keypair generated · public key installed → "@ + path@ + " ("@ + comment@ + ")"@,
        ),
{
    let mut line = cat3("keypair generated · public key installed → ", path, " (");
    line.append(comment);
    line.append(")");
    Line::Done(line)
}

/// What comes next in installing a generated key.
pub enum OfflineStep {
    /// Replace the content of the key file.
    Write(String),
    /// The key is in the file: publish the payload.
    Publish,
    /// Nothing is published; the operator is told why.
    Fail(Line),
}

/// What the operator is told if a generated key could not be installed.
pub fn offline_unwritten(path: &str, why: &str) -> (r: Line)
    ensures
        r@ == Said::Warn("could not write "@ + path@ + ": "@ + why@),
{
    cannot("could not write ", path, why)
}

/// Installs a generated key in what reading the key file came to.
pub fn offline_enroll(install: &Install, path: &str, file: &FileRead) -> (r: OfflineStep)
    ensures
        match content_of(*file) {
            Ok(content) => if enrolled(lines_of(content), install.material@) is Some {
                r is Publish
            } else {
                r matches OfflineStep::Write(text) && text@ == with_key(
                    content,
                    install.key_type@,
                    install.material@,
                    install.comment@,
                )
            },
            Err(e) => r matches OfflineStep::Fail(line) && line@ == Said::Warn(
                "could not write "@ + path@ + ": "@ + e.told(),
            ),
        },
{
    match ensure_line(
        file,
        install.key_type.as_str(),
        install.material.as_str(),
        install.comment.as_str(),
    ) {
        Ok((_, Some(content))) => OfflineStep::Write(content),
        Ok((_, None)) => OfflineStep::Publish,
        Err(e) => OfflineStep::Fail(offline_unwritten(path, e.message().as_str())),
    }
}

/// What comes of writing the key file.
pub fn offline_saved(path: &str, failure: Option<&str>) -> (r: OfflineStep)
    ensures
        match failure {
            None => r is Publish,
            Some(why) => r matches OfflineStep::Fail(line) && line@ == Said::Warn(
                "could not write "@ + path@ + ": "@ + why@,
            ),
        },
{
    match failure {
        None => OfflineStep::Publish,
        Some(why) => OfflineStep::Fail(offline_unwritten(path, why)),
    }
}

/// What an offline offer says of the machine beside the key.
pub struct OfflineTerms {
    pub name: String,
    pub user: String,
    pub ssh_port: u16,
    /// The key file, if it is not the default one.
    pub authorized_keys: Option<String>,
    pub hostkey_sha256: Option<[u8; 32]>,
}

/// What the payload of an offline offer says: there is no listener, so port,
/// session key and token are zero, and it carries the seed.
pub open spec fn offline_state(
    terms: OfflineTerms,
    addrs: Seq<Addr>,
    seed: Seq<u8>,
) -> PayloadState {
    PayloadState {
        addrs,
        port: 0,
        spub: zeros(32),
        token: zeros(16),
        name: terms.name@,
        offline: Some(
            KeyState {
                ssh_user: terms.user@,
                ssh_port: terms.ssh_port as nat,
                seed,
                authorized_keys: match terms.authorized_keys {
                    Some(path) => Some(path@),
                    None => None,
                },
                hostkey_sha256: match terms.hostkey_sha256 {
                    Some(digest) => Some(digest@),
                    None => None,
                },
            },
        ),
    }
}

/// The payload of an offline offer: it carries the seed of the key that was
/// installed.
pub fn offline_payload(terms: OfflineTerms, addrs: Vec<IpAddr>, install: &Install) -> (r: Payload)
    ensures
        r@ == offline_state(terms, addr_views(addrs@), install.seed@),
{
    let r = Payload {
        addrs,
        port: 0,
        spub: [0u8; 32],
        token: [0u8; 16],
        name: terms.name,
        offline: Some(
            OfflineKey {
                ssh_user: terms.user,
                ssh_port: terms.ssh_port,
                seed: install.seed,
                authorized_keys: terms.authorized_keys,
                hostkey_sha256: terms.hostkey_sha256,
            },
        ),
    };
    assert(r@.spub =~= zeros(32));
    assert(r@.token =~= zeros(16));
    r
}

proof fn lemma_hex_is_plain(bytes: Seq<u8>)
    ensures
        forall|i: int|
            0 <= i < hex_of(bytes).len() ==> !is_white(#[trigger] hex_of(bytes)[i])
                && hex_of(bytes)[i] != ':',
{
    assert forall|i: int| 0 <= i < hex_of(bytes).len() implies !is_white(
        #[trigger] hex_of(bytes)[i],
    ) && hex_of(bytes)[i] != ':' by {
        let n = if i % 2 == 0 { bytes[i / 2] / 16 } else { bytes[i / 2] % 16 };
        assert(hex_of(bytes)[i] == hex_digit(n as int));
    }
}

/// The payload of an offline offer carries the private half of the key that was
/// installed: its URL reads as a payload without listener whose seed is that of
/// the public key on the line that was added, and the line can be found by its
/// marker.
pub proof fn an_offline_payload_opens_the_installed_key(
    terms: OfflineTerms,
    addrs: Seq<Addr>,
    seed: Seq<u8>,
    id: Seq<u8>,
    material: Seq<char>,
    comment: Seq<char>,
    content: Seq<char>,
)
    requires
        installed_as(openssh_line(seed), hex_of(id), terms.name@) == Some(
            ("ssh-ed25519"@, material, comment),
        ),
        sized(offline_state(terms, addrs, seed)),
        legible(wire_of(offline_state(terms, addrs, seed))),
    ensures
        url_decoded(url_of(offline_state(terms, addrs, seed))) matches Some(read) && {
            &&& read.port == 0 && read.spub == zeros(32) && read.token == zeros(16)
            &&& read.offline matches Some(key) && key.seed == seed
        },
        ({
            let line = lines_of(with_key(content, "ssh-ed25519"@, material, comment)).last();
            &&& fields_of(openssh_line(seed))[0] == "ssh-ed25519"@
            &&& fields_of(openssh_line(seed))[1] == material
            &&& mark_of(line) == Some(
                Mark {
                    id: hex_of(id),
                    device: slug_of(terms.name@),
                    key_type: "ssh-ed25519"@,
                    line: key_line("ssh-ed25519"@, material, comment),
                },
            )
            &&& parsed_line(line) == Some(
                KeyLine { key_type: "ssh-ed25519"@, material, comment },
            )
        }),
{
    let p = offline_state(terms, addrs, seed);
    let public = openssh_line(seed);
    written_payloads_are_read_back(p, Seq::empty());
    assert(wire_bytes(wire_of(p)) + Seq::<u8>::empty() =~= wire_bytes(wire_of(p)));
    urls_are_read_back(p);
    kept_payloads_are_capped(p);
    reveal_strlit("ssh-ed25519");
    reveal_strlit("ssh-");
    let key_type = "ssh-ed25519"@;
    assert("ssh-"@.is_prefix_of(key_type));
    lemma_fields_are_words(public);
    assert(is_word(fields_of(public)[0]) && is_word(fields_of(public)[1]));
    assert(plain_key(key_type, material));
    lemma_hex_is_plain(id);
    slugs_are_clean(terms.name@);
    assert forall|i: int| 0 <= i < slug_of(terms.name@).len() implies !is_white(
        #[trigger] slug_of(terms.name@)[i],
    ) by {}
    assert(comment =~= marker(hex_of(id), slug_of(terms.name@)));
    lemma_marker_is_word(hex_of(id), slug_of(terms.name@));
    added_keys_are_listed_and_can_be_removed(
        content,
        key_type,
        material,
        hex_of(id),
        slug_of(terms.name@),
    );
    one_word_is_settled(comment);
    written_lines_are_read_back(key_type, material, comment);
    assert forall|i: int| 0 <= i < comment.len() implies #[trigger] comment[i] != '\n' by {
        assert(!is_white(comment[i]));
    }
    adding_keeps_the_rest(content, key_type, material, comment, material);
    lemma_chomped(key_line(key_type, material, comment));
}

/// What the operator is told of an offline payload.
pub fn offline_warning() -> (r: Line)
    ensures
        r@ == Said::Warn(
            "this payload CONTAINS a private key — treat the QR and clipboard like a password"@,
        ),
{
    Line::Warn(
        "this payload CONTAINS a private key — treat the QR and clipboard like a password".to_owned(),
    )
}

/// What an offer waits with.
pub open spec fn waiting_told(announced: bool) -> Seq<Said> {
    seq![Said::Plain(""@), Said::Wait("waiting for Multiplex…  (Ctrl-C cancels)"@)] + when(
        announced,
        Said::Note(
            "this terminal confirms the bind — if Multiplex reports success and nothing appears here,\n  it enrolled somewhere else: Ctrl-C, delete that host in the app, and prefer the QR."@,
        ),
    )
}

/// What an offer waits with. What answers for a discovered machine is
/// authenticated by nothing, so an announced offer says where to look.
pub fn waiting(announced: bool) -> (r: Vec<Line>)
    ensures
        said(r@) == waiting_told(announced),
{
    let mut lines: Vec<Line> = Vec::new();
    say(&mut lines, Line::Plain("".to_owned()));
    say(&mut lines, Line::Wait("waiting for Multiplex…  (Ctrl-C cancels)".to_owned()));
    say_when(
        &mut lines,
        announced,
        Line::Note(
            "this terminal confirms the bind — if Multiplex reports success and nothing appears here,\n  it enrolled somewhere else: Ctrl-C, delete that host in the app, and prefer the QR.".to_owned(),
        ),
    );
    assert(said(lines@) =~= waiting_told(announced));
    lines
}

/// What the operator is asked, or told where the answer is given in advance.
pub open spec fn request_of(
    device: Seq<char>,
    user: Seq<char>,
    name: Seq<char>,
    auto_yes: bool,
) -> Seq<char> {
    "→ "@ + (if device.len() == 0 { "A device"@ } else { device }) + " asks to bind as "@ + user
        + "@"@ + name + (if auto_yes {
        " — enrolling (--yes)"@
    } else {
        " — enroll? [Y/n] "@
    })
}

/// What the operator is asked, or told where the answer is given in advance.
pub fn bind_request(device: &str, user: &str, name: &str, auto_yes: bool) -> (r: String)
    ensures
        r@ == request_of(device@, user@, name@, auto_yes),
{
    let mut line = cat3(
        "→ ",
        if device.unicode_len() == 0 {
            "A device"
        } else {
            device
        },
        " asks to bind as ",
    );
    line.append(user);
    line.append("@");
    line.append(name);
    line.append(
        if auto_yes {
            " — enrolling (--yes)"
        } else {
            " — enroll? [Y/n] "
        },
    );
    line
}

/// Whether enrollment goes without a prompt: by the flag, or by the test hook
/// set to `1`.
pub fn confirms_itself(yes: bool, hook: Option<&str>) -> (r: bool)
    ensures
        r == (yes || (hook matches Some(value) && value@ == "1"@)),
{
    yes || match hook {
        Some(value) => same(value, "1"),
        None => false,
    }
}

pub open spec fn lowered(s: Seq<char>) -> Seq<char> {
    Seq::new(s.len(), |i: int| lower_of(s[i]))
}

/// Whether the operator's line means yes: nothing, `y` or `yes`, in any case of
/// letters.
pub open spec fn means_yes(line: Seq<char>) -> bool {
    let answer = lowered(trim_of(line));
    answer.len() == 0 || answer == "y"@ || answer == "yes"@
}

/// Whether the operator's line means yes.
pub fn accepts(line: &str) -> (r: bool)
    ensures
        r == means_yes(line@),
{
    let trimmed = trim(line);
    let chars = chars_of(trimmed.as_str());
    let mut answer = String::new();
    let mut i: usize = 0;
    while i < chars.len()
        invariant
            chars@ == trimmed@,
            i <= chars@.len(),
            answer@ == lowered(chars@.take(i as int)),
        decreases chars.len() - i,
    {
        answer.push(lower(chars[i]));
        assert(answer@ =~= lowered(chars@.take(i + 1)));
        i = i + 1;
    }
    assert(chars@.take(i as int) == chars@);
    chars.len() == 0 || same(answer.as_str(), "y") || same(answer.as_str(), "yes")
}

/// What the operator is told while a session goes on.
pub open spec fn progress_told(event: ServerEvent) -> Seq<Said> {
    match event {
        ServerEvent::WrongPin { remaining } => seq![
            Said::Warn("wrong PIN ("@ + decimal_of(remaining as nat) + " tries left)"@),
        ],
        ServerEvent::PinRetired => seq![
            Said::Warn("too many wrong PINs — PIN entry is off for this offer"@),
            Said::Note("  the QR still works; re-run `mpx bind` for a fresh PIN"@),
        ],
    }
}

/// What the operator is told while a session goes on.
pub fn progress(event: &ServerEvent) -> (r: Vec<Line>)
    ensures
        said(r@) == progress_told(*event),
{
    let mut lines: Vec<Line> = Vec::new();
    match event {
        ServerEvent::WrongPin { remaining } => {
            let mut line = "wrong PIN (".to_owned();
            push_decimal(&mut line, *remaining as u64);
            line.append(" tries left)");
            say(&mut lines, Line::Warn(line));
        },
        ServerEvent::PinRetired => {
            say(
                &mut lines,
                Line::Warn("too many wrong PINs — PIN entry is off for this offer".to_owned()),
            );
            say(
                &mut lines,
                Line::Note("  the QR still works; re-run `mpx bind` for a fresh PIN".to_owned()),
            );
        },
    }
    assert(said(lines@) =~= progress_told(*event));
    lines
}

/// What the operator is told of a session's end, and the exit code.
pub open spec fn outcome_told(outcome: BindOutcome, path: Seq<char>, name: Seq<char>) -> (
    Seq<Said>,
    int,
) {
    match outcome {
        BindOutcome::Enrolled { device, comment, acknowledged } => (
            seq![Said::Done("key enrolled → "@ + path + " ("@ + comment@ + ")"@)] + when(
                !acknowledged,
                Said::Warn("the device never acknowledged it — if this wasn't your device,"@),
            ) + when(
                !acknowledged,
                Said::Warn("  remove it with `mpx unbind "@ + id_in(comment@) + "`"@),
            ) + seq![Said::Done("bound. Multiplex has "@ + name + " on the wall."@)],
            0,
        ),
        BindOutcome::Expired => (
            seq![Said::Warn("offer expired with no bind — run `mpx bind` again"@)],
            2,
        ),
        BindOutcome::Declined => (seq![Said::Note("declined — nothing was enrolled"@)], 1),
        BindOutcome::Canceled => (seq![Said::Note("canceled — nothing was enrolled"@)], 130),
    }
}

/// What the operator is told of a session's end, and the exit code. A key that
/// was enrolled is reported whether or not the device acknowledged it.
pub fn report(outcome: &BindOutcome, path: &str, name: &str) -> (r: (Vec<Line>, i32))
    ensures
        said(r.0@) == outcome_told(*outcome, path@, name@).0,
        r.1 == outcome_told(*outcome, path@, name@).1,
{
    let mut lines: Vec<Line> = Vec::new();
    let code: i32 = match outcome {
        BindOutcome::Enrolled { device: _, comment, acknowledged } => {
            let mut line = cat3("key enrolled → ", path, " (");
            line.append(comment.as_str());
            line.append(")");
            say(&mut lines, Line::Done(line));
            say_when(
                &mut lines,
                !*acknowledged,
                Line::Warn(
                    "the device never acknowledged it — if this wasn't your device,".to_owned(),
                ),
            );
            say_when(
                &mut lines,
                !*acknowledged,
                Line::Warn(
                    cat3(
                        "  remove it with `mpx unbind ",
                        marker_id8(comment.as_str()).as_str(),
                        "`",
                    ),
                ),
            );
            say(&mut lines, Line::Done(cat3("bound. Multiplex has ", name, " on the wall.")));
            0
        },
        BindOutcome::Expired => {
            say(
                &mut lines,
                Line::Warn("offer expired with no bind — run `mpx bind` again".to_owned()),
            );
            2
        },
        BindOutcome::Declined => {
            say(&mut lines, Line::Note("declined — nothing was enrolled".to_owned()));
            1
        },
        BindOutcome::Canceled => {
            say(&mut lines, Line::Note("canceled — nothing was enrolled".to_owned()));
            130
        },
    };
    assert(said(lines@) =~= outcome_told(*outcome, path@, name@).0);
    (lines, code)
}

/// Lines as they are.
pub open spec fn plain_lines(lines: Seq<Seq<char>>) -> Seq<Said> {
    Seq::new(lines.len(), |i: int| Said::Plain(lines[i]))
}

/// Lines, two columns in.
pub open spec fn indented(lines: Seq<Seq<char>>) -> Seq<Said> {
    Seq::new(lines.len(), |i: int| Said::Plain("  "@ + lines[i]))
}

fn say_all(lines: &mut Vec<Line>, more: &Vec<String>)
    ensures
        said(final(lines)@) == said(old(lines)@) + plain_lines(views(more@)),
{
    let ghost before = said(lines@);
    let mut i: usize = 0;
    assert(before =~= before + plain_lines(views(more@)).take(0));
    while i < more.len()
        invariant
            i <= more@.len(),
            before == said(old(lines)@),
            said(lines@) == before + plain_lines(views(more@)).take(i as int),
        decreases more.len() - i,
    {
        say(lines, Line::Plain(more[i].clone()));
        assert(said(lines@) =~= before + plain_lines(views(more@)).take(i + 1));
        i = i + 1;
    }
    assert(plain_lines(views(more@)).take(i as int) == plain_lines(views(more@)));
}

fn say_indented(lines: &mut Vec<Line>, more: &Vec<String>)
    ensures
        said(final(lines)@) == said(old(lines)@) + indented(views(more@)),
{
    let ghost before = said(lines@);
    let mut i: usize = 0;
    assert(before =~= before + indented(views(more@)).take(0));
    while i < more.len()
        invariant
            i <= more@.len(),
            before == said(old(lines)@),
            said(lines@) == before + indented(views(more@)).take(i as int),
        decreases more.len() - i,
    {
        say(lines, Line::Plain(cat("  ", more[i].as_str())));
        assert(said(lines@) =~= before + indented(views(more@)).take(i + 1));
        i = i + 1;
    }
    assert(indented(views(more@)).take(i as int) == indented(views(more@)));
}

/// The row of a code at which a panel starts that is centred against it.
pub open spec fn panel_top(rows: nat, panel: nat) -> int {
    if rows > panel { (rows - panel) / 2 } else { 0 }
}

/// A row of a code with the panel's line beside it, if that is not empty.
pub open spec fn beside(rows: Seq<Seq<char>>, panel: Seq<Seq<char>>, i: int) -> Seq<char> {
    let at = i - panel_top(rows.len(), panel.len());
    if 0 <= at < panel.len() && panel[at].len() > 0 {
        rows[i] + repeated(' ', (widest_of(rows) - rows[i].len()) as nat) + "  "@ + panel[at]
    } else {
        rows[i]
    }
}

/// A code with a panel to its right.
pub open spec fn side_by_side_of(rows: Seq<Seq<char>>, panel: Seq<Seq<char>>) -> Seq<Seq<char>> {
    Seq::new(rows.len(), |i: int| beside(rows, panel, i))
}

/// Appends spaces.
fn push_spaces(out: &mut String, count: usize)
    ensures
        final(out)@ == old(out)@ + repeated(' ', count as nat),
{
    let mut i: usize = 0;
    assert(out@ =~= old(out)@ + repeated(' ', 0));
    while i < count
        invariant
            i <= count,
            out@ == old(out)@ + repeated(' ', i as nat),
        decreases count - i,
    {
        out.push(' ');
        i = i + 1;
        assert(out@ =~= old(out)@ + repeated(' ', i as nat));
    }
}

/// A code with a panel to its right, centred against it.
pub fn side_by_side(art: &str, panel: &Vec<String>) -> (r: Vec<String>)
    ensures
        views(r@) == side_by_side_of(lines_of(art@), views(panel@)),
{
    let rows = split_lines(art);
    let across = width(art);
    let top: usize = if rows.len() > panel.len() { (rows.len() - panel.len()) / 2 } else { 0 };
    let mut out: Vec<String> = Vec::new();
    let mut i: usize = 0;
    proof {
        lemma_widest(lines_of(art@));
    }
    while i < rows.len()
        invariant
            views(rows@) == lines_of(art@),
            across == widest_of(lines_of(art@)),
            forall|k: int|
                0 <= k < lines_of(art@).len() ==> (#[trigger] lines_of(art@)[k]).len() <= across,
            top == panel_top(lines_of(art@).len(), views(panel@).len()),
            i <= rows@.len(),
            out@.len() == i,
            forall|k: int|
                0 <= k < i ==> (#[trigger] out@[k])@ == beside(lines_of(art@), views(panel@), k),
        decreases rows.len() - i,
    {
        let mut line = rows[i].clone();
        assert(lines_of(art@)[i as int] == rows@[i as int]@);
        if i >= top && i - top < panel.len() && panel[i - top].as_str().unicode_len() > 0 {
            assert(views(panel@)[i - top] == panel@[i - top]@);
            let pad: usize = across - line.as_str().unicode_len();
            push_spaces(&mut line, pad);
            line.append("  ");
            line.append(panel[i - top].as_str());
        }
        out.push(line);
        i = i + 1;
    }
    assert(views(out@) =~= side_by_side_of(lines_of(art@), views(panel@)));
    out
}

/// What the operator is told of copying.
pub open spec fn copy_told(url: Seq<char>, copied: Option<CopyOutcome>, in_tmux: bool) -> Seq<Said> {
    match copied {
        Some(CopyOutcome::Copied(way)) => seq![
            Said::Done("payload copied to clipboard ("@ + way@ + ")"@),
        ] + when(
            in_tmux,
            Said::Note(
                "  "@
                    + "inside tmux, OSC 52 needs `set -g allow-passthrough on` in the host's tmux.conf"@,
            ),
        ),
        Some(CopyOutcome::Failed) => seq![
            Said::Warn("clipboard unavailable — scan the QR or copy the line below"@),
            Said::Plain(url),
        ],
        None => Seq::empty(),
    }
}

/// How the code and the panel are laid out: beside each other where both fit 80
/// columns, else one under the other.
pub open spec fn layout_of(art: Option<Seq<char>>, panel: Seq<Seq<char>>) -> Seq<Said> {
    match art {
        Some(art) => seq![Said::Plain(""@)] + (if widest_of(lines_of(art)) + 2 + widest_of(panel)
            <= 80 {
            plain_lines(side_by_side_of(lines_of(art), panel))
        } else {
            seq![Said::Plain(art)] + indented(panel)
        }),
        None => indented(panel),
    }
}

/// What is printed of an offer, whose payload was copied if that was asked for,
/// and whose code is drawn as `art` unless none was asked for.
pub open spec fn published(
    url: Seq<char>,
    copied: Option<CopyOutcome>,
    in_tmux: bool,
    no_qr: bool,
    art: Option<Seq<char>>,
    panel: Seq<Seq<char>>,
) -> Seq<Said> {
    copy_told(url, copied, in_tmux) + (if !no_qr && art is None {
        seq![
            Said::Warn("payload too large for a QR — use the clipboard"@),
            Said::Plain(url),
        ]
    } else {
        Seq::empty()
    }) + layout_of(if no_qr { None } else { art }, panel) + when(
        copied is None && no_qr,
        Said::Plain(url),
    ) + when(
        copied is None,
        Said::Note("clipboard untouched — re-run with --copy to paste this into Multiplex"@),
    )
}

fn say_copied(lines: &mut Vec<Line>, url: &str, copied: &Option<CopyOutcome>, in_tmux: bool)
    ensures
        said(final(lines)@) == said(old(lines)@) + copy_told(url@, *copied, in_tmux),
{
    match copied {
        Some(CopyOutcome::Copied(way)) => {
            say(lines, Line::Done(cat3("payload copied to clipboard (", way, ")")));
            if let Some(hint) = tmux_passthrough_hint(in_tmux) {
                say(lines, Line::Note(cat("  ", hint)));
            }
        },
        Some(CopyOutcome::Failed) => {
            say(
                lines,
                Line::Warn("clipboard unavailable — scan the QR or copy the line below".to_owned()),
            );
            say(lines, Line::Plain(url.to_owned()));
        },
        None => {},
    }
    assert(said(lines@) =~= said(old(lines)@) + copy_told(url@, *copied, in_tmux));
}

fn say_layout(lines: &mut Vec<Line>, art: &Option<String>, panel: &Vec<String>)
    ensures
        said(final(lines)@) == said(old(lines)@) + layout_of(
            match art {
                Some(art) => Some(art@),
                None => None,
            },
            views(panel@),
        ),
{
    let ghost before = said(lines@);
    match art {
        Some(art) => {
            say(lines, Line::Plain("".to_owned()));
            let beside = widest(panel);
            if beside <= 78 && width(art.as_str()) <= 78 - beside {
                say_all(lines, &side_by_side(art.as_str(), panel));
                assert(said(lines@) =~= before + layout_of(Some(art@), views(panel@)));
            } else {
                say(lines, Line::Plain(art.clone()));
                say_indented(lines, panel);
                assert(said(lines@) =~= before + layout_of(Some(art@), views(panel@)));
            }
        },
        None => {
            say_indented(lines, panel);
        },
    }
}

/// What is printed of an offer, given the drawing of its code.
pub fn publish_drawn(
    url: &str,
    copied: &Option<CopyOutcome>,
    in_tmux: bool,
    no_qr: bool,
    art: Option<String>,
    panel: &Vec<String>,
) -> (r: Vec<Line>)
    ensures
        said(r@) == published(
            url@,
            *copied,
            in_tmux,
            no_qr,
            match art {
                Some(art) => Some(art@),
                None => None,
            },
            views(panel@),
        ),
{
    let mut lines: Vec<Line> = Vec::new();
    assert(said(lines@) =~= Seq::<Said>::empty());
    let asked = copied.is_some();
    let undrawn = art.is_none();
    say_copied(&mut lines, url, copied, in_tmux);
    assert(said(lines@) =~= copy_told(url@, *copied, in_tmux));
    if !no_qr && undrawn {
        say(
            &mut lines,
            Line::Warn("payload too large for a QR — use the clipboard".to_owned()),
        );
        say(&mut lines, Line::Plain(url.to_owned()));
    }
    let ghost told = said(lines@);
    let ghost first = copy_told(url@, *copied, in_tmux);
    proof {
        if !no_qr && undrawn {
            assert(told =~= first + seq![
                Said::Warn("payload too large for a QR — use the clipboard"@),
                Said::Plain(url@),
            ]);
        } else {
            assert(told =~= first + Seq::<Said>::empty());
        }
    }
    let drawn = if no_qr { None } else { art };
    say_layout(&mut lines, &drawn, panel);
    say_when(&mut lines, !asked && no_qr, Line::Plain(url.to_owned()));
    say_when(
        &mut lines,
        !asked,
        Line::Note(
            "clipboard untouched — re-run with --copy to paste this into Multiplex".to_owned(),
        ),
    );
    lines
}

/// What is printed of an offer.
pub fn publish_payload(
    url: &str,
    copied: &Option<CopyOutcome>,
    in_tmux: bool,
    no_qr: bool,
    panel: &Vec<String>,
) -> (r: Vec<Line>)
    ensures
        said(r@) == published(url@, *copied, in_tmux, no_qr, qr_art(url@), views(panel@)),
{
    let art = if no_qr { None } else { render(url) };
    let lines = publish_drawn(url, copied, in_tmux, no_qr, art, panel);
    assert(said(lines@) =~= published(
        url@,
        *copied,
        in_tmux,
        no_qr,
        qr_art(url@),
        views(panel@),
    ));
    lines
}

/// `s` with spaces behind it up to `width` characters.
pub open spec fn filled(s: Seq<char>, width: nat) -> Seq<char> {
    if s.len() < width { s + repeated(' ', (width - s.len()) as nat) } else { s }
}

/// The line that lists a key.
pub open spec fn listed(mark: Mark) -> Said {
    Said::Plain(mark.id + "  "@ + filled(mark.device, 24) + "  "@ + mark.key_type)
}

pub open spec fn listed_all(marks: Seq<Mark>) -> Seq<Said> {
    Seq::new(marks.len(), |i: int| listed(marks[i]))
}

/// What `unbind` says, and its exit code, if it does not go on to remove keys.
pub open spec fn unbind_told(
    list: bool,
    by_id: bool,
    all: bool,
    path: Seq<char>,
    file: FileRead,
) -> Option<(Seq<Said>, int)> {
    match content_of(file) {
        Err(e) => Some(
            (seq![Said::Warn("could not read "@ + path + ": "@ + e.told())], 1),
        ),
        Ok(content) => {
            let marks = marks_in(lines_of(content));
            if list || (!by_id && !all) {
                Some(
                    (
                        if marks.len() == 0 {
                            seq![Said::Note("no multiplex-enrolled keys in "@ + path)]
                        } else {
                            listed_all(marks) + when(
                                !list,
                                Said::Note(
                                    "remove one with `mpx unbind <id>` or all with `mpx unbind --all`"@,
                                ),
                            )
                        },
                        0,
                    ),
                )
            } else {
                None
            }
        },
    }
}

fn list_key(key: &MarkedKey) -> (r: Line)
    ensures
        r@ == listed(key@),
{
    let mut line = cat(key.id.as_str(), "  ");
    let len = key.device.as_str().unicode_len();
    line.append(key.device.as_str());
    if len < 24 {
        push_spaces(&mut line, 24 - len);
    }
    line.append("  ");
    line.append(key.key_type.as_str());
    assert(line@ =~= key.id@ + "  "@ + filled(key.device@, 24) + "  "@ + key.key_type@);
    Line::Plain(line)
}

fn cannot(what: &str, path: &str, why: &str) -> (r: Line)
    ensures
        r@ == Said::Warn(what@ + path@ + ": "@ + why@),
{
    let mut line = cat3(what, path, ": ");
    line.append(why);
    Line::Warn(line)
}

/// What `unbind` says, and its exit code, if it does not go on to remove keys.
/// A file that cannot be read is not one with nothing enrolled: that answer
/// would look like a revocation.
pub fn unbind(list: bool, id: Option<&str>, all: bool, path: &str, file: &FileRead) -> (r: Option<
    (Vec<Line>, i32),
>)
    ensures
        match unbind_told(list, id is Some, all, path@, *file) {
            Some((told, code)) => r matches Some((lines, c)) && said(lines@) == told && c == code,
            None => r is None,
        },
{
    let mut lines: Vec<Line> = Vec::new();
    let ghost (told, code) = unbind_told(list, id is Some, all, path@, *file)->0;
    let keys = match marked_keys(file) {
        Ok(keys) => keys,
        Err(e) => {
            say(&mut lines, cannot("could not read ", path, e.message().as_str()));
            assert(said(lines@) =~= told);
            return Some((lines, 1));
        },
    };
    if !(list || (id.is_none() && !all)) {
        return None;
    }
    let ghost marks = mark_views(keys@);
    if keys.len() == 0 {
        say(&mut lines, Line::Note(cat("no multiplex-enrolled keys in ", path)));
    } else {
        let mut i: usize = 0;
        while i < keys.len()
            invariant
                i <= keys@.len(),
                marks == mark_views(keys@),
                said(lines@) == listed_all(marks).take(i as int),
            decreases keys.len() - i,
        {
            say(&mut lines, list_key(&keys[i]));
            assert(marks[i as int] == keys@[i as int]@);
            assert(said(lines@) =~= listed_all(marks).take(i + 1));
            i = i + 1;
        }
        assert(listed_all(marks).take(i as int) =~= listed_all(marks));
        say_when(
            &mut lines,
            !list,
            Line::Note(
                "remove one with `mpx unbind <id>` or all with `mpx unbind --all`".to_owned(),
            ),
        );
    }
    assert(said(lines@) =~= told);
    Some((lines, 0))
}

/// Which lines of a key file are to go: all marked ones, or those under an id.
pub open spec fn selected(lines: Seq<Seq<char>>, all: bool, id: Seq<char>) -> Seq<bool> {
    Seq::new(lines.len(), |i: int| mark_of(lines[i]) matches Some(mark) && (all || mark.id == id))
}

/// What removing keys comes to.
pub struct Removal {
    /// What the file is to hold, if it changes.
    pub content: Option<String>,
    /// What the operator is told, once the file is written.
    pub lines: Vec<Line>,
    /// The exit code.
    pub code: i32,
}

pub open spec fn removed_all(marks: Seq<Mark>) -> Seq<Said> {
    Seq::new(
        marks.len(),
        |i: int| Said::Done("removed "@ + marks[i].id + " ("@ + marks[i].device + ")"@),
    )
}

proof fn lemma_picks<F: Fn(&MarkedKey) -> bool>(
    filter: F,
    lines: Seq<Seq<char>>,
    picks: Seq<bool>,
    all: bool,
    id: Seq<char>,
)
    requires
        answers(filter, lines, picks),
        forall|key: MarkedKey, pick: bool|
            call_ensures(filter, (&key,), pick) ==> pick == (all || key.id@ == id),
    ensures
        picks == selected(lines, all, id),
{
    assert forall|i: int| 0 <= i < lines.len() implies picks[i] == selected(lines, all, id)[i] by {
        assert(answers_at(filter, lines[i], picks[i]));
    }
    assert(picks =~= selected(lines, all, id));
}

/// Takes all marked keys, or those under an id, out of a key file.
pub fn unbind_remove(all: bool, id: &str, path: &str, file: &FileRead) -> (r: Removal)
    ensures
        match content_of(*file) {
            Err(e) => {
                &&& r.content is None
                &&& said(r.lines@) == seq![
                    Said::Warn("could not rewrite "@ + path@ + ": "@ + e.told()),
                ]
                &&& r.code == 1
            },
            Ok(content) => {
                let lines = lines_of(content);
                let picks = selected(lines, all, id@);
                let marks = picked_marks(lines, picks);
                if marks.len() == 0 {
                    &&& r.content is None
                    &&& said(r.lines@) == seq![Said::Warn("no matching enrolled key"@)]
                    &&& r.code == 1
                } else {
                    &&& r.content matches Some(text) && text@ == text_left(content, picks)
                    &&& said(r.lines@) == removed_all(marks)
                    &&& r.code == 0
                }
            },
        },
{
    let mut lines: Vec<Line> = Vec::new();
    let filter = |key: &MarkedKey| -> (pick: bool)
        ensures
            pick == (all || key.id@ == id@),
        { all || same(key.id.as_str(), id) };
    let (removed, content) = match remove_marked(file, filter) {
        Ok(done) => done,
        Err(e) => {
            say(&mut lines, cannot("could not rewrite ", path, e.message().as_str()));
            assert(said(lines@) =~= seq![
                Said::Warn("could not rewrite "@ + path@ + ": "@ + (content_of(*file)->Err_0).told()),
            ]);
            return Removal { content: None, lines, code: 1 };
        },
    };
    let ghost whole = content_of(*file)->Ok_0;
    let ghost all_lines = lines_of(whole);
    let ghost picks = choose|picks: Seq<bool>|
        {
            &&& answers(filter, all_lines, picks)
            &&& mark_views(removed@) == #[trigger] picked_marks(all_lines, picks)
            &&& match content {
                Some(text) => removed@.len() > 0 && text@ == text_left(whole, picks),
                None => removed@.len() == 0,
            }
        };
    let ghost marks = mark_views(removed@);
    proof {
        lemma_picks(filter, all_lines, picks, all, id@);
    }
    if removed.len() == 0 {
        say(&mut lines, Line::Warn("no matching enrolled key".to_owned()));
        assert(said(lines@) =~= seq![Said::Warn("no matching enrolled key"@)]);
        return Removal { content: None, lines, code: 1 };
    }
    let mut i: usize = 0;
    while i < removed.len()
        invariant
            i <= removed@.len(),
            marks == mark_views(removed@),
            said(lines@) == removed_all(marks).take(i as int),
        decreases removed.len() - i,
    {
        let mut line = cat3("removed ", removed[i].id.as_str(), " (");
        line.append(removed[i].device.as_str());
        line.append(")");
        say(&mut lines, Line::Done(line));
        assert(marks[i as int] == removed@[i as int]@);
        assert(said(lines@) =~= removed_all(marks).take(i + 1));
        i = i + 1;
    }
    assert(removed_all(marks).take(i as int) =~= removed_all(marks));
    Removal { content, lines, code: 0 }
}

/// The marked keys that stay when some are removed.
pub open spec fn others(marks: Seq<Mark>, all: bool, id: Seq<char>) -> Seq<Mark> {
    marks.filter(|mark: Mark| !(all || mark.id == id))
}

proof fn lemma_others(lines: Seq<Seq<char>>, all: bool, id: Seq<char>, picks: Seq<bool>)
    requires
        picks.len() >= lines.len(),
        forall|i: int|
            0 <= i < lines.len() ==> #[trigger] picks[i] == (mark_of(lines[i]) matches Some(mark)
                && (all || mark.id == id)),
    ensures
        marks_in(lines_left(lines, picks)) == others(marks_in(lines), all, id),
    decreases lines.len(),
{
    reveal(Seq::filter);
    if lines.len() > 0 {
        let before = lines.drop_last();
        let last = lines.len() - 1;
        assert forall|i: int| 0 <= i < before.len() implies #[trigger] picks[i] == (mark_of(
            before[i],
        ) matches Some(mark) && (all || mark.id == id)) by {
            assert(picks[i] == (mark_of(lines[i]) matches Some(mark) && (all || mark.id == id)));
        }
        lemma_others(before, all, id, picks);
        assert(picks[last] == (mark_of(lines[last]) matches Some(mark) && (all || mark.id == id)));
        let left = lines_left(before, picks);
        if !picks[last] {
            assert(left.push(lines.last()).drop_last() == left);
        }
        if let Some(mark) = mark_of(lines.last()) {
            let marks = marks_in(before);
            assert(marks.push(mark).drop_last() == marks);
        }
    }
}

/// Unbinding takes out every key under the id, or every marked key, and leaves
/// the other marked keys as they were.
pub proof fn unbinding_leaves_the_others(content: Seq<char>, all: bool, id: Seq<char>)
    ensures
        ({
            let lines = lines_of(content);
            let left = text_left(content, selected(lines, all, id));
            &&& marks_in(lines_of(left)) == others(marks_in(lines), all, id)
            &&& all ==> marks_in(lines_of(left)).len() == 0
            &&& forall|i: int|
                0 <= i < marks_in(lines_of(left)).len() ==> (#[trigger] marks_in(lines_of(left))[i]).id
                    != id
        }),
{
    let lines = lines_of(content);
    let picks = selected(lines, all, id);
    removal_keeps_the_rest(content, picks);
    lemma_others(lines, all, id, picks);
    let pred = |mark: Mark| !(all || mark.id == id);
    let stay = others(marks_in(lines), all, id);
    assert forall|i: int| 0 <= i < stay.len() implies pred(#[trigger] stay[i]) by {
        marks_in(lines).lemma_filter_pred(pred, i);
    }
    if all && stay.len() > 0 {
        assert(pred(stay[0]));
    }
}

/// What `unbind` says if the file could not be written.
pub fn unbind_unwritten(path: &str, why: &str) -> (r: Line)
    ensures
        r@ == Said::Warn("could not rewrite "@ + path@ + ": "@ + why@),
{
    cannot("could not rewrite ", path, why)
}

proof fn lemma_left_is_filtered(lines: Seq<Seq<char>>, all: bool, id: Seq<char>, picks: Seq<bool>)
    requires
        picks.len() >= lines.len(),
        forall|i: int|
            0 <= i < lines.len() ==> #[trigger] picks[i] == (mark_of(lines[i]) matches Some(mark)
                && (all || mark.id == id)),
    ensures
        lines_left(lines, picks) == lines.filter(
            |line: Seq<char>| !(mark_of(line) is Some && (all || mark_of(line)->0.id == id)),
        ),
        picked_marks(lines, picks) == marks_in(lines).filter(|mark: Mark| all || mark.id == id),
    decreases lines.len(),
{
    reveal(Seq::filter);
    let stays = |line: Seq<char>| !(mark_of(line) is Some && (all || mark_of(line)->0.id == id));
    let goes = |mark: Mark| all || mark.id == id;
    if lines.len() > 0 {
        let before = lines.drop_last();
        let last = lines.len() - 1;
        assert forall|i: int| 0 <= i < before.len() implies #[trigger] picks[i] == (mark_of(
            before[i],
        ) matches Some(mark) && (all || mark.id == id)) by {
            assert(picks[i] == (mark_of(lines[i]) matches Some(mark) && (all || mark.id == id)));
        }
        lemma_left_is_filtered(before, all, id, picks);
        assert(picks[last] == (mark_of(lines[last]) matches Some(mark) && (all || mark.id == id)));
        if let Some(mark) = mark_of(lines.last()) {
            let marks = marks_in(before);
            assert(marks.push(mark).drop_last() == marks);
        }
    }
    assert(lines_left(lines, picks) =~= lines.filter(stays));
    assert(picked_marks(lines, picks) =~= marks_in(lines).filter(goes));
}

/// Unbinding takes out the lines of the marked keys under the id, or of all
/// marked keys, and no other line: every other one is still there, in order.
/// Told are the keys that were taken out, in order.
pub proof fn unbinding_takes_only_what_was_asked_for(content: Seq<char>, all: bool, id: Seq<char>)
    ensures
        ({
            let lines = lines_of(content);
            let picks = selected(lines, all, id);
            &&& lines_of(text_left(content, picks)) == lines.filter(
                |line: Seq<char>| !(mark_of(line) is Some && (all || mark_of(line)->0.id == id)),
            )
            &&& picked_marks(lines, picks) == marks_in(lines).filter(
                |mark: Mark| all || mark.id == id,
            )
        }),
{
    let lines = lines_of(content);
    let picks = selected(lines, all, id);
    removal_keeps_the_rest(content, picks);
    lemma_left_is_filtered(lines, all, id, picks);
}

/// Each key that was taken out is told by its id and device, and each listed key
/// by its id, its device filled up to 24 characters, and its type.
pub proof fn keys_are_told_one_by_one(marks: Seq<Mark>, i: int)
    requires
        0 <= i < marks.len(),
    ensures
        removed_all(marks).len() == marks.len(),
        removed_all(marks)[i] == Said::Done(
            "removed "@ + marks[i].id + " ("@ + marks[i].device + ")"@,
        ),
        listed_all(marks).len() == marks.len(),
        listed_all(marks)[i] matches Said::Plain(line) && {
            let spaces = if marks[i].device.len() < 24 { 24 - marks[i].device.len() } else { 0 };
            line == marks[i].id + "  "@ + marks[i].device + Seq::new(
                spaces as nat,
                |k: int| ' ',
            ) + "  "@ + marks[i].key_type
        },
{
    let mark = marks[i];
    let spaces = (if mark.device.len() < 24 { 24 - mark.device.len() } else { 0 }) as nat;
    let line = mark.id + "  "@ + mark.device + Seq::new(spaces, |k: int| ' ') + "  "@
        + mark.key_type;
    assert(listed(mark)->Plain_0 =~= line);
}

/// Unbind lists, and removes nothing, if it is asked to or is given neither an id
/// nor all; it fails if the file cannot be read, and otherwise goes on to remove.
pub proof fn unbind_lists_unless_it_is_told_what_to_remove(
    list: bool,
    by_id: bool,
    all: bool,
    path: Seq<char>,
    file: FileRead,
)
    ensures
        content_of(file) matches Err(e) ==> unbind_told(list, by_id, all, path, file) == Some(
            (seq![Said::Warn("could not read "@ + path + ": "@ + e.told())], 1int),
        ),
        content_of(file) is Ok && !list && (by_id || all) ==> unbind_told(
            list,
            by_id,
            all,
            path,
            file,
        ) is None,
        content_of(file) matches Ok(content) ==> (list || (!by_id && !all)) ==> {
            let marks = marks_in(lines_of(content));
            unbind_told(list, by_id, all, path, file) matches Some((told, code)) && {
                &&& code == 0
                &&& marks.len() == 0 ==> told == seq![
                    Said::Note("no multiplex-enrolled keys in "@ + path),
                ]
                &&& marks.len() > 0 && list ==> told == listed_all(marks)
                &&& marks.len() > 0 && !list ==> told == listed_all(marks).push(
                    Said::Note("remove one with `mpx unbind <id>` or all with `mpx unbind --all`"@),
                )
            }
        },
{
    if let Ok(content) = content_of(file) {
        let marks = marks_in(lines_of(content));
        let note = Said::Note("remove one with `mpx unbind <id>` or all with `mpx unbind --all`"@);
        assert(listed_all(marks) + Seq::<Said>::empty() =~= listed_all(marks));
        assert(listed_all(marks) + seq![note] =~= listed_all(marks).push(note));
    }
}

/// A code and its panel beside each other have as many lines as the code. The
/// panel is centred against it; a row with a line of the panel that is not empty
/// has that line two columns behind the code's width, and any other row stands
/// alone.
pub proof fn a_panel_stands_beside_its_code(
    rows: Seq<Seq<char>>,
    panel: Seq<Seq<char>>,
    i: int,
)
    requires
        0 <= i < rows.len(),
    ensures
        ({
            let lines = side_by_side_of(rows, panel);
            let top = if rows.len() > panel.len() { (rows.len() - panel.len()) / 2 } else { 0 };
            let at = i - top;
            &&& lines.len() == rows.len()
            &&& rows[i].is_prefix_of(lines[i])
            &&& 0 <= at < panel.len() && panel[at].len() > 0 ==> {
                &&& lines[i].len() == widest_of(rows) + 2 + panel[at].len()
                &&& lines[i].skip(widest_of(rows) as int + 2) == panel[at]
                &&& forall|k: int|
                    rows[i].len() <= k < widest_of(rows) + 2 ==> #[trigger] lines[i][k] == ' '
            }
            &&& !(0 <= at < panel.len() && panel[at].len() > 0) ==> lines[i] == rows[i]
        }),
{
    reveal_strlit("  ");
    lemma_widest(rows);
    let lines = side_by_side_of(rows, panel);
    let at = i - panel_top(rows.len(), panel.len());
    if 0 <= at < panel.len() && panel[at].len() > 0 {
        let gap = repeated(' ', (widest_of(rows) - rows[i].len()) as nat);
        assert(lines[i] == rows[i] + gap + "  "@ + panel[at]);
        assert(lines[i].skip(widest_of(rows) as int + 2) =~= panel[at]);
        assert(rows[i].is_prefix_of(lines[i]));
        assert forall|k: int| rows[i].len() <= k < widest_of(rows) + 2 implies #[trigger] lines[i][k]
            == ' ' by {
            if k < widest_of(rows) {
                assert(lines[i][k] == gap[k - rows[i].len()]);
            } else {
                assert(lines[i][k] == "  "@[k - widest_of(rows)]);
            }
        }
    }
}

/// A code and a panel that fit 80 columns are printed beside each other, behind
/// an empty line; otherwise the whole code is, and the panel under it, every
/// line of it two columns in. Without a code there is the panel alone.
pub proof fn an_offer_is_laid_out_to_fit(art: Seq<char>, panel: Seq<Seq<char>>)
    ensures
        ({
            let rows = lines_of(art);
            let fits = widest_of(rows) + 2 + widest_of(panel) <= 80;
            let told = layout_of(Some(art), panel);
            &&& told[0] == Said::Plain(""@)
            &&& fits ==> told.len() == 1 + rows.len() && forall|i: int|
                0 <= i < rows.len() ==> #[trigger] told[1 + i] == Said::Plain(
                    side_by_side_of(rows, panel)[i],
                )
            &&& !fits ==> told.len() == 2 + panel.len() && told[1] == Said::Plain(art)
                && forall|i: int|
                0 <= i < panel.len() ==> #[trigger] told[2 + i] == Said::Plain("  "@ + panel[i])
            &&& layout_of(None, panel).len() == panel.len()
            &&& forall|i: int|
                0 <= i < panel.len() ==> #[trigger] layout_of(None, panel)[i] == Said::Plain(
                    "  "@ + panel[i],
                )
        }),
{
}

/// An offer is printed as: what became of copying, if it was asked for; a warning
/// and the payload, if it fits no code that was asked for; the code and the
/// panel; the payload, if there is neither a copy nor a code; and a note, if
/// nothing was copied.
pub proof fn an_offer_is_printed_in_full(
    url: Seq<char>,
    way: &'static str,
    in_tmux: bool,
    no_qr: bool,
    art: Option<Seq<char>>,
    panel: Seq<Seq<char>>,
)
    ensures
        ({
            let shown = if no_qr { None } else { art };
            let layout = layout_of(shown, panel);
            let missing = if !no_qr && art is None {
                seq![
                    Said::Warn("payload too large for a QR — use the clipboard"@),
                    Said::Plain(url),
                ]
            } else {
                Seq::empty()
            };
            let untouched = Said::Note(
                "clipboard untouched — re-run with --copy to paste this into Multiplex"@,
            );
            let copied = Said::Done("payload copied to clipboard ("@ + way@ + ")"@);
            let hint = Said::Note(
                "  inside tmux, OSC 52 needs `set -g allow-passthrough on` in the host's tmux.conf"@,
            );
            let done = Some(CopyOutcome::Copied(way));
            let failed = Some(CopyOutcome::Failed);
            &&& published(url, None, in_tmux, true, art, panel) == layout.push(
                Said::Plain(url),
            ).push(untouched) || !no_qr
            &&& published(url, None, in_tmux, false, art, panel) == (missing + layout).push(
                untouched,
            ) || no_qr
            &&& published(url, done, false, no_qr, art, panel) == seq![copied] + missing + layout
            &&& published(url, done, true, no_qr, art, panel) == seq![copied, hint] + missing
                + layout
            &&& published(url, failed, in_tmux, no_qr, art, panel) == seq![
                Said::Warn("clipboard unavailable — scan the QR or copy the line below"@),
                Said::Plain(url),
            ] + missing + layout
        }),
{
    reveal_strlit("  ");
    reveal_strlit(
        "inside tmux, OSC 52 needs `set -g allow-passthrough on` in the host's tmux.conf",
    );
    reveal_strlit(
        "  inside tmux, OSC 52 needs `set -g allow-passthrough on` in the host's tmux.conf",
    );
    let shown = if no_qr { None } else { art };
    let layout = layout_of(shown, panel);
    let none = Seq::<Said>::empty();
    let missing = if !no_qr && art is None {
        seq![Said::Warn("payload too large for a QR — use the clipboard"@), Said::Plain(url)]
    } else {
        none
    };
    let untouched = Said::Note(
        "clipboard untouched — re-run with --copy to paste this into Multiplex"@,
    );
    let copied = Said::Done("payload copied to clipboard ("@ + way@ + ")"@);
    let text = "  inside tmux, OSC 52 needs `set -g allow-passthrough on` in the host's tmux.conf"@;
    assert("  "@
        + "inside tmux, OSC 52 needs `set -g allow-passthrough on` in the host's tmux.conf"@
        =~= text);
    let hint = Said::Note(text);
    let done = Some(CopyOutcome::Copied(way));
    let failed = Some(CopyOutcome::Failed);
    if no_qr {
        assert(published(url, None, in_tmux, true, art, panel) =~= layout.push(
            Said::Plain(url),
        ).push(untouched));
    } else {
        assert(published(url, None, in_tmux, false, art, panel) =~= (missing + layout).push(
            untouched,
        ));
    }
    assert(published(url, done, false, no_qr, art, panel) =~= seq![copied] + missing + layout);
    assert(published(url, done, true, no_qr, art, panel) =~= seq![copied, hint] + missing + layout);
    assert(published(url, failed, in_tmux, no_qr, art, panel) =~= seq![
        Said::Warn("clipboard unavailable — scan the QR or copy the line below"@),
        Said::Plain(url),
    ] + missing + layout);
}

/// A PIN is shown digit by digit, a space between each two.
pub proof fn digits_are_spaced_apart(pin: Seq<char>, i: int)
    requires
        0 <= i < pin.len(),
    ensures
        ({
            let s = join_of(singles(pin), " "@);
            &&& s.len() == 2 * pin.len() - 1
            &&& s[2 * i] == pin[i]
            &&& i < pin.len() - 1 ==> s[2 * i + 1] == ' '
        }),
    decreases pin.len(),
{
    reveal_strlit(" ");
    let parts = singles(pin);
    let s = join_of(parts, " "@);
    if pin.len() == 1 {
        assert(parts =~= seq![seq![pin[0]]]);
    } else {
        let before = pin.drop_last();
        assert(parts.drop_last() =~= singles(before));
        let t = join_of(singles(before), " "@);
        assert(parts.last() =~= seq![pin.last()]);
        assert(s == t + " "@ + seq![pin.last()]);
        digits_are_spaced_apart(before, if i < before.len() { i } else { 0 });
    }
}

/// The panel of an offer shows the PIN and how long the offer lasts, in minutes
/// and two digits of seconds.
pub proof fn the_panel_shows_the_pin_and_the_time(pin: Seq<char>, lifetime: nat)
    ensures
        ({
            let panel = panel_of(pin, lifetime);
            &&& panel.len() == 8
            &&& panel[5] == "PIN  "@ + join_of(singles(pin), " "@)
            &&& panel[7] == "expires in "@ + decimal_of(lifetime / 60) + ":"@ + padded_of(
                lifetime % 60,
                2,
            ) + " · single use"@
            &&& panel[0] == ""@ && panel[4] == ""@ && panel[6] == ""@
            &&& panel[1] == "scan with Multiplex on iPhone"@
            &&& panel[2] == "or iPad, or confirm the PIN"@
            &&& panel[3] == "it discovers on your network:"@
        }),
{
}

/// The first line tells the name, every address, the port and the user.
pub proof fn the_header_tells_all(
    name: Seq<char>,
    addrs: Seq<Seq<char>>,
    ssh_port: nat,
    user: Seq<char>,
)
    ensures
        ({
            let line = header_of(name, addrs, ssh_port, user);
            let front = "● multiplex bind · "@ + name + " ("@;
            let behind = " · ssh :"@ + decimal_of(ssh_port) + " · user "@ + user + ")"@;
            &&& addrs.len() == 0 ==> line == front + "no LAN address"@ + behind
            &&& addrs.len() > 0 ==> line == front + join_of(addrs, ", "@) + behind
        }),
{
    let line = header_of(name, addrs, ssh_port, user);
    let front = "● multiplex bind · "@ + name + " ("@;
    let behind = " · ssh :"@ + decimal_of(ssh_port) + " · user "@ + user + ")"@;
    let middle = if addrs.len() == 0 { "no LAN address"@ } else { join_of(addrs, ", "@) };
    assert(line =~= front + middle + behind);
}

/// What the operator is asked names the device, or `A device` if it has no name,
/// and as whom it binds.
pub proof fn requests_name_the_device(
    device: Seq<char>,
    user: Seq<char>,
    name: Seq<char>,
)
    ensures
        device.len() > 0 ==> request_of(device, user, name, false) == "→ "@ + device
            + " asks to bind as "@ + user + "@"@ + name + " — enroll? [Y/n] "@,
        device.len() > 0 ==> request_of(device, user, name, true) == "→ "@ + device
            + " asks to bind as "@ + user + "@"@ + name + " — enrolling (--yes)"@,
        request_of(Seq::empty(), user, name, false) == request_of("A device"@, user, name, false),
        request_of(Seq::empty(), user, name, true) == request_of("A device"@, user, name, true),
{
    reveal_strlit("A device");
}

/// A line means yes exactly if, white space around it aside, it is empty, `y` or
/// `yes` in any case of letters.
pub proof fn only_yes_means_yes(line: Seq<char>)
    ensures
        ({
            let s = trim_of(line);
            means_yes(line) <==> {
                ||| s.len() == 0
                ||| s.len() == 1 && (s[0] == 'y' || s[0] == 'Y')
                ||| s.len() == 3 && (s[0] == 'y' || s[0] == 'Y') && (s[1] == 'e' || s[1] == 'E') && (
                s[2] == 's' || s[2] == 'S')
            }
        }),
{
    reveal_strlit("y");
    reveal_strlit("yes");
    let s = trim_of(line);
    let answer = lowered(s);
    let y = "y"@;
    let yes = "yes"@;
    assert(y.len() == 1 && y[0] == 'y');
    assert(yes.len() == 3 && yes[0] == 'y' && yes[1] == 'e' && yes[2] == 's');
    assert(answer.len() == s.len());
    if s.len() == 1 {
        lemma_lower_is(s[0], 'y', 'Y');
        assert(answer[0] == lower_of(s[0]));
        if answer[0] == 'y' {
            assert(answer =~= y);
        } else {
            assert(answer != y);
        }
        assert(answer != yes);
    } else if s.len() == 3 {
        lemma_lower_is(s[0], 'y', 'Y');
        lemma_lower_is(s[1], 'e', 'E');
        lemma_lower_is(s[2], 's', 'S');
        assert(answer[0] == lower_of(s[0]));
        assert(answer[1] == lower_of(s[1]));
        assert(answer[2] == lower_of(s[2]));
        if answer[0] == 'y' && answer[1] == 'e' && answer[2] == 's' {
            assert(answer =~= yes);
        } else {
            assert(answer != yes);
        }
        assert(answer != y);
    } else {
        assert(answer != y && answer != yes);
    }
}

proof fn lemma_lower_is(c: char, small: char, capital: char)
    requires
        'a' <= small && small <= 'z',
        capital as int == small as int - 32,
    ensures
        lower_of(c) == small <==> c == small || c == capital,
{
    capitals_are_made_small(c);
    capitals_are_made_small(capital);
}

/// The operator is told how many tries are left, and how a session ended: where
/// a key was enrolled and under which comment, how to remove it by its id if the
/// device did not acknowledge it, and the machine's name.
pub proof fn reports_tell_what_happened(
    remaining: u32,
    device: String,
    comment: String,
    path: Seq<char>,
    name: Seq<char>,
)
    ensures
        progress_told(ServerEvent::WrongPin { remaining }) == seq![
            Said::Warn("wrong PIN ("@ + decimal_of(remaining as nat) + " tries left)"@),
        ],
        ({
            let enrolled_line = Said::Done("key enrolled → "@ + path + " ("@ + comment@ + ")"@);
            let bound = Said::Done("bound. Multiplex has "@ + name + " on the wall."@);
            &&& outcome_told(
                BindOutcome::Enrolled { device, comment, acknowledged: true },
                path,
                name,
            ) == (seq![enrolled_line, bound], 0int)
            &&& outcome_told(
                BindOutcome::Enrolled { device, comment, acknowledged: false },
                path,
                name,
            ) == (
                seq![
                    enrolled_line,
                    Said::Warn("the device never acknowledged it — if this wasn't your device,"@),
                    Said::Warn("  remove it with `mpx unbind "@ + id_in(comment@) + "`"@),
                    bound,
                ],
                0int,
            )
        }),
        outcome_told(BindOutcome::Expired, path, name).1 == 2,
        outcome_told(BindOutcome::Declined, path, name).1 == 1,
        outcome_told(BindOutcome::Canceled, path, name).1 == 130,
{
    let enrolled_line = Said::Done("key enrolled → "@ + path + " ("@ + comment@ + ")"@);
    let bound = Said::Done("bound. Multiplex has "@ + name + " on the wall."@);
    let heard_of = BindOutcome::Enrolled { device, comment, acknowledged: true };
    let unheard = BindOutcome::Enrolled { device, comment, acknowledged: false };
    assert(outcome_told(heard_of, path, name).0 =~= seq![enrolled_line, bound]);
    assert(outcome_told(unheard, path, name).0 =~= seq![
        enrolled_line,
        Said::Warn("the device never acknowledged it — if this wasn't your device,"@),
        Said::Warn("  remove it with `mpx unbind "@ + id_in(comment@) + "`"@),
        bound,
    ]);
}

/// The id that `unbind` takes stands in the comment, behind the marker's prefix
/// and before the next colon; a comment of someone else's is taken whole.
pub proof fn ids_are_taken_from_markers(id: Seq<char>, rest: Seq<char>, comment: Seq<char>)
    requires
        forall|i: int| 0 <= i < id.len() ==> #[trigger] id[i] != ':',
    ensures
        id_in("multiplex:bind:"@ + id + ":"@ + rest) == id,
        id_in("multiplex:bind:"@ + id) == id,
        !"multiplex:bind:"@.is_prefix_of(comment) ==> id_in(comment) == comment,
{
    let prefix = "multiplex:bind:"@;
    markers_are_read_back(id, rest);
    let bare = prefix + id;
    let behind = bare.skip(prefix.len() as int);
    assert(behind =~= id);
    assert(prefix.is_prefix_of(bare));
    lemma_no_colon(id);
    assert(behind.take(id.len() as int) =~= id);
}

proof fn lemma_no_colon(s: Seq<char>)
    requires
        forall|i: int| 0 <= i < s.len() ==> #[trigger] s[i] != ':',
    ensures
        colon_at(s) == s.len(),
    decreases s.len(),
{
    if s.len() > 0 {
        let rest = s.drop_first();
        assert forall|i: int| 0 <= i < rest.len() implies #[trigger] rest[i] != ':' by {
            assert(s[i + 1] != ':');
        }
        lemma_no_colon(rest);
        assert(s[0] != ':');
    }
}

/// Each test hook that is in effect is named with its effect, between a warning
/// and an advice, and nothing is said if none is.
pub proof fn hooks_are_named_one_by_one(hooks: TestHooks)
    ensures
        ({
            let told = hooks_told(hooks);
            let seed = if hooks.session_seed { 1int } else { 0int };
            let token = if hooks.token { 1int } else { 0int };
            let pin = if hooks.pin { 1int } else { 0int };
            let yes = if hooks.yes { 1int } else { 0int };
            let n = seed + token + pin + yes;
            &&& n == 0 ==> told.len() == 0
            &&& n > 0 ==> {
                &&& told.len() == n + 2
                &&& told[0] == Said::Warn("test hooks are set — this bind is NOT secure:"@)
                &&& told[n + 1] == Said::Warn(
                    "    unset them before binding a machine you care about"@,
                )
                &&& hooks.session_seed ==> told[1] == Said::Warn(
                    "    MPX_BIND_TEST_SESSION_SEED: session key is fixed, not random"@,
                )
                &&& hooks.token ==> told[1 + seed] == Said::Warn(
                    "    MPX_BIND_TEST_TOKEN: token is fixed, not random"@,
                )
                &&& hooks.pin ==> told[1 + seed + token] == Said::Warn(
                    "    MPX_BIND_TEST_PIN: PIN is fixed, not random"@,
                )
                &&& hooks.yes ==> told[1 + seed + token + pin] == Said::Warn(
                    "    MPX_BIND_TEST_YES: enrollment skips the confirmation prompt"@,
                )
            }
        }),
{
}

/// A test hook pins bytes exactly if its value is hex for as many as are asked
/// for; a generated key is installed by the first two fields of its line, under
/// the marker of the id and the machine's slug; and an offline payload says all
/// that its terms do, and the seed.
pub proof fn offline_offers_say_all_of_it(
    value: Seq<char>,
    len: nat,
    public: Seq<char>,
    id: Seq<char>,
    name: Seq<char>,
    terms: OfflineTerms,
    addrs: Seq<Addr>,
    seed: Seq<u8>,
)
    ensures
        pinned(None, len) is None,
        pinned(Some(value), len) == (match hex_decoded(encode_utf8(value)) {
            Some(bytes) => if bytes.len() == len { Some(bytes) } else { None },
            None => None,
        }),
        installed_as(public, id, name) is Some <==> fields_of(public).len() >= 2,
        installed_as(public, id, name) matches Some((key_type, material, comment)) ==> {
            &&& key_type == fields_of(public)[0]
            &&& material == fields_of(public)[1]
            &&& comment == "multiplex:bind:"@ + id + ":"@ + slug_of(name)
        },
        ({
            let p = offline_state(terms, addrs, seed);
            &&& p.addrs == addrs && p.port == 0 && p.name == terms.name@
            &&& p.spub.len() == 32 && forall|i: int| 0 <= i < 32 ==> #[trigger] p.spub[i] == 0
            &&& p.token.len() == 16 && forall|i: int| 0 <= i < 16 ==> #[trigger] p.token[i] == 0
            &&& p.offline matches Some(k) && {
                &&& k.ssh_user == terms.user@
                &&& k.ssh_port == terms.ssh_port
                &&& k.seed == seed
                &&& k.authorized_keys is Some <==> terms.authorized_keys is Some
                &&& terms.authorized_keys matches Some(path) ==> k.authorized_keys == Some(path@)
                &&& k.hostkey_sha256 is Some <==> terms.hostkey_sha256 is Some
                &&& terms.hostkey_sha256 matches Some(digest) ==> k.hostkey_sha256 == Some(digest@)
            }
        }),
{
}

/// What is said is said line by line, whole, and in order.
pub proof fn lines_are_said_whole(lines: Seq<Line>, i: int, text: String, given: Option<&str>)
    requires
        0 <= i < lines.len(),
    ensures
        said(lines).len() == lines.len(),
        said(lines)[i] == lines[i]@,
        Line::Done(text)@ == Said::Done(text@),
        Line::Note(text)@ == Said::Note(text@),
        Line::Warn(text)@ == Said::Warn(text@),
        Line::Wait(text)@ == Said::Wait(text@),
        Line::Plain(text)@ == Said::Plain(text@),
        text_given(given) is Some <==> given is Some,
        given matches Some(s) ==> text_given(given) == Some(s@),
{
}

/// The lines that do not depend on the offer.
pub proof fn fixed_lines_are_fixed()
    ensures
        offline_panel_of() == seq![
            ""@,
            "scan or paste this in Multiplex."@,
            "It works over SSH alone — no"@,
            "local network needed."@,
            ""@,
            "The app replaces this key with"@,
            "one of its own as soon as it"@,
            "connects."@,
        ],
        waiting_told(false) == seq![
            Said::Plain(""@),
            Said::Wait("waiting for Multiplex…  (Ctrl-C cancels)"@),
        ],
        progress_told(ServerEvent::PinRetired) == seq![
            Said::Warn("too many wrong PINs — PIN entry is off for this offer"@),
            Said::Note("  the QR still works; re-run `mpx bind` for a fresh PIN"@),
        ],
{
    assert(waiting_told(false) =~= seq![
        Said::Plain(""@),
        Said::Wait("waiting for Multiplex…  (Ctrl-C cancels)"@),
    ]);
}

} // verus!
