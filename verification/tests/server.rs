use mpx::authkeys::FileRead;
use mpx::cbor::Value;
use mpx::frame::{self, pin_proof, session_key, Channel};
use mpx::server::{
    phase_deadline, remaining, Action, BindOutcome, ConnectionResult, Event, Exchange, OfferRecord,
    ServerEvent, Session, SessionConfig, MAX_PIN_ATTEMPTS, POSTAUTH_TIMEOUT, PREAUTH_TIMEOUT,
};
use x25519_dalek::{PublicKey, StaticSecret};

const SECOND: u64 = 1_000_000_000;
const KEY: &str = "ssh-ed25519 AAAAC3NzaC1lZDI1NTE5AAAAILM+rvN+ot98qgEN796jTiQfZfG1KaT0PtFDJ/XFSqti";
const RSA_KEY: &str =
    "ssh-rsa AAAAB3NzaC1yc2EAAAADAQABAAAAIQDBwsPExcbHyMnKy8zNzs/Q0dLT1NXW19jZ2tvc3d7f4A==";

fn test_config() -> SessionConfig {
    let secret = [0x11u8; 32];
    SessionConfig {
        secret,
        spub: session_key(&secret),
        token: [0x22; 16],
        pin: "482163".into(),
        deadline: 10 * SECOND,
        offer: OfferRecord {
            name: "devbox".into(),
            addrs: vec!["192.168.1.24".into()],
            user: "jhen".into(),
            ssh_port: 2222,
            hostkeys: vec!["ssh-ed25519 SHA256:testfp".into()],
        },
        marker_id: "multiplex:bind:9f3a1c2e".into(),
    }
}

fn client_pubkey() -> String {
    let mut rng = rand_core::OsRng;
    let key = ssh_key::PrivateKey::random(&mut rng, ssh_key::Algorithm::Ed25519).unwrap();
    key.public_key().to_openssh().unwrap()
}

/// The machine around an exchange: its clock, its operator, its key file.
struct Host {
    now: u64,
    answer: bool,
    /// How long the operator takes to answer.
    thinks: u64,
    asked: Vec<String>,
    keys: Option<Vec<u8>>,
    unwritable: bool,
    hangs_up: bool,
}

impl Host {
    fn new() -> Self {
        Host {
            now: 0,
            answer: true,
            thinks: 0,
            asked: vec![],
            keys: None,
            unwritable: false,
            hangs_up: false,
        }
    }

    fn written(&self) -> String {
        String::from_utf8(self.keys.clone().unwrap()).unwrap()
    }

    /// Runs an exchange with a peer that sends these frames, and gives the
    /// frames it was sent.
    fn serve(
        &mut self,
        config: &SessionConfig,
        pin_retired: bool,
        frames: Vec<Vec<u8>>,
    ) -> (ConnectionResult, Vec<Vec<u8>>) {
        assert!(config.is_servable());
        let mut frames = frames.into_iter();
        let mut sent = vec![];
        let (mut exchange, mut action) = Exchange::new(pin_retired);
        loop {
            let event = match action {
                Action::Clock => Event::Now(self.now),
                Action::Read { by } => {
                    assert!(by <= config.deadline);
                    match frames.next() {
                        Some(frame) if self.now < by => Event::Frame(frame),
                        _ => Event::Failed,
                    }
                }
                Action::Send { frame, .. } => {
                    if self.hangs_up && !sent.is_empty() {
                        Event::Failed
                    } else {
                        sent.push(frame);
                        Event::Sent
                    }
                }
                Action::Confirm(device) => {
                    self.asked.push(device);
                    self.now += self.thinks;
                    Event::Answer(self.answer)
                }
                Action::ReadKeys => Event::Keys(match &self.keys {
                    Some(bytes) => FileRead::Bytes(bytes.clone()),
                    None => FileRead::Missing,
                }),
                Action::WriteKeys(content) => {
                    if self.unwritable {
                        Event::Unsaved("No space left on device (os error 28)".into())
                    } else {
                        self.keys = Some(content.into_bytes());
                        Event::Saved
                    }
                }
                Action::Close(result) => return (result, sent),
            };
            assert!(exchange.can_take(&event));
            let (next, asked) = exchange.step(config, event);
            exchange = next;
            action = asked;
        }
    }
}

/// A session: peers one after the other until it is over.
fn run(host: &mut Host, config: &SessionConfig, peers: Vec<Vec<Vec<u8>>>) -> (BindOutcome, Vec<ServerEvent>, Vec<Vec<Vec<u8>>>) {
    let mut session = Session::new();
    let mut peers = peers.into_iter();
    let mut told = vec![];
    let mut replies = vec![];
    loop {
        if let Some(outcome) = Session::tick(config.deadline, false, host.now) {
            return (outcome, told, replies);
        }
        match peers.next() {
            Some(frames) => {
                let (result, sent) = host.serve(config, session.pin_retired(), frames);
                replies.push(sent);
                let (outcome, event) = session.conclude(result);
                told.extend(event);
                if let Some(outcome) = outcome {
                    return (outcome, told, replies);
                }
            }
            None => host.now += SECOND / 10,
        }
    }
}

struct Client {
    channel: Channel,
    epub: [u8; 32],
    spub: [u8; 32],
    frames: Vec<Vec<u8>>,
}

impl Client {
    fn connect(spub: [u8; 32], seed: u8, mode: &str) -> Self {
        let eph = StaticSecret::from([seed; 32]);
        let epub = PublicKey::from(&eph).to_bytes();
        let shared = eph.diffie_hellman(&PublicKey::from(spub));
        let intro = Value::Dict(vec![
            (frame::text("v"), Value::Integer(1)),
            (frame::text("epub"), Value::Bytes(epub.to_vec())),
            (frame::text("mode"), frame::text(mode)),
        ]);
        Client {
            channel: Channel::derive(shared.as_bytes(), &epub, &spub),
            epub,
            spub,
            frames: vec![frame::encode(&intro)],
        }
    }

    fn token(spub: [u8; 32], token: &[u8]) -> Self {
        let mut client = Client::connect(spub, 0x33, "token");
        client.prove(token);
        client
    }

    fn pin(spub: [u8; 32], pin: &str) -> Self {
        let mut client = Client::connect(spub, 0x44, "pin");
        let proof = pin_proof(pin, &client.epub, &client.spub);
        client.prove(&proof);
        client
    }

    fn prove(&mut self, proof: &[u8]) {
        self.send(&Value::Dict(vec![(
            frame::text("proof"),
            Value::Bytes(proof.to_vec()),
        )]));
    }

    fn enroll(&mut self, pubkey: &str, device: &str) {
        self.send(&Value::Dict(vec![
            (frame::text("pubkey"), frame::text(pubkey)),
            (frame::text("device"), frame::text(device)),
        ]));
    }

    fn send(&mut self, body: &Value) {
        let sealed = self.channel.seal_c2s(&frame::encode(body));
        self.frames.push(sealed);
    }

    fn receive(&mut self, sealed: &[u8]) -> Value {
        frame::decode(&self.channel.open_s2c(sealed).unwrap()).unwrap()
    }
}

fn err_of(done: &Value) -> String {
    assert_eq!(frame::map_get(done, "ok"), Some(&Value::Bool(false)));
    frame::get_text(done, "err").unwrap()
}

#[test]
fn token_handshake_enrolls_once() {
    let config = test_config();
    let pubkey = client_pubkey();
    let mut client = Client::token(config.spub, &config.token);
    client.enroll(&pubkey, "Jhen's Vision Pro");
    let mut host = Host::new();
    let (outcome, _, replies) = run(&mut host, &config, vec![client.frames.clone()]);

    let offer = client.receive(&replies[0][0]);
    assert_eq!(frame::get_text(&offer, "name").unwrap(), "devbox");
    let done = client.receive(&replies[0][1]);
    assert_eq!(frame::map_get(&done, "ok"), Some(&Value::Bool(true)));
    let comment = frame::get_text(&done, "comment").unwrap();

    assert_eq!(host.asked, ["Jhen's Vision Pro"]);
    assert_eq!(
        outcome,
        BindOutcome::Enrolled {
            device: "Jhen's Vision Pro".into(),
            comment: "multiplex:bind:9f3a1c2e:jhen-s-vision-pro".into(),
            acknowledged: true,
        }
    );
    assert_eq!(comment, "multiplex:bind:9f3a1c2e:jhen-s-vision-pro");
    let written = host.written();
    assert!(written.contains("multiplex:bind:9f3a1c2e:jhen-s-vision-pro"));
    assert!(written.starts_with("ssh-ed25519 "));
}

/// Three wrong PINs retire the PIN; they must not end the offer. The QR code's
/// token has to keep working, and a fourth PIN attempt must not be answerable
/// even by chance.
#[test]
fn three_wrong_pins_retire_the_pin_but_not_the_offer() {
    let config = test_config();
    let pubkey = client_pubkey();
    let mut wrong: Vec<Client> = (0..3).map(|_| Client::pin(config.spub, "000000")).collect();
    // The correct PIN is refused now that it is retired.
    let mut late = Client::pin(config.spub, "482163");
    // And the QR path still binds.
    let mut client = Client::token(config.spub, &config.token);
    client.enroll(&pubkey, "Jhen's Vision Pro");
    let mut peers: Vec<_> = wrong.iter().map(|c| c.frames.clone()).collect();
    peers.push(late.frames.clone());
    peers.push(client.frames.clone());

    let mut host = Host::new();
    let (outcome, told, replies) = run(&mut host, &config, peers);
    for (client, sent) in wrong.iter_mut().zip(&replies) {
        assert_eq!(err_of(&client.receive(&sent[0])), "wrong pin");
    }
    assert_eq!(
        err_of(&late.receive(&replies[3][0])),
        "pin retired for this offer"
    );
    let _offer = client.receive(&replies[4][0]);
    let done = client.receive(&replies[4][1]);
    assert_eq!(frame::map_get(&done, "ok"), Some(&Value::Bool(true)));

    assert!(matches!(outcome, BindOutcome::Enrolled { .. }));
    assert_eq!(
        told,
        [
            ServerEvent::WrongPin { remaining: 2 },
            ServerEvent::WrongPin { remaining: 1 },
            ServerEvent::PinRetired,
        ],
        "the operator is told once, not per attempt"
    );
    assert!(host.written().starts_with("ssh-ed25519 "));
}

/// A key that reached the file is enrolled even if the client never reads DONE.
#[test]
fn a_key_survives_a_client_that_hangs_up_before_done() {
    let config = test_config();
    let mut client = Client::token(config.spub, &config.token);
    client.enroll(&client_pubkey(), "Ghost");
    let mut host = Host::new();
    host.hangs_up = true;
    let (outcome, _, _) = run(&mut host, &config, vec![client.frames]);
    match outcome {
        BindOutcome::Enrolled { device, acknowledged, .. } => {
            assert_eq!(device, "Ghost");
            assert!(!acknowledged);
        }
        other => panic!("expected the key to count as enrolled, got {other:?}"),
    }
    let written = host.written();
    assert!(
        written.contains("multiplex:bind:9f3a1c2e:ghost"),
        "{written}"
    );
}

/// A peer that authenticated before the offer ran out must not enroll after,
/// including when it expires while the operator is still at the prompt.
#[test]
fn an_offer_that_expires_at_the_prompt_enrolls_nothing() {
    let mut config = test_config();
    config.deadline = 600_000_000;
    let mut client = Client::token(config.spub, &config.token);
    client.enroll(&client_pubkey(), "Latecomer");
    let mut host = Host::new();
    // The human takes longer to answer than the offer had left.
    host.thinks = 900_000_000;
    let (outcome, _, replies) = run(&mut host, &config, vec![client.frames.clone()]);
    let _offer = client.receive(&replies[0][0]);
    assert_eq!(err_of(&client.receive(&replies[0][1])), "offer expired");
    assert_eq!(host.asked, ["Latecomer"]);
    assert_eq!(outcome, BindOutcome::Expired);
    assert!(host.keys.is_none());
}

/// A low-order key would make the channel's keys derivable by anyone watching.
/// The connection must be dropped, and the session must carry on.
#[test]
fn a_low_order_ephemeral_key_is_refused() {
    let config = test_config();
    // The identity element: X25519 against it yields all zeros.
    let intro = Value::Dict(vec![
        (frame::text("v"), Value::Integer(1)),
        (frame::text("epub"), Value::Bytes(vec![0u8; 32])),
        (frame::text("mode"), frame::text("token")),
    ]);
    let stranger = vec![frame::encode(&intro), vec![0u8; 32]];
    let mut client = Client::token(config.spub, &config.token);
    client.enroll(&client_pubkey(), "Jhen's Vision Pro");
    let mut host = Host::new();
    let (outcome, _, replies) = run(&mut host, &config, vec![stranger, client.frames.clone()]);
    // Nothing comes back and the peer hangs up.
    assert!(replies[0].is_empty());
    let _offer = client.receive(&replies[1][0]);
    let done = client.receive(&replies[1][1]);
    assert_eq!(frame::map_get(&done, "ok"), Some(&Value::Bool(true)));
    assert!(matches!(outcome, BindOutcome::Enrolled { .. }));
}

#[test]
fn declining_ends_the_session_without_writing() {
    let config = test_config();
    let mut client = Client::token(config.spub, &config.token);
    client.enroll(&client_pubkey(), "Stranger");
    let mut host = Host::new();
    host.answer = false;
    let (outcome, _, replies) = run(&mut host, &config, vec![client.frames.clone()]);
    let _offer = client.receive(&replies[0][0]);
    assert_eq!(
        err_of(&client.receive(&replies[0][1])),
        "declined on the host"
    );
    assert_eq!(outcome, BindOutcome::Declined);
    assert!(host.keys.is_none());
}

#[test]
fn the_right_pin_enrolls() {
    let config = test_config();
    let mut client = Client::pin(config.spub, "482163");
    client.enroll(&format!("  {KEY} someone@else\n"), "iPad\u{7} Pro");
    let mut host = Host::new();
    host.keys = Some(b"ssh-rsa A x".to_vec());
    let (result, sent) = host.serve(&config, false, client.frames.clone());
    assert_eq!(
        result,
        ConnectionResult::Enrolled {
            device: "iPad Pro".into(),
            comment: "multiplex:bind:9f3a1c2e:ipad-pro".into(),
            acknowledged: true,
        }
    );
    // Two canonical fields; the client's comment does not land.
    assert_eq!(
        host.written(),
        format!("ssh-rsa A x\n{KEY} multiplex:bind:9f3a1c2e:ipad-pro\n")
    );
    let offer = client.receive(&sent[0]);
    assert_eq!(
        offer,
        Value::Dict(vec![
            (frame::text("name"), frame::text("devbox")),
            (
                frame::text("addrs"),
                Value::Array(vec![frame::text("192.168.1.24")])
            ),
            (
                frame::text("ssh"),
                Value::Dict(vec![
                    (frame::text("user"), frame::text("jhen")),
                    (frame::text("port"), Value::Integer(2222)),
                    (
                        frame::text("hostkeys"),
                        Value::Array(vec![frame::text("ssh-ed25519 SHA256:testfp")])
                    ),
                ])
            ),
        ])
    );
}

#[test]
fn a_key_that_is_there_keeps_its_comment() {
    let config = test_config();
    let mut client = Client::token(config.spub, &config.token);
    client.enroll(KEY, "iPad");
    let mut host = Host::new();
    let before = format!("no-pty {KEY} multiplex:bind:00000000:old name\n");
    host.keys = Some(before.clone().into_bytes());
    let (result, sent) = host.serve(&config, false, client.frames.clone());
    assert_eq!(
        result,
        ConnectionResult::Enrolled {
            device: "iPad".into(),
            comment: "multiplex:bind:00000000:old name".into(),
            acknowledged: true,
        }
    );
    assert_eq!(host.written(), before);
    let _offer = client.receive(&sent[0]);
    let done = client.receive(&sent[1]);
    assert_eq!(
        frame::get_text(&done, "comment").unwrap(),
        "multiplex:bind:00000000:old name"
    );
}

#[test]
fn a_wrong_token_is_met_with_silence() {
    let config = test_config();
    let mut host = Host::new();
    for proof in [&[0x23u8; 16][..], &[0x22; 15], &[0x22; 17], &[]] {
        let client = Client::token(config.spub, proof);
        let (result, sent) = host.serve(&config, false, client.frames);
        assert_eq!(result, ConnectionResult::Ignore);
        assert!(sent.is_empty());
    }
}

#[test]
fn what_is_no_intro_is_met_with_silence() {
    let config = test_config();
    let epub = session_key(&[0x33; 32]).to_vec();
    let v = |n: i128| (frame::text("v"), Value::Integer(n));
    let e = |b: Vec<u8>| (frame::text("epub"), Value::Bytes(b));
    let m = |s: &str| (frame::text("mode"), frame::text(s));
    let bodies = [
        Value::Dict(vec![v(2), e(epub.clone()), m("token")]),
        Value::Dict(vec![v(-1), e(epub.clone()), m("token")]),
        Value::Dict(vec![e(epub.clone()), m("token")]),
        Value::Dict(vec![v(1), e(epub[..31].to_vec()), m("token")]),
        Value::Dict(vec![v(1), m("token")]),
        Value::Dict(vec![v(1), e(epub.clone())]),
        Value::Null,
    ];
    let mut host = Host::new();
    for body in bodies {
        let (result, sent) = host.serve(&config, false, vec![frame::encode(&body), vec![0; 40]]);
        assert_eq!(result, ConnectionResult::Ignore);
        assert!(sent.is_empty());
    }
    let (result, _) = host.serve(&config, false, vec![vec![0xff]]);
    assert_eq!(result, ConnectionResult::Ignore);
    // A mode that does not exist is found out after HELLO.
    let mut client = Client::connect(config.spub, 0x33, "guess");
    client.prove(&config.token);
    let (result, sent) = host.serve(&config, false, client.frames);
    assert_eq!(result, ConnectionResult::Ignore);
    assert!(sent.is_empty());
}

#[test]
fn keys_of_other_kinds_are_refused() {
    let config = test_config();
    for (key, why) in [
        (RSA_KEY, "only ed25519 keys are accepted"),
        ("ssh-ed25519 nonsense", "unparseable public key"),
        ("", "unparseable public key"),
    ] {
        let mut client = Client::token(config.spub, &config.token);
        client.enroll(key, "iPad");
        let mut host = Host::new();
        let (result, sent) = host.serve(&config, false, client.frames.clone());
        assert_eq!(result, ConnectionResult::Ignore);
        let _offer = client.receive(&sent[0]);
        assert_eq!(err_of(&client.receive(&sent[1])), why);
        assert!(host.asked.is_empty());
        assert!(host.keys.is_none());
    }
}

#[test]
fn a_key_file_that_cannot_be_used_is_reported_to_the_client() {
    let config = test_config();
    let enrolling = || {
        let mut client = Client::token(config.spub, &config.token);
        client.enroll(KEY, "iPad");
        client
    };
    let mut client = enrolling();
    let mut host = Host::new();
    host.unwritable = true;
    let (result, sent) = host.serve(&config, false, client.frames.clone());
    assert_eq!(result, ConnectionResult::Ignore);
    let _offer = client.receive(&sent[0]);
    assert_eq!(
        err_of(&client.receive(&sent[1])),
        "could not write authorized_keys: No space left on device (os error 28)"
    );

    let mut client = enrolling();
    let mut host = Host::new();
    host.keys = Some(vec![0xff, 0xfe]);
    let (result, sent) = host.serve(&config, false, client.frames.clone());
    assert_eq!(result, ConnectionResult::Ignore);
    let _offer = client.receive(&sent[0]);
    assert_eq!(
        err_of(&client.receive(&sent[1])),
        "could not write authorized_keys: stream did not contain valid UTF-8"
    );
    assert_eq!(host.keys, Some(vec![0xff, 0xfe]));
}

#[test]
fn an_offer_that_expires_before_the_prompt_asks_nobody() {
    let config = test_config();
    let mut client = Client::token(config.spub, &config.token);
    client.enroll(KEY, "iPad");
    let (mut exchange, _) = Exchange::new(false);
    let mut sent = vec![];
    let mut frames = client.frames.clone().into_iter();
    let events = [
        Event::Now(0),
        Event::Frame(frames.next().unwrap()),
        Event::Frame(frames.next().unwrap()),
        Event::Now(1),
        Event::Sent,
        Event::Frame(frames.next().unwrap()),
        Event::Now(config.deadline),
    ];
    for event in events {
        let (next, action) = exchange.step(&config, event);
        exchange = next;
        if let Action::Send { frame, within } = action {
            assert_eq!(within, POSTAUTH_TIMEOUT);
            sent.push(frame);
        } else {
            assert!(!matches!(action, Action::Confirm(_)));
        }
    }
    let _offer = client.receive(&sent[0]);
    assert_eq!(err_of(&client.receive(&sent[1])), "offer expired");
    let (_, action) = exchange.step(&config, Event::Failed);
    assert_eq!(action, Action::Close(ConnectionResult::Ignore));
}

#[test]
fn reads_end_with_their_window() {
    let mut config = test_config();
    config.deadline = 200 * SECOND;
    let client = Client::token(config.spub, &config.token);
    let mut frames = client.frames.into_iter();
    let (exchange, action) = Exchange::new(false);
    assert_eq!(action, Action::Clock);
    let (exchange, action) = exchange.step(&config, Event::Now(3 * SECOND));
    assert_eq!(action, Action::Read { by: 8 * SECOND });
    let (exchange, action) = exchange.step(&config, Event::Frame(frames.next().unwrap()));
    assert_eq!(action, Action::Read { by: 8 * SECOND });
    let (exchange, action) = exchange.step(&config, Event::Frame(frames.next().unwrap()));
    assert_eq!(action, Action::Clock);
    let (exchange, action) = exchange.step(&config, Event::Now(100 * SECOND));
    assert!(matches!(action, Action::Send { .. }));
    let (exchange, action) = exchange.step(&config, Event::Sent);
    assert_eq!(action, Action::Read { by: 200 * SECOND });
    let (_, action) = exchange.step(&config, Event::Failed);
    assert_eq!(action, Action::Close(ConnectionResult::Ignore));
}

#[test]
fn windows_and_what_is_left_of_them() {
    assert_eq!(phase_deadline(100, 10, 20), 30);
    assert_eq!(phase_deadline(25, 10, 20), 25);
    assert_eq!(phase_deadline(5, 10, 20), 5);
    assert_eq!(phase_deadline(u64::MAX, u64::MAX - 1, PREAUTH_TIMEOUT), u64::MAX);
    assert_eq!(remaining(30, 10), Some(20));
    assert_eq!(remaining(30, 30), None);
    assert_eq!(remaining(30, 31), None);
}

#[test]
fn a_cancellation_counts_before_the_deadline() {
    assert_eq!(Session::tick(10, true, 20), Some(BindOutcome::Canceled));
    assert_eq!(Session::tick(10, false, 10), Some(BindOutcome::Expired));
    assert_eq!(Session::tick(10, false, 9), None);
}

#[test]
fn only_wrong_pins_count() {
    let mut session = Session::new();
    for _ in 0..5 {
        assert_eq!(session.conclude(ConnectionResult::Ignore), (None, None));
    }
    assert!(!session.pin_retired());
    for n in 1..MAX_PIN_ATTEMPTS {
        assert_eq!(
            session.conclude(ConnectionResult::PinFailure),
            (None, Some(ServerEvent::WrongPin { remaining: MAX_PIN_ATTEMPTS - n }))
        );
    }
    assert!(!session.pin_retired());
    assert_eq!(
        session.conclude(ConnectionResult::PinFailure),
        (None, Some(ServerEvent::PinRetired))
    );
    assert!(session.pin_retired());
    assert_eq!(session.conclude(ConnectionResult::PinFailure), (None, None));
    assert_eq!(
        session.conclude(ConnectionResult::Declined),
        (Some(BindOutcome::Declined), None)
    );
}

#[test]
fn long_device_names_are_cut() {
    assert_eq!(mpx::server::device_name(&"x".repeat(80)), "x".repeat(64));
    assert_eq!(mpx::server::device_name("\u{1b}[31ma\u{85}b\n"), "[31mab");
    assert_eq!(mpx::server::device_name(""), "");
}

#[test]
fn an_ordinary_offer_is_servable() {
    let mut config = test_config();
    assert!(config.is_servable());
    config.offer.addrs = vec![];
    config.offer.hostkeys = (0..1000).map(|n| format!("key {n}")).collect();
    assert!(config.is_servable());
}

#[test]
fn frames_have_a_limit() {
    let (exchange, _) = Exchange::new(false);
    assert!(exchange.can_take(&Event::Frame(vec![0; 65536])));
    assert!(!exchange.can_take(&Event::Frame(vec![0; 65537])));
    assert!(exchange.can_take(&Event::Keys(FileRead::Bytes(vec![0xff; 100]))));
}
