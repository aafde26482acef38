//! The bind session: the sealed HELLO, OFFER, ENROLL, DONE exchange with a
//! connected peer, and the rules of the loop that accepts peers until the
//! deadline.
//!
//! Token failures close silently: a 128-bit space needs no lockout. Three wrong
//! PINs retire the PIN for the rest of the offer and leave the QR code's token
//! serving. Anyone can reach that counter, so it bounds guessing without being a
//! way to cancel someone's bind.
//!
//! Nothing here touches a socket, a file or a clock. An `Exchange` says what is
//! to be done next and is told what came of it.

use vstd::prelude::*;
use vstd::string::*;
use vstd::utf8::*;
use crate::authkeys::{
    added_keys_are_listed_and_can_be_removed, content_of, enrolled, ensure_line, key_line,
    lemma_marker_is_word, mark_of, marker, names_key_type, terminated, text_left, with_key,
    AddOutcome, FileRead, MARKER_PREFIX, Mark,
};
use crate::bytes::array_at;
use crate::cbor::{
    bytes_at, cbor_decoded, cbor_encoded, cbor_size, decode, encode, entries_size, entry_of, fits,
    get_bytes, get_text, items_size, lemma_plain_is_nan_free, lookup, map_get, plain, text, text_at,
    Cbor, Value,
};
use crate::crypto::{
    chacha_opened, chacha_sealed, equal_in_constant_time, shared_secret, x25519_shared, zeros,
};
use crate::frame::{derived, nonce_of, pin_proof, pin_proof_of, Channel, ChannelState, MAX_FRAME};
use crate::sshkey::{openssh_key, read_openssh};
use crate::text::{
    cat, chars_of, contains, control, fields_of, holds, is_control, is_white, is_word,
    lemma_fields_are_words, lemma_weight_bound, lemma_weight_concat, lines_of, same, split_fields,
    text_of, trim, trim_of, views, weight,
};
use crate::util::{device_slug, slug_of, slugs_are_clean};

verus! {

pub const MAX_PIN_ATTEMPTS: u32 = 3;

/// How long, in nanoseconds, a peer that has proved nothing gets to send INTRO
/// and HELLO. Peers are served one at a time, so what a stranger's stall costs
/// has to be bounded.
pub const PREAUTH_TIMEOUT: u64 = 5_000_000_000;

/// How long, in nanoseconds, a peer gets once its proof is accepted. The app
/// shows the host record to a human between OFFER and ENROLL.
pub const POSTAUTH_TIMEOUT: u64 = 120_000_000_000;

/// How many characters of a device's name are kept.
pub const MAX_DEVICE: usize = 64;

/// How many bytes a reply may have to tell. The frame that carries them counts
/// its bytes in 32 bits.
pub const MAX_TOLD: usize = 4_294_966_295;

/// What the app is offered to save about this machine.
pub struct OfferRecord {
    pub name: String,
    pub addrs: Vec<String>,
    pub user: String,
    pub ssh_port: u16,
    pub hostkeys: Vec<String>,
}

/// What one offer is made with.
pub struct SessionConfig {
    /// The X25519 secret.
    pub secret: [u8; 32],
    pub spub: [u8; 32],
    pub token: [u8; 16],
    pub pin: String,
    /// When the offer expires, in nanoseconds on the caller's clock.
    pub deadline: u64,
    pub offer: OfferRecord,
    /// `multiplex:bind:<id>`; the device's slug is appended to it.
    pub marker_id: String,
}

/// How a bind session ended.
#[derive(Debug, PartialEq, Eq)]
pub enum BindOutcome {
    Enrolled {
        device: String,
        comment: String,
        /// Whether DONE was delivered. The key is on disk either way.
        acknowledged: bool,
    },
    Expired,
    Declined,
    Canceled,
}

/// What the operator is told while the session goes on.
#[derive(Debug, PartialEq, Eq)]
pub enum ServerEvent {
    WrongPin { remaining: u32 },
    /// The PIN is spent for this session; the token still works.
    PinRetired,
}

/// How the exchange with one peer ended.
#[derive(Debug, PartialEq, Eq)]
pub enum ConnectionResult {
    Enrolled {
        device: String,
        comment: String,
        /// False if the key was saved but DONE never reached the client.
        acknowledged: bool,
    },
    PinFailure,
    Declined,
    Ignore,
}

/// What came of an action.
pub enum Event {
    /// The time, in nanoseconds on the caller's clock.
    Now(u64),
    /// A frame was read.
    Frame(Vec<u8>),
    /// A frame was written.
    Sent,
    /// Reading or writing a frame failed.
    Failed,
    /// The operator's answer.
    Answer(bool),
    /// What reading the key file came to.
    Keys(FileRead),
    /// The key file was written.
    Saved,
    /// The key file could not be written; the text says why.
    Unsaved(String),
}

/// What is to be done next.
#[derive(Debug, PartialEq, Eq)]
pub enum Action {
    /// Look at the clock.
    Clock,
    /// Read a frame, and give up at this time.
    Read { by: u64 },
    /// Write a frame, and give up after so many nanoseconds without progress.
    Send { frame: Vec<u8>, within: u64 },
    /// Ask the operator about this device.
    Confirm(String),
    /// Read the key file.
    ReadKeys,
    /// Replace the content of the key file.
    WriteKeys(String),
    /// Hang up.
    Close(ConnectionResult),
}

pub ghost struct OfferState {
    pub name: Seq<char>,
    pub addrs: Seq<Seq<char>>,
    pub user: Seq<char>,
    pub ssh_port: nat,
    pub hostkeys: Seq<Seq<char>>,
}

pub ghost struct SessionTerms {
    pub secret: Seq<u8>,
    pub spub: Seq<u8>,
    pub token: Seq<u8>,
    pub pin: Seq<char>,
    pub deadline: nat,
    pub offer: OfferState,
    pub marker_id: Seq<char>,
}

pub ghost enum Ended {
    Enrolled { device: Seq<char>, comment: Seq<char>, acknowledged: bool },
    PinFailure,
    Declined,
    Ignore,
}

pub ghost enum Ev {
    Now(nat),
    Frame(Seq<u8>),
    Sent,
    Failed,
    Answer(bool),
    /// The file's content, or why it cannot be used.
    Keys(Result<Seq<char>, Seq<char>>),
    Saved,
    Unsaved(Seq<char>),
}

pub ghost enum Act {
    Clock,
    Read { by: nat },
    /// A body, sealed as the next frame of a channel.
    Send { channel: ChannelState, body: Cbor, within: nat },
    Confirm(Seq<char>),
    ReadKeys,
    WriteKeys(Seq<char>),
    Close(Ended),
}

/// How far an exchange has come.
pub ghost enum Stage {
    /// The clock is being looked at, for the peer's first window.
    Start,
    /// INTRO is being read.
    Intro { preauth: nat },
    /// HELLO is being read.
    Hello { preauth: nat, epub: Seq<u8>, mode: Seq<char>, channel: ChannelState },
    /// The proof was accepted; the clock is being looked at.
    Accepted { channel: ChannelState },
    /// OFFER is being sent.
    Offered { channel: ChannelState, postauth: nat },
    /// ENROLL is being read.
    Enroll { channel: ChannelState },
    /// A key was received; the clock is being looked at.
    Keyed { channel: ChannelState, device: Seq<char>, canonical: Option<Seq<char>> },
    /// The operator is being asked.
    Prompt { channel: ChannelState, device: Seq<char>, canonical: Option<Seq<char>> },
    /// The operator said yes; the clock is being looked at.
    Consented { channel: ChannelState, device: Seq<char>, canonical: Option<Seq<char>> },
    /// The key file is being read.
    Reading {
        channel: ChannelState,
        device: Seq<char>,
        key_type: Seq<char>,
        material: Seq<char>,
        comment: Seq<char>,
    },
    /// The key file is being written.
    Saving { channel: ChannelState, device: Seq<char>, comment: Seq<char> },
    /// The key is in the file; DONE is being sent.
    Enrolled { device: Seq<char>, comment: Seq<char> },
    /// A refusal is being sent.
    Refused { result: Ended },
    Closed,
}

impl View for OfferRecord {
    type V = OfferState;

    open spec fn view(&self) -> OfferState {
        OfferState {
            name: self.name@,
            addrs: views(self.addrs@),
            user: self.user@,
            ssh_port: self.ssh_port as nat,
            hostkeys: views(self.hostkeys@),
        }
    }
}

impl View for SessionConfig {
    type V = SessionTerms;

    open spec fn view(&self) -> SessionTerms {
        SessionTerms {
            secret: self.secret@,
            spub: self.spub@,
            token: self.token@,
            pin: self.pin@,
            deadline: self.deadline as nat,
            offer: self.offer@,
            marker_id: self.marker_id@,
        }
    }
}

impl View for ConnectionResult {
    type V = Ended;

    open spec fn view(&self) -> Ended {
        match self {
            ConnectionResult::Enrolled { device, comment, acknowledged } => Ended::Enrolled {
                device: device@,
                comment: comment@,
                acknowledged: *acknowledged,
            },
            ConnectionResult::PinFailure => Ended::PinFailure,
            ConnectionResult::Declined => Ended::Declined,
            ConnectionResult::Ignore => Ended::Ignore,
        }
    }
}

impl View for Event {
    type V = Ev;

    open spec fn view(&self) -> Ev {
        match self {
            Event::Now(t) => Ev::Now(*t as nat),
            Event::Frame(frame) => Ev::Frame(frame@),
            Event::Sent => Ev::Sent,
            Event::Failed => Ev::Failed,
            Event::Answer(yes) => Ev::Answer(*yes),
            Event::Keys(file) => Ev::Keys(
                match content_of(*file) {
                    Ok(content) => Ok(content),
                    Err(e) => Err(e.told()),
                },
            ),
            Event::Saved => Ev::Saved,
            Event::Unsaved(why) => Ev::Unsaved(why@),
        }
    }
}

/// The sealed form of a body, as the next frame to the client.
pub open spec fn sealed_body(channel: ChannelState, body: Cbor) -> Seq<u8> {
    chacha_sealed(channel.s2c, nonce_of(channel.seq_s2c), cbor_encoded(body))
}

/// Whether a client that holds the same channel reads `body` in `frame`.
pub open spec fn readable(channel: ChannelState, body: Cbor, frame: Seq<u8>) -> bool {
    &&& chacha_opened(channel.s2c, nonce_of(channel.seq_s2c), frame) == Some(cbor_encoded(body))
    &&& cbor_decoded(cbor_encoded(body)) == Some(body)
}

impl Action {
    /// Whether this is what `act` says is to be done.
    pub open spec fn does(&self, act: Act) -> bool {
        match self {
            Action::Clock => act is Clock,
            Action::Read { by } => act == (Act::Read { by: *by as nat }),
            Action::Send { frame, within } => {
                &&& act matches Act::Send { channel, body, within: time } && frame@ == sealed_body(
                    channel,
                    body,
                ) && readable(channel, body, frame@) && time == *within
                &&& frame@.len() <= u32::MAX
            },
            Action::Confirm(device) => act == Act::Confirm(device@),
            Action::ReadKeys => act is ReadKeys,
            Action::WriteKeys(content) => act == Act::WriteKeys(content@),
            Action::Close(result) => act == Act::Close(result@),
        }
    }
}

/// The end of a window that starts now: never beyond the offer's own expiry.
pub open spec fn window_end(now: nat, budget: nat, deadline: nat) -> nat {
    if now + budget < deadline { now + budget } else { deadline }
}

/// What an INTRO frame says, if it is one of version 1.
pub open spec fn intro_of(frame: Seq<u8>) -> Option<(Seq<u8>, Seq<char>)> {
    match cbor_decoded(frame) {
        Some(intro) => if lookup(intro, "v"@) == Some(Cbor::Integer(1)) {
            match (bytes_at(intro, "epub"@), text_at(intro, "mode"@)) {
                (Some(epub), Some(mode)) => if epub.len() == 32 {
                    Some((epub, mode))
                } else {
                    None
                },
                _ => None,
            }
        } else {
            None
        },
        None => None,
    }
}

/// The body that the client's next frame carries, if it is authentic and CBOR.
pub open spec fn heard(channel: ChannelState, frame: Seq<u8>) -> Option<Cbor> {
    match chacha_opened(channel.c2s, nonce_of(channel.seq_c2s), frame) {
        Some(plain) => cbor_decoded(plain),
        None => None,
    }
}

/// The channel after one more frame from the client.
pub open spec fn received(channel: ChannelState) -> ChannelState {
    ChannelState { seq_c2s: channel.seq_c2s + 1, ..channel }
}

/// The channel after one more frame to the client.
pub open spec fn replied(channel: ChannelState) -> ChannelState {
    ChannelState { seq_s2c: channel.seq_s2c + 1, ..channel }
}

/// What a proof is worth.
pub ghost enum Verdict {
    Accepted,
    /// Said nothing, and hung up on.
    Dropped,
    WrongPin,
    RetiredPin,
}

/// What a HELLO's proof is worth under a mode.
pub open spec fn verdict(
    terms: SessionTerms,
    pin_retired: bool,
    epub: Seq<u8>,
    mode: Seq<char>,
    proof: Seq<u8>,
) -> Verdict {
    if mode == "token"@ {
        if proof == terms.token { Verdict::Accepted } else { Verdict::Dropped }
    } else if mode == "pin"@ {
        if pin_retired {
            Verdict::RetiredPin
        } else if proof == pin_proof_of(terms.pin, epub, terms.spub) {
            Verdict::Accepted
        } else {
            Verdict::WrongPin
        }
    } else {
        Verdict::Dropped
    }
}

pub open spec fn texts(list: Seq<Seq<char>>) -> Cbor {
    Cbor::Array(Seq::new(list.len(), |i: int| Cbor::Text(list[i])))
}

/// The OFFER's body: the host record that the app will save.
pub open spec fn offer_body(offer: OfferState) -> Cbor {
    Cbor::Dict(
        seq![
            (Cbor::Text("name"@), Cbor::Text(offer.name)),
            (Cbor::Text("addrs"@), texts(offer.addrs)),
            (
                Cbor::Text("ssh"@),
                Cbor::Dict(
                    seq![
                        (Cbor::Text("user"@), Cbor::Text(offer.user)),
                        (Cbor::Text("port"@), Cbor::Integer(offer.ssh_port as int)),
                        (Cbor::Text("hostkeys"@), texts(offer.hostkeys)),
                    ],
                ),
            ),
        ],
    )
}

/// The body of a DONE that reports success.
pub open spec fn done_ok(comment: Seq<char>) -> Cbor {
    Cbor::Dict(
        seq![
            (Cbor::Text("ok"@), Cbor::Bool(true)),
            (Cbor::Text("comment"@), Cbor::Text(comment)),
        ],
    )
}

/// The body of a DONE that reports a refusal.
pub open spec fn done_err(message: Seq<char>) -> Cbor {
    Cbor::Dict(
        seq![
            (Cbor::Text("ok"@), Cbor::Bool(false)),
            (Cbor::Text("err"@), Cbor::Text(message)),
        ],
    )
}

/// The characters of `s` that are no control characters.
pub open spec fn printable(s: Seq<char>) -> Seq<char>
    decreases s.len(),
{
    if s.len() == 0 {
        Seq::empty()
    } else if is_control(s.last()) {
        printable(s.drop_last())
    } else {
        printable(s.drop_last()).push(s.last())
    }
}

/// What is kept of a device's name: its first `MAX_DEVICE` printable characters.
pub open spec fn device_of(name: Seq<char>) -> Seq<char> {
    let all = printable(name);
    if all.len() > MAX_DEVICE { all.take(MAX_DEVICE as int) } else { all }
}

/// The comment that a device's key is enrolled under.
pub open spec fn comment_for(terms: SessionTerms, device: Seq<char>) -> Seq<char> {
    terms.marker_id + ":"@ + slug_of(device)
}

pub open spec fn close(result: Ended) -> (Stage, Act) {
    (Stage::Closed, Act::Close(result))
}

/// Tells the client why, and then ends with `result` whether or not that
/// arrives.
pub open spec fn refuse(channel: ChannelState, why: Seq<char>, result: Ended, within: nat) -> (
    Stage,
    Act,
) {
    (Stage::Refused { result }, Act::Send { channel, body: done_err(why), within })
}

/// A key is in the file: tells the client its comment.
pub open spec fn finish(channel: ChannelState, device: Seq<char>, comment: Seq<char>) -> (
    Stage,
    Act,
) {
    (
        Stage::Enrolled { device, comment },
        Act::Send { channel, body: done_ok(comment), within: POSTAUTH_TIMEOUT as nat },
    )
}

/// After INTRO: HELLO is read in the same window, unless the INTRO is not one
/// or its key would make the channel's keys public.
pub open spec fn on_intro(terms: SessionTerms, preauth: nat, frame: Seq<u8>) -> (Stage, Act) {
    match intro_of(frame) {
        Some((epub, mode)) => {
            let shared = x25519_shared(terms.secret, epub);
            if shared == zeros(32) {
                close(Ended::Ignore)
            } else {
                (
                    Stage::Hello {
                        preauth,
                        epub,
                        mode,
                        channel: derived(shared, epub, terms.spub),
                    },
                    Act::Read { by: preauth },
                )
            }
        },
        None => close(Ended::Ignore),
    }
}

/// After HELLO: its proof is judged.
pub open spec fn on_hello(
    terms: SessionTerms,
    pin_retired: bool,
    epub: Seq<u8>,
    mode: Seq<char>,
    channel: ChannelState,
    frame: Seq<u8>,
) -> (Stage, Act) {
    match heard(channel, frame) {
        Some(hello) => match bytes_at(hello, "proof"@) {
            Some(proof) => match verdict(terms, pin_retired, epub, mode, proof) {
                Verdict::Accepted => (Stage::Accepted { channel: received(channel) }, Act::Clock),
                Verdict::Dropped => close(Ended::Ignore),
                Verdict::WrongPin => refuse(
                    received(channel),
                    "wrong pin"@,
                    Ended::PinFailure,
                    PREAUTH_TIMEOUT as nat,
                ),
                Verdict::RetiredPin => refuse(
                    received(channel),
                    "pin retired for this offer"@,
                    Ended::Ignore,
                    PREAUTH_TIMEOUT as nat,
                ),
            },
            None => close(Ended::Ignore),
        },
        None => close(Ended::Ignore),
    }
}

/// After ENROLL: only a public key of an ed25519 kind is gone on with.
pub open spec fn on_enroll(channel: ChannelState, frame: Seq<u8>) -> (Stage, Act) {
    match heard(channel, frame) {
        Some(enroll) => match text_at(enroll, "pubkey"@) {
            Some(line) => match openssh_key(trim_of(line)) {
                Some(key) => if holds(key.algorithm, "ed25519"@) {
                    (
                        Stage::Keyed {
                            channel: received(channel),
                            device: device_of(
                                match text_at(enroll, "device"@) {
                                    Some(name) => name,
                                    None => Seq::empty(),
                                },
                            ),
                            canonical: key.canonical,
                        },
                        Act::Clock,
                    )
                } else {
                    refuse(
                        received(channel),
                        "only ed25519 keys are accepted"@,
                        Ended::Ignore,
                        POSTAUTH_TIMEOUT as nat,
                    )
                },
                None => refuse(
                    received(channel),
                    "unparseable public key"@,
                    Ended::Ignore,
                    POSTAUTH_TIMEOUT as nat,
                ),
            },
            None => close(Ended::Ignore),
        },
        None => close(Ended::Ignore),
    }
}

pub open spec fn expire(channel: ChannelState) -> (Stage, Act) {
    refuse(channel, "offer expired"@, Ended::Ignore, POSTAUTH_TIMEOUT as nat)
}

/// After the clock behind the prompt: the key is enrolled by its first two
/// canonical fields, so that no comment of the client's lands in the file.
pub open spec fn on_consent(
    terms: SessionTerms,
    channel: ChannelState,
    device: Seq<char>,
    canonical: Option<Seq<char>>,
    now: nat,
) -> (Stage, Act) {
    if now >= terms.deadline {
        expire(channel)
    } else {
        match canonical {
            Some(line) => {
                let fields = fields_of(line);
                if fields.len() < 2 {
                    close(Ended::Ignore)
                } else {
                    (
                        Stage::Reading {
                            channel,
                            device,
                            key_type: fields[0],
                            material: fields[1],
                            comment: comment_for(terms, device),
                        },
                        Act::ReadKeys,
                    )
                }
            },
            None => close(Ended::Ignore),
        }
    }
}

pub open spec fn unwritten(channel: ChannelState, why: Seq<char>) -> (Stage, Act) {
    refuse(
        channel,
        "could not write authorized_keys: "@ + why,
        Ended::Ignore,
        POSTAUTH_TIMEOUT as nat,
    )
}

/// After the key file: a key that is there already is not added again.
pub open spec fn on_keys(
    channel: ChannelState,
    device: Seq<char>,
    key_type: Seq<char>,
    material: Seq<char>,
    comment: Seq<char>,
    keys: Result<Seq<char>, Seq<char>>,
) -> (Stage, Act) {
    match keys {
        Ok(content) => match enrolled(lines_of(content), material) {
            Some(there) => finish(channel, device, there),
            None => (
                Stage::Saving { channel, device, comment },
                Act::WriteKeys(with_key(content, key_type, material, comment)),
            ),
        },
        Err(why) => unwritten(channel, why),
    }
}

/// Where an event leads, and what is to be done next. An event that does not
/// answer what was asked for ends the exchange as a failed read does; where only
/// the end is left to report, it counts as a failed write.
pub open spec fn next(terms: SessionTerms, pin_retired: bool, stage: Stage, event: Ev) -> (
    Stage,
    Act,
) {
    match (stage, event) {
        (Stage::Start, Ev::Now(now)) => {
            let preauth = window_end(now, PREAUTH_TIMEOUT as nat, terms.deadline);
            (Stage::Intro { preauth }, Act::Read { by: preauth })
        },
        (Stage::Intro { preauth }, Ev::Frame(frame)) => on_intro(terms, preauth, frame),
        (Stage::Hello { preauth, epub, mode, channel }, Ev::Frame(frame)) => on_hello(
            terms,
            pin_retired,
            epub,
            mode,
            channel,
            frame,
        ),
        (Stage::Accepted { channel }, Ev::Now(now)) => (
            Stage::Offered {
                channel: replied(channel),
                postauth: window_end(now, POSTAUTH_TIMEOUT as nat, terms.deadline),
            },
            Act::Send {
                channel,
                body: offer_body(terms.offer),
                within: POSTAUTH_TIMEOUT as nat,
            },
        ),
        (Stage::Offered { channel, postauth }, Ev::Sent) => (
            Stage::Enroll { channel },
            Act::Read { by: postauth },
        ),
        (Stage::Enroll { channel }, Ev::Frame(frame)) => on_enroll(channel, frame),
        (Stage::Keyed { channel, device, canonical }, Ev::Now(now)) => if now >= terms.deadline {
            expire(channel)
        } else {
            (Stage::Prompt { channel, device, canonical }, Act::Confirm(device))
        },
        (Stage::Prompt { channel, device, canonical }, Ev::Answer(yes)) => if yes {
            (Stage::Consented { channel, device, canonical }, Act::Clock)
        } else {
            refuse(channel, "declined on the host"@, Ended::Declined, POSTAUTH_TIMEOUT as nat)
        },
        (Stage::Consented { channel, device, canonical }, Ev::Now(now)) => on_consent(
            terms,
            channel,
            device,
            canonical,
            now,
        ),
        (Stage::Reading { channel, device, key_type, material, comment }, Ev::Keys(keys)) => on_keys(
            channel,
            device,
            key_type,
            material,
            comment,
            keys,
        ),
        (Stage::Saving { channel, device, comment }, Ev::Saved) => finish(channel, device, comment),
        (Stage::Saving { channel, device, comment }, Ev::Unsaved(why)) => unwritten(channel, why),
        (Stage::Enrolled { device, comment }, _) => close(
            Ended::Enrolled { device, comment, acknowledged: event is Sent },
        ),
        (Stage::Refused { result }, _) => close(result),
        _ => close(Ended::Ignore),
    }
}

/// Whether an event keeps within the limits: a frame of its length, and what the
/// reply to it has to tell of what a frame can carry.
pub open spec fn tellable(stage: Stage, event: Ev) -> bool {
    match (stage, event) {
        (_, Ev::Frame(frame)) => frame.len() <= MAX_FRAME,
        (Stage::Reading { material, .. }, Ev::Keys(Ok(content))) => enrolled(
            lines_of(content),
            material,
        ) matches Some(comment) ==> weight(comment) <= MAX_TOLD,
        (Stage::Reading { .. }, Ev::Keys(Err(why))) => weight(why) <= MAX_TOLD,
        (Stage::Saving { .. }, Ev::Unsaved(why)) => weight(why) <= MAX_TOLD,
        _ => true,
    }
}

/// The bytes of some texts, nine more for each.
pub open spec fn room_for(list: Seq<Seq<char>>) -> nat
    decreases list.len(),
{
    if list.len() == 0 {
        0
    } else {
        room_for(list.drop_last()) + weight(list.last()) + 9
    }
}

/// Whether the offer and the marker fit the frames that carry them.
pub open spec fn servable(terms: SessionTerms) -> bool {
    &&& weight(terms.offer.name) + weight(terms.offer.user) + room_for(terms.offer.addrs) + room_for(
        terms.offer.hostkeys,
    ) <= MAX_TOLD
    &&& weight(terms.marker_id) <= MAX_TOLD
}

fn room_in(list: &Vec<String>) -> (r: Option<usize>)
    ensures
        match r {
            Some(n) => n == room_for(views(list@)) && n <= MAX_TOLD,
            None => room_for(views(list@)) > MAX_TOLD,
        },
{
    let mut room: usize = 0;
    let mut i: usize = 0;
    assert(views(list@).take(0) == Seq::<Seq<char>>::empty());
    while i < list.len()
        invariant
            i <= list@.len(),
            room == room_for(views(list@).take(i as int)),
            room <= MAX_TOLD,
        decreases list.len() - i,
    {
        let len = list[i].as_str().as_bytes().len();
        proof {
            let done = views(list@).take(i + 1);
            assert(done.drop_last() == views(list@).take(i as int));
            assert(done.last() == list@[i as int]@);
            lemma_room_grows(views(list@), i + 1);
        }
        if len > MAX_TOLD - room || 9 > MAX_TOLD - room - len {
            return None;
        }
        room = room + len + 9;
        i = i + 1;
    }
    assert(views(list@).take(i as int) == views(list@));
    Some(room)
}

proof fn lemma_room_grows(list: Seq<Seq<char>>, n: int)
    requires
        0 <= n <= list.len(),
    ensures
        room_for(list.take(n)) <= room_for(list),
    decreases list.len() - n,
{
    if n == list.len() {
        assert(list.take(n) == list);
    } else {
        assert(list.take(n + 1).drop_last() == list.take(n));
        lemma_room_grows(list, n + 1);
    }
}

impl SessionConfig {
    /// Whether the offer and the marker fit the frames that carry them.
    pub fn is_servable(&self) -> (r: bool)
        ensures
            r == servable(self@),
    {
        let addrs = match room_in(&self.offer.addrs) {
            Some(n) => n,
            None => {
                return false;
            },
        };
        let hostkeys = match room_in(&self.offer.hostkeys) {
            Some(n) => n,
            None => {
                return false;
            },
        };
        let name = self.offer.name.as_str().as_bytes().len();
        let user = self.offer.user.as_str().as_bytes().len();
        let marker = self.marker_id.as_str().as_bytes().len();
        if name > MAX_TOLD || user > MAX_TOLD || marker > MAX_TOLD {
            return false;
        }
        let left: usize = MAX_TOLD - addrs;
        if hostkeys > left || name > left - hostkeys {
            return false;
        }
        user <= left - hostkeys - name
    }
}

/// How far an exchange has come.
enum Phase {
    Start,
    Intro { preauth: u64 },
    Hello { preauth: u64, epub: [u8; 32], mode: String, channel: Channel },
    Accepted { channel: Channel },
    Offered { channel: Channel, postauth: u64 },
    Enroll { channel: Channel },
    Keyed { channel: Channel, device: String, canonical: Option<String> },
    Prompt { channel: Channel, device: String, canonical: Option<String> },
    Consented { channel: Channel, device: String, canonical: Option<String> },
    Reading {
        channel: Channel,
        device: String,
        key_type: String,
        material: String,
        comment: String,
    },
    Saving { channel: Channel, device: String, comment: String },
    Enrolled { device: String, comment: String },
    Refused { result: ConnectionResult },
    Closed,
}

spec fn text_in(s: Option<String>) -> Option<Seq<char>> {
    match s {
        Some(s) => Some(s@),
        None => None,
    }
}

impl Phase {
    spec fn stage(&self) -> Stage {
        match self {
            Phase::Start => Stage::Start,
            Phase::Intro { preauth } => Stage::Intro { preauth: *preauth as nat },
            Phase::Hello { preauth, epub, mode, channel } => Stage::Hello {
                preauth: *preauth as nat,
                epub: epub@,
                mode: mode@,
                channel: channel@,
            },
            Phase::Accepted { channel } => Stage::Accepted { channel: channel@ },
            Phase::Offered { channel, postauth } => Stage::Offered {
                channel: channel@,
                postauth: *postauth as nat,
            },
            Phase::Enroll { channel } => Stage::Enroll { channel: channel@ },
            Phase::Keyed { channel, device, canonical } => Stage::Keyed {
                channel: channel@,
                device: device@,
                canonical: text_in(*canonical),
            },
            Phase::Prompt { channel, device, canonical } => Stage::Prompt {
                channel: channel@,
                device: device@,
                canonical: text_in(*canonical),
            },
            Phase::Consented { channel, device, canonical } => Stage::Consented {
                channel: channel@,
                device: device@,
                canonical: text_in(*canonical),
            },
            Phase::Reading { channel, device, key_type, material, comment } => Stage::Reading {
                channel: channel@,
                device: device@,
                key_type: key_type@,
                material: material@,
                comment: comment@,
            },
            Phase::Saving { channel, device, comment } => Stage::Saving {
                channel: channel@,
                device: device@,
                comment: comment@,
            },
            Phase::Enrolled { device, comment } => Stage::Enrolled {
                device: device@,
                comment: comment@,
            },
            Phase::Refused { result } => Stage::Refused { result: result@ },
            Phase::Closed => Stage::Closed,
        }
    }
}

spec fn counts(channel: ChannelState, c2s: nat, s2c: nat) -> bool {
    channel.seq_c2s == c2s && channel.seq_s2c == s2c
}

/// How many frames a stage's channel has carried.
spec fn counted(stage: Stage) -> bool {
    match stage {
        Stage::Hello { channel, .. } => counts(channel, 0, 0),
        Stage::Accepted { channel } => counts(channel, 1, 0),
        Stage::Offered { channel, .. } => counts(channel, 1, 1),
        Stage::Enroll { channel } => counts(channel, 1, 1),
        Stage::Keyed { channel, .. } => counts(channel, 2, 1),
        Stage::Prompt { channel, .. } => counts(channel, 2, 1),
        Stage::Consented { channel, .. } => counts(channel, 2, 1),
        Stage::Reading { channel, .. } => counts(channel, 2, 1),
        Stage::Saving { channel, .. } => counts(channel, 2, 1),
        _ => true,
    }
}

/// The counters stand where the stage has them, and the comment is one that a
/// reply can tell.
spec fn sound(stage: Stage) -> bool {
    &&& counted(stage)
    &&& match stage {
        Stage::Reading { comment, .. } => weight(comment) <= MAX_TOLD + 100,
        Stage::Saving { comment, .. } => weight(comment) <= MAX_TOLD + 100,
        _ => true,
    }
}

/// The end of a window that starts now.
pub fn phase_deadline(deadline: u64, now: u64, budget: u64) -> (r: u64)
    ensures
        r == window_end(now as nat, budget as nat, deadline as nat),
{
    if now < deadline && budget < deadline - now {
        now + budget
    } else {
        deadline
    }
}

/// What is left of a window, unless it is over. A reader asks before each read,
/// so that a peer which trickles its bytes gets its window and no more.
pub fn remaining(deadline: u64, now: u64) -> (r: Option<u64>)
    ensures
        match r {
            Some(left) => left > 0 && now + left == deadline,
            None => now >= deadline,
        },
{
    if now < deadline {
        Some(deadline - now)
    } else {
        None
    }
}

/// What is kept of a device's name.
pub fn device_name(name: &str) -> (r: String)
    ensures
        r@ == device_of(name@),
{
    let chars = chars_of(name);
    let mut kept: Vec<char> = Vec::new();
    let mut i: usize = 0;
    while i < chars.len() && kept.len() < MAX_DEVICE
        invariant
            chars@ == name@,
            i <= chars@.len(),
            kept@ == printable(chars@.take(i as int)),
            kept@.len() <= MAX_DEVICE,
        decreases chars.len() - i,
    {
        assert(chars@.take(i + 1).drop_last() == chars@.take(i as int));
        if !control(chars[i]) {
            kept.push(chars[i]);
        }
        i = i + 1;
    }
    proof {
        lemma_printable_grows(chars@, i as int);
        if i == chars@.len() {
            assert(chars@.take(i as int) == chars@);
        }
        assert(kept@ == device_of(name@));
        assert(kept@.subrange(0, kept@.len() as int) == kept@);
    }
    text_of(&kept, 0, kept.len())
}

proof fn lemma_printable_grows(s: Seq<char>, n: int)
    requires
        0 <= n <= s.len(),
    ensures
        printable(s.take(n)).is_prefix_of(printable(s)),
    decreases s.len() - n,
{
    if n == s.len() {
        assert(s.take(n) == s);
    } else {
        assert(s.take(n + 1).drop_last() == s.take(n));
        assert(printable(s.take(n)).is_prefix_of(printable(s.take(n + 1))));
        lemma_printable_grows(s, n + 1);
    }
}

fn text_values(list: &Vec<String>) -> (r: Value)
    ensures
        r@ == texts(views(list@)),
{
    let mut out: Vec<Value> = Vec::new();
    let mut i: usize = 0;
    while i < list.len()
        invariant
            i <= list@.len(),
            out@.len() == i,
            forall|k: int| 0 <= k < i ==> (#[trigger] out@[k])@ == Cbor::Text(list@[k]@),
        decreases list.len() - i,
    {
        out.push(text(list[i].as_str()));
        i = i + 1;
    }
    let r = Value::Array(out);
    assert(r@ matches Cbor::Array(items) && items =~= (texts(views(list@))->Array_0));
    r
}

fn dict2(k0: &str, v0: Value, k1: &str, v1: Value) -> (r: Value)
    ensures
        r@ == Cbor::Dict(seq![(Cbor::Text(k0@), v0@), (Cbor::Text(k1@), v1@)]),
{
    let r = Value::Dict(vec![(text(k0), v0), (text(k1), v1)]);
    assert(r@->Dict_0 =~= seq![(Cbor::Text(k0@), v0@), (Cbor::Text(k1@), v1@)]);
    r
}

fn dict3(k0: &str, v0: Value, k1: &str, v1: Value, k2: &str, v2: Value) -> (r: Value)
    ensures
        r@ == Cbor::Dict(
            seq![(Cbor::Text(k0@), v0@), (Cbor::Text(k1@), v1@), (Cbor::Text(k2@), v2@)],
        ),
{
    let r = Value::Dict(vec![(text(k0), v0), (text(k1), v1), (text(k2), v2)]);
    assert(r@->Dict_0 =~= seq![
        (Cbor::Text(k0@), v0@),
        (Cbor::Text(k1@), v1@),
        (Cbor::Text(k2@), v2@),
    ]);
    r
}

/// The OFFER's body.
pub fn offer_value(offer: &OfferRecord) -> (r: Value)
    ensures
        r@ == offer_body(offer@),
{
    let port = Value::Integer(offer.ssh_port as i128);
    assert(port@ == Cbor::Integer(offer.ssh_port as int));
    let ssh = dict3(
        "user",
        text(offer.user.as_str()),
        "port",
        port,
        "hostkeys",
        text_values(&offer.hostkeys),
    );
    dict3(
        "name",
        text(offer.name.as_str()),
        "addrs",
        text_values(&offer.addrs),
        "ssh",
        ssh,
    )
}

/// The body of a DONE: the comment of the enrolled key, or why there is none.
pub fn done_value(result: Result<&str, &str>) -> (r: Value)
    ensures
        r@ == (match result {
            Ok(comment) => done_ok(comment@),
            Err(message) => done_err(message@),
        }),
{
    match result {
        Ok(comment) => {
            let yes = Value::Bool(true);
            assert(yes@ == Cbor::Bool(true));
            dict2("ok", yes, "comment", text(comment))
        },
        Err(message) => {
            let no = Value::Bool(false);
            assert(no@ == Cbor::Bool(false));
            dict2("ok", no, "err", text(message))
        },
    }
}

proof fn lemma_text(t: Seq<char>, depth: nat)
    ensures
        plain(Cbor::Text(t), depth),
        fits(Cbor::Text(t)),
        cbor_size(Cbor::Text(t)) == 9 + weight(t),
{
}

/// A small map is plain if its values are, and its size is theirs and its
/// keys'.
proof fn lemma_dict2(k0: Seq<char>, v0: Cbor, k1: Seq<char>, v1: Cbor, depth: nat)
    requires
        depth > 0,
        plain(v0, (depth - 1) as nat),
        plain(v1, (depth - 1) as nat),
        fits(v0),
        fits(v1),
    ensures
        ({
            let c = Cbor::Dict(seq![(Cbor::Text(k0), v0), (Cbor::Text(k1), v1)]);
            &&& plain(c, depth)
            &&& fits(c)
            &&& cbor_size(c) <= 27 + weight(k0) + weight(k1) + cbor_size(v0) + cbor_size(v1)
        }),
{
    let entries = seq![(Cbor::Text(k0), v0), (Cbor::Text(k1), v1)];
    lemma_text(k0, (depth - 1) as nat);
    lemma_text(k1, (depth - 1) as nat);
    assert(entries_size(entries, 0) == 0);
    assert(entries_size(entries, 1) == cbor_size(Cbor::Text(k0)) + cbor_size(v0));
    assert(entries_size(entries, 2) == entries_size(entries, 1) + cbor_size(Cbor::Text(k1))
        + cbor_size(v1));
}

proof fn lemma_dict3(
    k0: Seq<char>,
    v0: Cbor,
    k1: Seq<char>,
    v1: Cbor,
    k2: Seq<char>,
    v2: Cbor,
    depth: nat,
)
    requires
        depth > 0,
        plain(v0, (depth - 1) as nat),
        plain(v1, (depth - 1) as nat),
        plain(v2, (depth - 1) as nat),
        fits(v0),
        fits(v1),
        fits(v2),
    ensures
        ({
            let c = Cbor::Dict(
                seq![(Cbor::Text(k0), v0), (Cbor::Text(k1), v1), (Cbor::Text(k2), v2)],
            );
            &&& plain(c, depth)
            &&& fits(c)
            &&& cbor_size(c) <= 36 + weight(k0) + weight(k1) + weight(k2) + cbor_size(v0)
                + cbor_size(v1) + cbor_size(v2)
        }),
{
    let entries = seq![(Cbor::Text(k0), v0), (Cbor::Text(k1), v1), (Cbor::Text(k2), v2)];
    lemma_text(k0, (depth - 1) as nat);
    lemma_text(k1, (depth - 1) as nat);
    lemma_text(k2, (depth - 1) as nat);
    assert(entries_size(entries, 0) == 0);
    assert(entries_size(entries, 1) == cbor_size(Cbor::Text(k0)) + cbor_size(v0));
    assert(entries_size(entries, 2) == entries_size(entries, 1) + cbor_size(Cbor::Text(k1))
        + cbor_size(v1));
    assert(entries_size(entries, 3) == entries_size(entries, 2) + cbor_size(Cbor::Text(k2))
        + cbor_size(v2));
}

proof fn lemma_texts_size(list: Seq<Seq<char>>, items: Seq<Cbor>, n: nat)
    requires
        n <= list.len(),
        items == (texts(list)->Array_0),
    ensures
        items_size(items, n) <= room_for(list.take(n as int)),
    decreases n,
{
    if n > 0 {
        lemma_texts_size(list, items, (n - 1) as nat);
        assert(list.take(n as int).drop_last() == list.take(n - 1));
        lemma_text(list[n - 1], 0);
    }
}

proof fn lemma_texts(list: Seq<Seq<char>>, depth: nat)
    requires
        depth > 0,
    ensures
        plain(texts(list), depth),
        fits(texts(list)),
        cbor_size(texts(list)) <= 9 + room_for(list),
{
    let items = texts(list)->Array_0;
    assert forall|i: int| 0 <= i < items.len() implies plain(
        #[trigger] items[i],
        (depth - 1) as nat,
    ) && fits(items[i]) by {
        lemma_text(list[i], (depth - 1) as nat);
    }
    lemma_texts_size(list, items, list.len());
    assert(list.take(list.len() as int) == list);
}

proof fn lemma_offer(terms: SessionTerms)
    requires
        servable(terms),
        terms.offer.ssh_port < 0x10000,
    ensures
        plain(offer_body(terms.offer), 16),
        fits(offer_body(terms.offer)),
        cbor_size(offer_body(terms.offer)) <= MAX_TOLD + 700,
{
    let o = terms.offer;
    reveal_strlit("user");
    lemma_weight_bound("user"@);
    reveal_strlit("port");
    lemma_weight_bound("port"@);
    reveal_strlit("hostkeys");
    lemma_weight_bound("hostkeys"@);
    reveal_strlit("name");
    lemma_weight_bound("name"@);
    reveal_strlit("addrs");
    lemma_weight_bound("addrs"@);
    reveal_strlit("ssh");
    lemma_weight_bound("ssh"@);
    lemma_text(o.user, 14);
    lemma_text(o.name, 15);
    lemma_texts(o.hostkeys, 14);
    lemma_texts(o.addrs, 15);
    let port = Cbor::Integer(o.ssh_port as int);
    assert(plain(port, 14) && fits(port) && cbor_size(port) == 9);
    lemma_dict3("user"@, Cbor::Text(o.user), "port"@, port, "hostkeys"@, texts(o.hostkeys), 15);
    let ssh = Cbor::Dict(
        seq![
            (Cbor::Text("user"@), Cbor::Text(o.user)),
            (Cbor::Text("port"@), port),
            (Cbor::Text("hostkeys"@), texts(o.hostkeys)),
        ],
    );
    lemma_dict3("name"@, Cbor::Text(o.name), "addrs"@, texts(o.addrs), "ssh"@, ssh, 16);
}

proof fn lemma_done(told: Seq<char>)
    requires
        weight(told) <= MAX_TOLD + 200,
    ensures
        plain(done_ok(told), 16),
        fits(done_ok(told)),
        cbor_size(done_ok(told)) <= MAX_TOLD + 700,
        plain(done_err(told), 16),
        fits(done_err(told)),
        cbor_size(done_err(told)) <= MAX_TOLD + 700,
{
    reveal_strlit("ok");
    lemma_weight_bound("ok"@);
    reveal_strlit("comment");
    lemma_weight_bound("comment"@);
    reveal_strlit("err");
    lemma_weight_bound("err"@);
    lemma_text(told, 15);
    let (yes, no) = (Cbor::Bool(true), Cbor::Bool(false));
    assert(plain(yes, 15) && fits(yes) && cbor_size(yes) == 9);
    assert(plain(no, 15) && fits(no) && cbor_size(no) == 9);
    lemma_dict2("ok"@, yes, "comment"@, Cbor::Text(told), 16);
    lemma_dict2("ok"@, no, "err"@, Cbor::Text(told), 16);
}

/// Seals a body as the next frame to the client.
fn reply(channel: &mut Channel, body: &Value) -> (r: Vec<u8>)
    requires
        old(channel)@.seq_s2c < u64::MAX,
        plain(body@, 16),
        fits(body@),
        cbor_size(body@) <= MAX_TOLD + 700,
    ensures
        r@ == sealed_body(old(channel)@, body@),
        readable(old(channel)@, body@, r@),
        r@.len() <= u32::MAX,
        final(channel)@ == replied(old(channel)@),
{
    proof {
        lemma_plain_is_nan_free(body@, 16);
    }
    channel.seal_s2c(encode(body).as_slice())
}

/// Tells the client why, and ends with `result`.
fn send_refusal(channel: Channel, why: &str, result: ConnectionResult, within: u64) -> (r: (
    Phase,
    Action,
))
    requires
        channel@.seq_s2c < u64::MAX,
        weight(why@) <= MAX_TOLD + 200,
    ensures
        r.0.stage() == refuse(channel@, why@, result@, within as nat).0,
        r.1.does(refuse(channel@, why@, result@, within as nat).1),
        sound(r.0.stage()),
{
    proof {
        lemma_done(why@);
    }
    let mut channel = channel;
    let frame = reply(&mut channel, &done_value(Err(why)));
    (Phase::Refused { result }, Action::Send { frame, within })
}

/// Tells the client the comment of its key.
fn send_done(channel: Channel, device: String, comment: String) -> (r: (Phase, Action))
    requires
        channel@.seq_s2c < u64::MAX,
        weight(comment@) <= MAX_TOLD + 200,
    ensures
        r.0.stage() == finish(channel@, device@, comment@).0,
        r.1.does(finish(channel@, device@, comment@).1),
        sound(r.0.stage()),
{
    proof {
        lemma_done(comment@);
    }
    let mut channel = channel;
    let frame = reply(&mut channel, &done_value(Ok(comment.as_str())));
    (Phase::Enrolled { device, comment }, Action::Send { frame, within: POSTAUTH_TIMEOUT })
}

fn hang_up(result: ConnectionResult) -> (r: (Phase, Action))
    ensures
        r.0.stage() == close(result@).0,
        r.1.does(close(result@).1),
        sound(r.0.stage()),
{
    (Phase::Closed, Action::Close(result))
}

fn ignore() -> (r: (Phase, Action))
    ensures
        r.0.stage() == close(Ended::Ignore).0,
        r.1.does(close(Ended::Ignore).1),
        sound(r.0.stage()),
{
    hang_up(ConnectionResult::Ignore)
}

/// The key and the mode of an INTRO.
fn read_intro(frame: &[u8]) -> (r: Option<([u8; 32], String)>)
    ensures
        match r {
            Some((epub, mode)) => intro_of(frame@) == Some((epub@, mode@)),
            None => intro_of(frame@) is None,
        },
{
    let intro = match decode(frame) {
        Ok(intro) => intro,
        Err(_) => {
            return None;
        },
    };
    match map_get(&intro, "v") {
        Some(Value::Integer(1)) => {},
        _ => {
            return None;
        },
    }
    let epub = get_bytes(&intro, "epub")?;
    let mode = get_text(&intro, "mode")?;
    if epub.len() != 32 {
        return None;
    }
    assert(epub@.subrange(0, 32) == epub@);
    Some((array_at::<32>(epub.as_slice(), 0), mode))
}

/// Opens and reads the client's next frame.
fn hear(channel: &mut Channel, frame: &[u8]) -> (r: Option<Value>)
    requires
        old(channel)@.seq_c2s < u64::MAX,
        frame@.len() <= MAX_FRAME,
    ensures
        match r {
            Some(body) => heard(old(channel)@, frame@) == Some(body@) && final(channel)@
                == received(old(channel)@),
            None => heard(old(channel)@, frame@) is None,
        },
{
    match channel.open_c2s(frame) {
        Ok(plain) => match decode(plain.as_slice()) {
            Ok(body) => Some(body),
            Err(_) => None,
        },
        Err(_) => None,
    }
}

fn take_intro(config: &SessionConfig, preauth: u64, frame: &[u8]) -> (r: (Phase, Action))
    ensures
        r.0.stage() == on_intro(config@, preauth as nat, frame@).0,
        r.1.does(on_intro(config@, preauth as nat, frame@).1),
        sound(r.0.stage()),
{
    match read_intro(frame) {
        Some((epub, mode)) => {
            let (shared, contributory) = shared_secret(&config.secret, &epub);
            if !contributory {
                return ignore();
            }
            let channel = Channel::derive(&shared, &epub, &config.spub);
            (Phase::Hello { preauth, epub, mode, channel }, Action::Read { by: preauth })
        },
        None => ignore(),
    }
}

fn take_hello(
    config: &SessionConfig,
    pin_retired: bool,
    epub: [u8; 32],
    mode: String,
    channel: Channel,
    frame: &[u8],
) -> (r: (Phase, Action))
    requires
        counts(channel@, 0, 0),
        frame@.len() <= MAX_FRAME,
    ensures
        r.0.stage() == on_hello(config@, pin_retired, epub@, mode@, channel@, frame@).0,
        r.1.does(on_hello(config@, pin_retired, epub@, mode@, channel@, frame@).1),
        sound(r.0.stage()),
{
    proof {
        reveal_strlit("wrong pin");
        lemma_weight_bound("wrong pin"@);
        reveal_strlit("pin retired for this offer");
        lemma_weight_bound("pin retired for this offer"@);
        reveal_strlit("token");
        lemma_weight_bound("token"@);
        reveal_strlit("pin");
        lemma_weight_bound("pin"@);
        assert("token"@.len() != "pin"@.len());
    }
    let mut channel = channel;
    let hello = match hear(&mut channel, frame) {
        Some(hello) => hello,
        None => {
            return ignore();
        },
    };
    let proof_bytes = match get_bytes(&hello, "proof") {
        Some(bytes) => bytes,
        None => {
            return ignore();
        },
    };
    let authorized = if same(mode.as_str(), "token") {
        equal_in_constant_time(proof_bytes.as_slice(), &config.token)
    } else if same(mode.as_str(), "pin") {
        if pin_retired {
            return send_refusal(
                channel,
                "pin retired for this offer",
                ConnectionResult::Ignore,
                PREAUTH_TIMEOUT,
            );
        }
        let expected = pin_proof(config.pin.as_str(), &epub, &config.spub);
        if !equal_in_constant_time(proof_bytes.as_slice(), &expected) {
            return send_refusal(
                channel,
                "wrong pin",
                ConnectionResult::PinFailure,
                PREAUTH_TIMEOUT,
            );
        }
        true
    } else {
        return ignore();
    };
    if !authorized {
        return ignore();
    }
    (Phase::Accepted { channel }, Action::Clock)
}

fn take_enroll(channel: Channel, frame: &[u8]) -> (r: (Phase, Action))
    requires
        counts(channel@, 1, 1),
        frame@.len() <= MAX_FRAME,
    ensures
        r.0.stage() == on_enroll(channel@, frame@).0,
        r.1.does(on_enroll(channel@, frame@).1),
        sound(r.0.stage()),
{
    proof {
        reveal_strlit("unparseable public key");
        lemma_weight_bound("unparseable public key"@);
        reveal_strlit("only ed25519 keys are accepted");
        lemma_weight_bound("only ed25519 keys are accepted"@);
    }
    let mut channel = channel;
    let enroll = match hear(&mut channel, frame) {
        Some(enroll) => enroll,
        None => {
            return ignore();
        },
    };
    let line = match get_text(&enroll, "pubkey") {
        Some(line) => line,
        None => {
            return ignore();
        },
    };
    let device = match get_text(&enroll, "device") {
        Some(name) => device_name(name.as_str()),
        None => device_name(""),
    };
    proof {
        reveal_strlit("");
        lemma_weight_bound(""@);
        assert(""@ =~= Seq::<char>::empty());
    }
    let key = match read_openssh(trim(line.as_str()).as_str()) {
        Some(key) => key,
        None => {
            return send_refusal(
                channel,
                "unparseable public key",
                ConnectionResult::Ignore,
                POSTAUTH_TIMEOUT,
            );
        },
    };
    if !contains(key.algorithm.as_str(), "ed25519") {
        return send_refusal(
            channel,
            "only ed25519 keys are accepted",
            ConnectionResult::Ignore,
            POSTAUTH_TIMEOUT,
        );
    }
    (Phase::Keyed { channel, device, canonical: key.canonical }, Action::Clock)
}

fn send_expired(channel: Channel) -> (r: (Phase, Action))
    requires
        channel@.seq_s2c < u64::MAX,
    ensures
        r.0.stage() == expire(channel@).0,
        r.1.does(expire(channel@).1),
        sound(r.0.stage()),
{
    proof {
        reveal_strlit("offer expired");
        lemma_weight_bound("offer expired"@);
    }
    send_refusal(channel, "offer expired", ConnectionResult::Ignore, POSTAUTH_TIMEOUT)
}

fn send_unwritten(channel: Channel, why: &str) -> (r: (Phase, Action))
    requires
        channel@.seq_s2c < u64::MAX,
        weight(why@) <= MAX_TOLD,
    ensures
        r.0.stage() == unwritten(channel@, why@).0,
        r.1.does(unwritten(channel@, why@).1),
        sound(r.0.stage()),
{
    proof {
        reveal_strlit("could not write authorized_keys: ");
        lemma_weight_bound("could not write authorized_keys: "@);
        lemma_weight_concat("could not write authorized_keys: "@, why@);
    }
    let message = cat("could not write authorized_keys: ", why);
    send_refusal(channel, message.as_str(), ConnectionResult::Ignore, POSTAUTH_TIMEOUT)
}

fn take_consent(
    config: &SessionConfig,
    channel: Channel,
    device: String,
    canonical: Option<String>,
    now: u64,
) -> (r: (Phase, Action))
    requires
        counts(channel@, 2, 1),
        servable(config@),
    ensures
        r.0.stage() == on_consent(config@, channel@, device@, text_in(canonical), now as nat).0,
        r.1.does(on_consent(config@, channel@, device@, text_in(canonical), now as nat).1),
        sound(r.0.stage()),
{
    if now >= config.deadline {
        return send_expired(channel);
    }
    let line = match canonical {
        Some(line) => line,
        None => {
            return ignore();
        },
    };
    let fields = split_fields(line.as_str());
    if fields.len() < 2 {
        return ignore();
    }
    let slug = device_slug(device.as_str());
    let mut comment = cat(config.marker_id.as_str(), ":");
    comment.append(slug.as_str());
    proof {
        slugs_are_clean(device@);
        lemma_weight_bound(slug_of(device@));
        lemma_weight_concat(config.marker_id@ + ":"@, slug_of(device@));
        lemma_weight_concat(config.marker_id@, ":"@);
        reveal_strlit(":");
        lemma_weight_bound(":"@);
        assert(views(fields@)[0] == fields@[0]@);
        assert(views(fields@)[1] == fields@[1]@);
    }
    (
        Phase::Reading {
            channel,
            device,
            key_type: fields[0].clone(),
            material: fields[1].clone(),
            comment,
        },
        Action::ReadKeys,
    )
}

fn take_keys(
    channel: Channel,
    device: String,
    key_type: String,
    material: String,
    comment: String,
    file: &FileRead,
) -> (r: (Phase, Action))
    requires
        counts(channel@, 2, 1),
        weight(comment@) <= MAX_TOLD + 100,
        match content_of(*file) {
            Ok(content) => enrolled(lines_of(content), material@) matches Some(there) ==> weight(
                there,
            ) <= MAX_TOLD,
            Err(e) => weight(e.told()) <= MAX_TOLD,
        },
    ensures
        ({
            let keys = match content_of(*file) {
                Ok(content) => Ok(content),
                Err(e) => Err(e.told()),
            };
            let (stage, act) = on_keys(
                channel@,
                device@,
                key_type@,
                material@,
                comment@,
                keys,
            );
            r.0.stage() == stage && r.1.does(act)
        }),
        sound(r.0.stage()),
{
    match ensure_line(file, key_type.as_str(), material.as_str(), comment.as_str()) {
        Ok((AddOutcome::AlreadyPresent { comment: there }, _)) => send_done(channel, device, there),
        Ok((AddOutcome::Added, Some(content))) => (
            Phase::Saving { channel, device, comment },
            Action::WriteKeys(content),
        ),
        Ok((AddOutcome::Added, None)) => ignore(),
        Err(e) => send_unwritten(channel, e.message().as_str()),
    }
}

/// The exchange with one peer.
pub struct Exchange {
    pin_retired: bool,
    phase: Phase,
}

impl Exchange {
    /// How far the exchange has come.
    pub closed spec fn stage(&self) -> Stage {
        self.phase.stage()
    }

    /// Whether PIN proofs are refused, right or wrong.
    pub closed spec fn pin_retired(&self) -> bool {
        self.pin_retired
    }

    /// The frame counters stand where the stage has them.
    pub closed spec fn well_formed(&self) -> bool {
        sound(self.phase.stage())
    }

    /// An exchange with a peer that has just connected, and its first action.
    pub fn new(pin_retired: bool) -> (r: (Self, Action))
        ensures
            r.0.stage() == Stage::Start,
            r.0.pin_retired() == pin_retired,
            r.0.well_formed(),
            r.1.does(Act::Clock),
    {
        (Exchange { pin_retired, phase: Phase::Start }, Action::Clock)
    }

    /// Whether an event keeps within the limits. The only comment that has to is
    /// the one that the client is told.
    pub fn can_take(&self, event: &Event) -> (r: bool)
        ensures
            r == tellable(self.stage(), event@),
    {
        match event {
            Event::Frame(frame) => frame.len() <= MAX_FRAME,
            Event::Keys(file) => match &self.phase {
                Phase::Reading { material, .. } => match ensure_line(
                    file,
                    "",
                    material.as_str(),
                    "",
                ) {
                    Ok((AddOutcome::AlreadyPresent { comment }, _)) => {
                        comment.as_str().as_bytes().len() <= MAX_TOLD
                    },
                    Ok((AddOutcome::Added, _)) => true,
                    Err(e) => e.message().as_str().as_bytes().len() <= MAX_TOLD,
                },
                _ => true,
            },
            Event::Unsaved(why) => match &self.phase {
                Phase::Saving { .. } => why.as_str().as_bytes().len() <= MAX_TOLD,
                _ => true,
            },
            _ => true,
        }
    }

    /// Takes in what came of the last action, and says what is to be done next.
    pub fn step(self, config: &SessionConfig, event: Event) -> (r: (Self, Action))
        requires
            self.well_formed(),
            servable(config@),
            tellable(self.stage(), event@),
        ensures
            r.0.stage() == next(config@, self.pin_retired(), self.stage(), event@).0,
            r.1.does(next(config@, self.pin_retired(), self.stage(), event@).1),
            r.0.pin_retired() == self.pin_retired(),
            r.0.well_formed(),
    {
        let pin_retired = self.pin_retired;
        let (phase, action) = match (self.phase, event) {
            (Phase::Start, Event::Now(now)) => {
                let preauth = phase_deadline(config.deadline, now, PREAUTH_TIMEOUT);
                (Phase::Intro { preauth }, Action::Read { by: preauth })
            },
            (Phase::Intro { preauth }, Event::Frame(frame)) => take_intro(
                config,
                preauth,
                frame.as_slice(),
            ),
            (Phase::Hello { preauth: _, epub, mode, channel }, Event::Frame(frame)) => take_hello(
                config,
                pin_retired,
                epub,
                mode,
                channel,
                frame.as_slice(),
            ),
            (Phase::Accepted { channel }, Event::Now(now)) => {
                let postauth = phase_deadline(config.deadline, now, POSTAUTH_TIMEOUT);
                let mut channel = channel;
                proof {
                    lemma_offer(config@);
                }
                let frame = reply(&mut channel, &offer_value(&config.offer));
                (
                    Phase::Offered { channel, postauth },
                    Action::Send { frame, within: POSTAUTH_TIMEOUT },
                )
            },
            (Phase::Offered { channel, postauth }, Event::Sent) => (
                Phase::Enroll { channel },
                Action::Read { by: postauth },
            ),
            (Phase::Enroll { channel }, Event::Frame(frame)) => take_enroll(
                channel,
                frame.as_slice(),
            ),
            (Phase::Keyed { channel, device, canonical }, Event::Now(now)) => {
                if now >= config.deadline {
                    send_expired(channel)
                } else {
                    let asked = device.clone();
                    (Phase::Prompt { channel, device, canonical }, Action::Confirm(asked))
                }
            },
            (Phase::Prompt { channel, device, canonical }, Event::Answer(yes)) => {
                if yes {
                    (Phase::Consented { channel, device, canonical }, Action::Clock)
                } else {
                    proof {
                        reveal_strlit("declined on the host");
                        lemma_weight_bound("declined on the host"@);
                    }
                    send_refusal(
                        channel,
                        "declined on the host",
                        ConnectionResult::Declined,
                        POSTAUTH_TIMEOUT,
                    )
                }
            },
            (Phase::Consented { channel, device, canonical }, Event::Now(now)) => take_consent(
                config,
                channel,
                device,
                canonical,
                now,
            ),
            (
                Phase::Reading { channel, device, key_type, material, comment },
                Event::Keys(file),
            ) => take_keys(channel, device, key_type, material, comment, &file),
            (Phase::Saving { channel, device, comment }, Event::Saved) => send_done(
                channel,
                device,
                comment,
            ),
            (Phase::Saving { channel, device: _, comment: _ }, Event::Unsaved(why)) => send_unwritten(
                channel,
                why.as_str(),
            ),
            (Phase::Enrolled { device, comment }, Event::Sent) => hang_up(
                ConnectionResult::Enrolled { device, comment, acknowledged: true },
            ),
            (Phase::Enrolled { device, comment }, _) => hang_up(
                ConnectionResult::Enrolled { device, comment, acknowledged: false },
            ),
            (Phase::Refused { result }, _) => hang_up(result),
            _ => ignore(),
        };
        (Exchange { pin_retired, phase }, action)
    }
}

/// Where a peer's exchange has come after some events, and what it asks for.
pub open spec fn after(terms: SessionTerms, pin_retired: bool, events: Seq<Ev>) -> (Stage, Act)
    decreases events.len(),
{
    if events.len() == 0 {
        (Stage::Start, Act::Clock)
    } else {
        next(terms, pin_retired, after(terms, pin_retired, events.drop_last()).0, events.last())
    }
}

/// The channel of a client that introduced itself with this key.
pub open spec fn channel_with(terms: SessionTerms, epub: Seq<u8>) -> ChannelState {
    derived(x25519_shared(terms.secret, epub), epub, terms.spub)
}

/// Whether the first three events bring a proof that is accepted: an INTRO whose
/// key does not make the channel public, and an authentic HELLO with the
/// offer's token, or with the PIN's proof while the PIN serves.
pub open spec fn proved(terms: SessionTerms, pin_retired: bool, events: Seq<Ev>) -> bool {
    &&& events.len() >= 3
    &&& events[1] matches Ev::Frame(intro) && events[2] matches Ev::Frame(hello) && intro_of(intro) matches Some(
        (epub, mode),
    ) && {
        &&& x25519_shared(terms.secret, epub) != zeros(32)
        &&& heard(channel_with(terms, epub), hello) matches Some(body) && bytes_at(
            body,
            "proof"@,
        ) matches Some(proof) && {
            ||| mode == "token"@ && proof == terms.token
            ||| mode == "pin"@ && !pin_retired && proof == pin_proof_of(
                terms.pin,
                epub,
                terms.spub,
            )
        }
    }
}

/// Whether the events behind the proof bring an ed25519 key, the operator's
/// consent to it, and a clock short of the deadline before and after that.
pub open spec fn consented(terms: SessionTerms, events: Seq<Ev>) -> bool {
    &&& events.len() >= 9
    &&& events[1] matches Ev::Frame(intro) && events[5] matches Ev::Frame(enroll) && intro_of(
        intro,
    ) matches Some((epub, mode)) && heard(
        replied(received(channel_with(terms, epub))),
        enroll,
    ) matches Some(body) && text_at(body, "pubkey"@) matches Some(line) && openssh_key(
        trim_of(line),
    ) matches Some(key) && holds(key.algorithm, "ed25519"@)
    &&& events[6] matches Ev::Now(before) && before < terms.deadline
    &&& events[7] == Ev::Answer(true)
    &&& events[8] matches Ev::Now(behind) && behind < terms.deadline
}

/// How many events lead to a stage, and what they bring.
spec fn earned(terms: SessionTerms, pin_retired: bool, events: Seq<Ev>, stage: Stage) -> bool {
    match stage {
        Stage::Start => events.len() == 0,
        Stage::Intro { .. } => events.len() == 1,
        Stage::Hello { epub, mode, channel, .. } => events.len() == 2 && (
        events[1] matches Ev::Frame(intro) && intro_of(intro) == Some((epub, mode))
            && x25519_shared(terms.secret, epub) != zeros(32) && channel == channel_with(
            terms,
            epub,
        )),
        Stage::Accepted { channel } => events.len() == 3 && proved(terms, pin_retired, events)
            && channel == received(channel_of(terms, events)),
        Stage::Offered { channel, .. } => events.len() == 4 && proved(terms, pin_retired, events)
            && channel == replied(received(channel_of(terms, events))),
        Stage::Enroll { channel } => events.len() == 5 && proved(terms, pin_retired, events)
            && channel == replied(received(channel_of(terms, events))),
        Stage::Keyed { .. } => events.len() == 6 && proved(terms, pin_retired, events) && keyed(
            terms,
            events,
        ),
        Stage::Prompt { .. } => events.len() == 7 && proved(terms, pin_retired, events) && keyed(
            terms,
            events,
        ) && (events[6] matches Ev::Now(t) && t < terms.deadline),
        Stage::Consented { .. } => events.len() == 8 && proved(terms, pin_retired, events)
            && keyed(terms, events) && (events[6] matches Ev::Now(t) && t < terms.deadline)
            && events[7] == Ev::Answer(true),
        Stage::Reading { device, comment, .. } => events.len() == 9 && proved(
            terms,
            pin_retired,
            events,
        ) && consented(terms, events) && comment == comment_for(terms, device),
        Stage::Saving { device, comment, .. } => events.len() == 10 && proved(
            terms,
            pin_retired,
            events,
        ) && consented(terms, events) && comment == comment_for(terms, device) && (
        events[9] matches Ev::Keys(Ok(_))),
        Stage::Enrolled { .. } => 10 <= events.len() <= 11 && proved(terms, pin_retired, events)
            && consented(terms, events) && (events[9] matches Ev::Keys(Ok(_))) && (events.len()
            == 11 ==> events[10] == Ev::Saved),
        Stage::Refused { .. } => events.len() <= 11,
        Stage::Closed => true,
    }
}

spec fn channel_of(terms: SessionTerms, events: Seq<Ev>) -> ChannelState {
    let (epub, mode) = intro_of(events[1]->Frame_0)->0;
    channel_with(terms, epub)
}

spec fn keyed(terms: SessionTerms, events: Seq<Ev>) -> bool {
    events.len() >= 6 && (events[5] matches Ev::Frame(enroll) && heard(
        replied(received(channel_of(terms, events))),
        enroll,
    ) matches Some(body) && text_at(body, "pubkey"@) matches Some(line) && openssh_key(
        trim_of(line),
    ) matches Some(key) && holds(key.algorithm, "ed25519"@))
}

proof fn lemma_earned(terms: SessionTerms, pin_retired: bool, events: Seq<Ev>)
    ensures
        earned(terms, pin_retired, events, after(terms, pin_retired, events).0),
    decreases events.len(),
{
    if events.len() > 0 {
        let before = events.drop_last();
        lemma_earned(terms, pin_retired, before);
        assert(forall|i: int| 0 <= i < before.len() ==> before[i] == events[i]);
        assert(events[events.len() - 1] == events.last());
    }
}

/// The key file is written only after an accepted proof, with an ed25519 key,
/// the operator's consent, and the offer's clock short of its deadline on both
/// sides of the prompt; and what is written is the file as it was read and one
/// line under the session's marker.
pub proof fn keys_are_written_only_after_proof_and_consent(
    terms: SessionTerms,
    pin_retired: bool,
    events: Seq<Ev>,
)
    requires
        after(terms, pin_retired, events).1 is WriteKeys,
    ensures
        events.len() == 10,
        proved(terms, pin_retired, events),
        consented(terms, events),
        exists|content: Seq<char>, key_type: Seq<char>, material: Seq<char>, device: Seq<char>|
            events[9] == Ev::Keys(Ok(content)) && enrolled(lines_of(content), material) is None
                && after(terms, pin_retired, events).1 == Act::WriteKeys(
                #[trigger] with_key(
                    content,
                    key_type,
                    material,
                    #[trigger] comment_for(terms, device),
                ),
            ),
{
    let before = events.drop_last();
    let stage = after(terms, pin_retired, before).0;
    lemma_earned(terms, pin_retired, events);
    lemma_earned(terms, pin_retired, before);
    assert(stage is Reading);
    if let Stage::Reading { channel, device, key_type, material, comment } = stage {
        let content = events[9]->Keys_0->Ok_0;
        assert(after(terms, pin_retired, events).1 == Act::WriteKeys(
            with_key(content, key_type, material, comment_for(terms, device)),
        ));
    }
}

/// A peer is reported as enrolled only once its key is in the file: after the
/// file was written, or found to hold the key.
pub proof fn enrolled_means_the_key_is_in_the_file(
    terms: SessionTerms,
    pin_retired: bool,
    events: Seq<Ev>,
)
    requires
        after(terms, pin_retired, events).1 matches Act::Close(Ended::Enrolled { .. }),
    ensures
        proved(terms, pin_retired, events),
        consented(terms, events),
        events[9] matches Ev::Keys(Ok(_)),
        events.len() == 11 || (events.len() == 12 && events[10] == Ev::Saved),
        after(terms, pin_retired, events).1 matches Act::Close(
            Ended::Enrolled { acknowledged, .. },
        ) ==> acknowledged == (events.last() is Sent),
{
    lemma_earned(terms, pin_retired, events.drop_last());
    lemma_never_refused_as_enrolled(terms, pin_retired, events.drop_last());
    let before = events.drop_last();
    assert(forall|i: int| 0 <= i < before.len() ==> before[i] == events[i]);
}

proof fn lemma_never_refused_as_enrolled(terms: SessionTerms, pin_retired: bool, events: Seq<Ev>)
    ensures
        after(terms, pin_retired, events).0 matches Stage::Refused { result } ==> !(
        result is Enrolled) && (result is PinFailure ==> !pin_retired),
    decreases events.len(),
{
    if events.len() > 0 {
        lemma_never_refused_as_enrolled(terms, pin_retired, events.drop_last());
    }
}

/// Once the file is written the peer is reported as enrolled, under the comment
/// that was written, whatever becomes of DONE.
pub proof fn a_saved_key_is_reported(
    terms: SessionTerms,
    pin_retired: bool,
    events: Seq<Ev>,
    last: Ev,
)
    requires
        after(terms, pin_retired, events).0 is Saving,
    ensures
        after(terms, pin_retired, events).0 matches Stage::Saving { device, comment, .. } ==> after(
            terms,
            pin_retired,
            events.push(Ev::Saved).push(last),
        ).1 == Act::Close(Ended::Enrolled { device, comment, acknowledged: last is Sent }),
{
    let saved = events.push(Ev::Saved);
    assert(saved.drop_last() == events);
    assert(saved.push(last).drop_last() == saved);
    assert(after(terms, pin_retired, saved).0 is Enrolled);
    assert(saved.push(last).last() == last);
}

/// A retired PIN is refused with its own message, whether the proof is right
/// or wrong, and counts as no further failure.
pub proof fn a_retired_pin_is_always_refused(
    terms: SessionTerms,
    events: Seq<Ev>,
    hello: Seq<u8>,
    last: Ev,
)
    requires
        after(terms, true, events).0 matches Stage::Hello { mode, channel, .. } && {
            &&& mode == "pin"@
            &&& heard(channel, hello) matches Some(body) && bytes_at(body, "proof"@) is Some
        },
    ensures
        after(terms, true, events).0 matches Stage::Hello { channel, .. } ==> after(
            terms,
            true,
            events.push(Ev::Frame(hello)),
        ).1 == (Act::Send {
            channel: received(channel),
            body: done_err("pin retired for this offer"@),
            within: PREAUTH_TIMEOUT as nat,
        }),
        after(terms, true, events.push(Ev::Frame(hello)).push(last)).1 == Act::Close(Ended::Ignore),
{
    reveal_strlit("token");
    reveal_strlit("pin");
    assert("token"@.len() != "pin"@.len());
    assert(events.push(Ev::Frame(hello)).drop_last() == events);
    assert(events.push(Ev::Frame(hello)).push(last).drop_last() == events.push(Ev::Frame(hello)));
}

/// With the PIN retired no exchange ends as a PIN failure.
pub proof fn a_retired_pin_cannot_fail(terms: SessionTerms, events: Seq<Ev>)
    ensures
        after(terms, true, events).1 != Act::Close(Ended::PinFailure),
{
    if events.len() > 0 {
        lemma_never_refused_as_enrolled(terms, true, events.drop_last());
    }
}

/// Every exchange is over after twelve events at the latest.
pub proof fn every_exchange_ends(terms: SessionTerms, pin_retired: bool, events: Seq<Ev>)
    requires
        events.len() >= 12,
    ensures
        after(terms, pin_retired, events).0 is Closed,
{
    lemma_earned(terms, pin_retired, events);
}

/// A stage's window: it ends when the offer does, or before; and both frames of
/// a peer that has proved nothing are read in one.
spec fn windowed(terms: SessionTerms, events: Seq<Ev>, stage: Stage) -> bool {
    match stage {
        Stage::Intro { preauth } => events[0] matches Ev::Now(t) && preauth == window_end(
            t,
            PREAUTH_TIMEOUT as nat,
            terms.deadline,
        ),
        Stage::Hello { preauth, .. } => events[0] matches Ev::Now(t) && preauth == window_end(
            t,
            PREAUTH_TIMEOUT as nat,
            terms.deadline,
        ),
        Stage::Offered { postauth, .. } => postauth <= terms.deadline,
        _ => true,
    }
}

proof fn lemma_windowed(terms: SessionTerms, pin_retired: bool, events: Seq<Ev>)
    ensures
        windowed(terms, events, after(terms, pin_retired, events).0),
    decreases events.len(),
{
    if events.len() > 0 {
        let before = events.drop_last();
        lemma_windowed(terms, pin_retired, before);
        lemma_earned(terms, pin_retired, before);
        assert(forall|i: int| 0 <= i < before.len() ==> before[i] == events[i]);
        assert(events[events.len() - 1] == events.last());
    }
}

/// Nothing is read from a peer beyond the offer's expiry; and a peer that has
/// proved nothing has one window for both its frames, counted from when it was
/// accepted.
pub proof fn no_read_outlives_its_window(terms: SessionTerms, pin_retired: bool, events: Seq<Ev>)
    requires
        after(terms, pin_retired, events).1 is Read,
    ensures
        after(terms, pin_retired, events).1 matches Act::Read { by } ==> {
            &&& by <= terms.deadline
            &&& events.len() <= 2 ==> (events[0] matches Ev::Now(t) && by <= t + PREAUTH_TIMEOUT)
        },
{
    lemma_windowed(terms, pin_retired, events);
    lemma_windowed(terms, pin_retired, events.drop_last());
    lemma_earned(terms, pin_retired, events);
    lemma_earned(terms, pin_retired, events.drop_last());
}

proof fn lemma_counted(terms: SessionTerms, pin_retired: bool, events: Seq<Ev>)
    ensures
        counted(after(terms, pin_retired, events).0),
    decreases events.len(),
{
    if events.len() > 0 {
        lemma_counted(terms, pin_retired, events.drop_last());
    }
}

proof fn lemma_closed_stays(terms: SessionTerms, pin_retired: bool, events: Seq<Ev>, n: int)
    requires
        0 <= n <= events.len(),
        after(terms, pin_retired, events.take(n)).0 is Closed,
    ensures
        after(terms, pin_retired, events).0 is Closed,
        n < events.len() ==> after(terms, pin_retired, events).1 is Close,
    decreases events.len() - n,
{
    if n == events.len() {
        assert(events.take(n) == events);
    } else {
        assert(events.take(n + 1).drop_last() == events.take(n));
        lemma_closed_stays(terms, pin_retired, events, n + 1);
        if n + 1 == events.len() {
            assert(events.take(n + 1) == events);
        }
    }
}

/// No two frames of an exchange are sealed to the client under the same number,
/// and so under the same nonce.
pub proof fn replies_are_numbered_apart(
    terms: SessionTerms,
    pin_retired: bool,
    events: Seq<Ev>,
    n: int,
)
    requires
        0 <= n < events.len(),
        after(terms, pin_retired, events.take(n)).1 is Send,
        after(terms, pin_retired, events).1 is Send,
    ensures
        after(terms, pin_retired, events.take(n)).1 matches Act::Send { channel: first, .. } && after(
            terms,
            pin_retired,
            events,
        ).1 matches Act::Send { channel: second, .. } && first.seq_s2c < second.seq_s2c,
{
    let early = events.take(n);
    lemma_earned(terms, pin_retired, early);
    lemma_earned(terms, pin_retired, early.drop_last());
    lemma_counted(terms, pin_retired, early.drop_last());
    lemma_earned(terms, pin_retired, events);
    lemma_earned(terms, pin_retired, events.drop_last());
    lemma_counted(terms, pin_retired, events.drop_last());
    assert(events.take(n + 1).drop_last() == early);
    let stage = after(terms, pin_retired, early).0;
    if !(stage is Offered) {
        assert(stage is Refused || stage is Enrolled);
        assert(after(terms, pin_retired, events.take(n + 1)).0 is Closed);
        assert(after(terms, pin_retired, events.take(n + 1)).1 is Close);
        lemma_closed_stays(terms, pin_retired, events, n + 1);
        assert(events.take(events.len() as int) == events);
    }
}

/// What a client that goes through with it sends, and what it meets.
pub ghost struct Visit {
    pub epub: Seq<u8>,
    pub mode: Seq<char>,
    pub proof_bytes: Seq<u8>,
    pub intro: Seq<u8>,
    pub hello: Seq<u8>,
    pub enroll: Seq<u8>,
    pub line: Seq<char>,
    pub name: Seq<char>,
    pub canonical: Seq<char>,
    pub content: Seq<char>,
    /// What the clock shows, the four times it is looked at.
    pub times: (nat, nat, nat, nat),
    /// Whether DONE is delivered.
    pub delivered: bool,
}

/// The INTRO that a client sends.
pub open spec fn intro_body(epub: Seq<u8>, mode: Seq<char>) -> Cbor {
    Cbor::Dict(
        seq![
            (Cbor::Text("v"@), Cbor::Integer(1)),
            (Cbor::Text("epub"@), Cbor::Bytes(epub)),
            (Cbor::Text("mode"@), Cbor::Text(mode)),
        ],
    )
}

/// The HELLO that a client sends.
pub open spec fn hello_body(proof_bytes: Seq<u8>) -> Cbor {
    Cbor::Dict(seq![(Cbor::Text("proof"@), Cbor::Bytes(proof_bytes))])
}

/// The ENROLL that a client sends.
pub open spec fn enroll_body(line: Seq<char>, name: Seq<char>) -> Cbor {
    Cbor::Dict(
        seq![
            (Cbor::Text("pubkey"@), Cbor::Text(line)),
            (Cbor::Text("device"@), Cbor::Text(name)),
        ],
    )
}

impl Visit {
    pub open spec fn device(self) -> Seq<char> {
        device_of(self.name)
    }

    /// Whether the client sends what the protocol has it send, sealed for the
    /// channel, with a good proof and a new ed25519 key, before the deadline.
    pub open spec fn honest(self, terms: SessionTerms, pin_retired: bool) -> bool {
        let channel = channel_with(terms, self.epub);
        &&& self.epub.len() == 32
        &&& x25519_shared(terms.secret, self.epub) != zeros(32)
        &&& cbor_decoded(self.intro) == Some(intro_body(self.epub, self.mode))
        &&& heard(channel, self.hello) == Some(hello_body(self.proof_bytes))
        &&& verdict(terms, pin_retired, self.epub, self.mode, self.proof_bytes) is Accepted
        &&& heard(replied(received(channel)), self.enroll) == Some(
            enroll_body(self.line, self.name),
        )
        &&& openssh_key(trim_of(self.line)) matches Some(key) && holds(key.algorithm, "ed25519"@)
            && key.canonical == Some(self.canonical)
        &&& fields_of(self.canonical).len() >= 2
        &&& enrolled(lines_of(self.content), fields_of(self.canonical)[1]) is None
        &&& self.times.2 < terms.deadline && self.times.3 < terms.deadline
    }

    /// The events of the visit, with the operator's consent.
    pub open spec fn events(self) -> Seq<Ev> {
        seq![
            Ev::Now(self.times.0),
            Ev::Frame(self.intro),
            Ev::Frame(self.hello),
            Ev::Now(self.times.1),
            Ev::Sent,
            Ev::Frame(self.enroll),
            Ev::Now(self.times.2),
            Ev::Answer(true),
            Ev::Now(self.times.3),
            Ev::Keys(Ok(self.content)),
            Ev::Saved,
            if self.delivered {
                Ev::Sent
            } else {
                Ev::Failed
            },
        ]
    }
}

/// What a client sends is understood as it was meant.
pub proof fn bodies_are_understood(
    frame: Seq<u8>,
    epub: Seq<u8>,
    mode: Seq<char>,
    proof_bytes: Seq<u8>,
    line: Seq<char>,
    name: Seq<char>,
)
    requires
        epub.len() == 32,
        cbor_decoded(frame) == Some(intro_body(epub, mode)),
    ensures
        intro_of(frame) == Some((epub, mode)),
        bytes_at(hello_body(proof_bytes), "proof"@) == Some(proof_bytes),
        text_at(enroll_body(line, name), "pubkey"@) == Some(line),
        text_at(enroll_body(line, name), "device"@) == Some(name),
{
    reveal_strlit("v");
    reveal_strlit("epub");
    reveal_strlit("mode");
    reveal_strlit("proof");
    reveal_strlit("pubkey");
    reveal_strlit("device");
    let intro = intro_body(epub, mode)->Dict_0;
    assert("epub"@[0] == 'e' && "mode"@[0] == 'm' && "v"@[0] == 'v');
    assert(entry_of(intro, "v"@) == Some(Cbor::Integer(1)));
    assert(intro.drop_first()[0] == (Cbor::Text("epub"@), Cbor::Bytes(epub)));
    assert(entry_of(intro.drop_first(), "epub"@) == Some(Cbor::Bytes(epub)));
    assert(entry_of(intro, "epub"@) == Some(Cbor::Bytes(epub)));
    assert(intro.drop_first().drop_first()[0] == (Cbor::Text("mode"@), Cbor::Text(mode)));
    assert(entry_of(intro.drop_first().drop_first(), "mode"@) == Some(Cbor::Text(mode)));
    assert(entry_of(intro.drop_first(), "mode"@) == Some(Cbor::Text(mode)));
    assert(entry_of(intro, "mode"@) == Some(Cbor::Text(mode)));
    let hello = hello_body(proof_bytes)->Dict_0;
    assert(entry_of(hello, "proof"@) == Some(Cbor::Bytes(proof_bytes)));
    let enroll = enroll_body(line, name)->Dict_0;
    assert("pubkey"@[0] == 'p' && "device"@[0] == 'd');
    assert(entry_of(enroll, "pubkey"@) == Some(Cbor::Text(line)));
    assert(enroll.drop_first()[0] == (Cbor::Text("device"@), Cbor::Text(name)));
    assert(entry_of(enroll.drop_first(), "device"@) == Some(Cbor::Text(name)));
    assert(entry_of(enroll, "device"@) == Some(Cbor::Text(name)));
}

/// An honest client is offered the host record and, with the operator's
/// consent, enrolled: its key's two canonical fields go into the file as one
/// line under the session's marker and the slug of its name, and the session
/// reports it, whether or not DONE is delivered.
pub proof fn an_honest_client_is_enrolled(terms: SessionTerms, pin_retired: bool, visit: Visit)
    requires
        visit.honest(terms, pin_retired),
    ensures
        after(terms, pin_retired, visit.events().take(4)).1 == (Act::Send {
            channel: received(channel_with(terms, visit.epub)),
            body: offer_body(terms.offer),
            within: POSTAUTH_TIMEOUT as nat,
        }),
        after(terms, pin_retired, visit.events().take(7)).1 == Act::Confirm(visit.device()),
        after(terms, pin_retired, visit.events().take(10)).1 == Act::WriteKeys(
            with_key(
                visit.content,
                fields_of(visit.canonical)[0],
                fields_of(visit.canonical)[1],
                comment_for(terms, visit.device()),
            ),
        ),
        after(terms, pin_retired, visit.events()).1 == Act::Close(
            Ended::Enrolled {
                device: visit.device(),
                comment: comment_for(terms, visit.device()),
                acknowledged: visit.delivered,
            },
        ),
{
    bodies_are_understood(
        visit.intro,
        visit.epub,
        visit.mode,
        visit.proof_bytes,
        visit.line,
        visit.name,
    );
    let events = visit.events();
    let channel = channel_with(terms, visit.epub);
    let postauth = window_end(visit.times.1, POSTAUTH_TIMEOUT as nat, terms.deadline);
    let canonical = Some(visit.canonical);
    let device = visit.device();
    let second = replied(received(channel));
    assert(after(terms, pin_retired, events.take(0)).0 == Stage::Start);
    assert(events.take(1).drop_last() == events.take(0));
    assert(after(terms, pin_retired, events.take(1)).0 is Intro);
    assert(events.take(2).drop_last() == events.take(1));
    assert(after(terms, pin_retired, events.take(2)).0 matches Stage::Hello { epub, mode, channel: c, .. }
        && epub == visit.epub && mode == visit.mode && c == channel);
    assert(events.take(3).drop_last() == events.take(2));
    assert(after(terms, pin_retired, events.take(3)).0 == (Stage::Accepted {
        channel: received(channel),
    }));
    assert(events.take(4).drop_last() == events.take(3));
    assert(after(terms, pin_retired, events.take(4)).0 == (Stage::Offered {
        channel: second,
        postauth,
    }));
    assert(events.take(5).drop_last() == events.take(4));
    assert(after(terms, pin_retired, events.take(5)).0 == (Stage::Enroll { channel: second }));
    assert(events.take(6).drop_last() == events.take(5));
    assert(after(terms, pin_retired, events.take(6)).0 == (Stage::Keyed {
        channel: received(second),
        device,
        canonical,
    }));
    assert(events.take(7).drop_last() == events.take(6));
    assert(after(terms, pin_retired, events.take(7)).0 == (Stage::Prompt {
        channel: received(second),
        device,
        canonical,
    }));
    assert(events.take(8).drop_last() == events.take(7));
    assert(after(terms, pin_retired, events.take(8)).0 == (Stage::Consented {
        channel: received(second),
        device,
        canonical,
    }));
    assert(events.take(9).drop_last() == events.take(8));
    assert(after(terms, pin_retired, events.take(9)).0 is Reading);
    assert(events.take(10).drop_last() == events.take(9));
    assert(after(terms, pin_retired, events.take(10)).0 is Saving);
    assert(events.take(11).drop_last() == events.take(10));
    assert(after(terms, pin_retired, events.take(11)).0 is Enrolled);
    assert(events.take(12).drop_last() == events.take(11));
    assert(events.take(12) == events);
}

/// A key that was enrolled under the marker of a session with this id is listed
/// under the id and the device's slug, and taking its line out again leaves the
/// text that was there before, its last line terminated.
pub proof fn enrolled_keys_can_be_revoked(
    terms: SessionTerms,
    id: Seq<char>,
    canonical: Seq<char>,
    device: Seq<char>,
    content: Seq<char>,
)
    requires
        terms.marker_id == MARKER_PREFIX@ + id,
        forall|i: int| 0 <= i < id.len() ==> !is_white(#[trigger] id[i]) && id[i] != ':',
        fields_of(canonical).len() >= 2,
        names_key_type(fields_of(canonical)[0]),
        !fields_of(canonical)[0].contains('"'),
    ensures
        ({
            let key_type = fields_of(canonical)[0];
            let material = fields_of(canonical)[1];
            let comment = comment_for(terms, device);
            let text = with_key(content, key_type, material, comment);
            let lines = lines_of(text);
            let picks = Seq::new(lines.len(), |i: int| i == lines.len() - 1);
            &&& mark_of(lines.last()) == Some(
                Mark {
                    id,
                    device: slug_of(device),
                    key_type,
                    line: key_line(key_type, material, comment),
                },
            )
            &&& text_left(text, picks) == terminated(content)
        }),
{
    let key_type = fields_of(canonical)[0];
    let material = fields_of(canonical)[1];
    let comment = comment_for(terms, device);
    lemma_fields_are_words(canonical);
    slugs_are_clean(device);
    assert(comment == marker(id, slug_of(device)));
    assert forall|i: int| 0 <= i < slug_of(device).len() implies !is_white(
        #[trigger] slug_of(device)[i],
    ) by {}
    lemma_marker_is_word(id, slug_of(device));
    assert(is_word(key_type) && is_word(material));
    assert forall|i: int| 0 <= i < key_type.len() implies #[trigger] key_type[i] != '"' by {
        if key_type[i] == '"' {
            assert(key_type.contains('"'));
        }
    }
    added_keys_are_listed_and_can_be_removed(content, key_type, material, id, slug_of(device));
}

/// The state of the loop that accepts peers: how many wrong PINs have come.
pub struct Session {
    pin_failures: u32,
}

/// How many PIN failures count after one more peer.
pub open spec fn failures_after(failures: nat, result: Ended) -> nat {
    if result is PinFailure && failures < MAX_PIN_ATTEMPTS { failures + 1 } else { failures }
}

/// What the operator is told of a peer.
pub open spec fn told_of(failures: nat, result: Ended) -> Option<ServerEvent> {
    if result is PinFailure && failures + 1 < MAX_PIN_ATTEMPTS {
        Some(ServerEvent::WrongPin { remaining: (MAX_PIN_ATTEMPTS - failures - 1) as u32 })
    } else if result is PinFailure && failures + 1 == MAX_PIN_ATTEMPTS {
        Some(ServerEvent::PinRetired)
    } else {
        None
    }
}

impl Session {
    /// How many wrong PINs have come, counted up to the number that retires it.
    pub closed spec fn failures(&self) -> nat {
        self.pin_failures as nat
    }

    /// A session that no peer has been to.
    pub fn new() -> (r: Self)
        ensures
            r.failures() == 0,
    {
        Session { pin_failures: 0 }
    }

    /// Whether PIN proofs are refused from now on.
    pub fn pin_retired(&self) -> (r: bool)
        ensures
            r == (self.failures() >= MAX_PIN_ATTEMPTS),
    {
        self.pin_failures >= MAX_PIN_ATTEMPTS
    }

    /// Whether the session is over before another peer is accepted. A
    /// cancellation counts before the deadline does.
    pub fn tick(deadline: u64, canceled: bool, now: u64) -> (r: Option<BindOutcome>)
        ensures
            r == (if canceled {
                Some(BindOutcome::Canceled)
            } else if now >= deadline {
                Some(BindOutcome::Expired)
            } else {
                None
            }),
    {
        if canceled {
            Some(BindOutcome::Canceled)
        } else if now >= deadline {
            Some(BindOutcome::Expired)
        } else {
            None
        }
    }

    /// Takes in how a peer's exchange ended. The results say how the session
    /// ended, if it did, and what the operator is told. Wrong PINs never end
    /// it.
    pub fn conclude(&mut self, result: ConnectionResult) -> (r: (
        Option<BindOutcome>,
        Option<ServerEvent>,
    ))
        ensures
            final(self).failures() == failures_after(old(self).failures(), result@),
            r.1 == told_of(old(self).failures(), result@),
            match result {
                ConnectionResult::Enrolled { device, comment, acknowledged } => r.0 == Some(
                    BindOutcome::Enrolled { device, comment, acknowledged },
                ),
                ConnectionResult::Declined => r.0 == Some(BindOutcome::Declined),
                ConnectionResult::PinFailure => r.0 is None,
                ConnectionResult::Ignore => r.0 is None,
            },
    {
        match result {
            ConnectionResult::Enrolled { device, comment, acknowledged } => (
                Some(BindOutcome::Enrolled { device, comment, acknowledged }),
                None,
            ),
            ConnectionResult::PinFailure => {
                if self.pin_failures >= MAX_PIN_ATTEMPTS {
                    return (None, None);
                }
                self.pin_failures = self.pin_failures + 1;
                if self.pin_failures >= MAX_PIN_ATTEMPTS {
                    (None, Some(ServerEvent::PinRetired))
                } else {
                    let remaining: u32 = MAX_PIN_ATTEMPTS - self.pin_failures;
                    (None, Some(ServerEvent::WrongPin { remaining }))
                }
            },
            ConnectionResult::Declined => (Some(BindOutcome::Declined), None),
            ConnectionResult::Ignore => (None, None),
        }
    }
}

/// How many PIN failures count after some peers.
pub open spec fn failures_of(results: Seq<Ended>) -> nat
    decreases results.len(),
{
    if results.len() == 0 {
        0
    } else {
        failures_after(failures_of(results.drop_last()), results.last())
    }
}

/// How many of some peers brought a wrong PIN.
pub open spec fn wrong_pins(results: Seq<Ended>) -> nat
    decreases results.len(),
{
    if results.len() == 0 {
        0
    } else {
        wrong_pins(results.drop_last()) + (if results.last() is PinFailure { 1nat } else { 0 })
    }
}

/// How often the operator is told that the PIN is retired.
pub open spec fn retirements(results: Seq<Ended>) -> nat
    decreases results.len(),
{
    if results.len() == 0 {
        0
    } else {
        retirements(results.drop_last()) + (if told_of(
            failures_of(results.drop_last()),
            results.last(),
        ) == Some(ServerEvent::PinRetired) {
            1nat
        } else {
            0
        })
    }
}

/// The third wrong PIN retires the PIN, for good, and the operator is told so
/// once.
pub proof fn three_wrong_pins_retire_the_pin_once(results: Seq<Ended>)
    ensures
        failures_of(results) >= MAX_PIN_ATTEMPTS <==> wrong_pins(results) >= MAX_PIN_ATTEMPTS,
        retirements(results) == (if wrong_pins(results) >= MAX_PIN_ATTEMPTS { 1nat } else { 0 }),
        failures_of(results) == (if wrong_pins(results) < MAX_PIN_ATTEMPTS {
            wrong_pins(results)
        } else {
            MAX_PIN_ATTEMPTS as nat
        }),
    decreases results.len(),
{
    if results.len() > 0 {
        three_wrong_pins_retire_the_pin_once(results.drop_last());
    }
}

} // verus!
