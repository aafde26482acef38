//! The handshake channel: X25519, HKDF-SHA256 and ChaCha20-Poly1305 over
//! frames with a four-byte big-endian length in front. One key per direction;
//! a nonce is four zero bytes and the big-endian number of the frame in its
//! direction. The first client frame, which carries the ephemeral public key,
//! is the only one in clear text.

use vstd::prelude::*;
use vstd::string::*;
use vstd::utf8::*;
use crate::bytes::{
    array_at, be_bytes, be_value, copy_range, lemma_be_bytes_injective, lemma_be_bytes_len,
    lemma_be_value_of_bytes, lemma_pow256, push_all, push_u32, push_u64, u32_from,
};
use crate::crypto::{
    chacha_open, chacha_opened, chacha_seal, chacha_sealed, hkdf_sha256, hkdf_sha256_okm, max_plain,
    public_key, x25519_public, x25519_shared,
};
use crate::text::{decimal_of, push_decimal};

pub use crate::cbor::{decode, encode, get_bytes, get_text, map_get, text, Value};

verus! {

pub const SALT: &'static str = "multiplex-bind-v1";

pub const PIN_INFO: &'static str = "multiplex-bind-pin";

/// Frames above this are not protocol traffic; they are refused before
/// anything is allocated for them.
pub const MAX_FRAME: usize = 65536;

/// Why a frame could not be used.
#[derive(Debug, PartialEq, Eq)]
pub enum FrameError {
    /// The connection failed; the text says how.
    Io(String),
    TooLarge(usize),
    Crypto,
    Malformed,
}

impl FrameError {
    /// What the operator is told.
    pub open spec fn told(&self) -> Seq<char> {
        match self {
            FrameError::Io(err) => "connection error: "@ + err@,
            FrameError::TooLarge(n) => "oversized frame ("@ + decimal_of(*n as nat) + " bytes)"@,
            FrameError::Crypto => "frame failed authentication"@,
            FrameError::Malformed => "malformed frame"@,
        }
    }

    /// The error in words.
    pub fn message(&self) -> (r: String)
        ensures
            r@ == self.told(),
    {
        match self {
            FrameError::Io(err) => {
                let mut out = "connection error: ".to_owned();
                out.append(err.as_str());
                out
            },
            FrameError::TooLarge(n) => {
                let mut out = "oversized frame (".to_owned();
                push_decimal(&mut out, *n as u64);
                out.append(" bytes)");
                out
            },
            FrameError::Crypto => "frame failed authentication".to_owned(),
            FrameError::Malformed => "malformed frame".to_owned(),
        }
    }
}

/// The keys of a connection and how many frames each direction has carried.
pub ghost struct ChannelState {
    pub c2s: Seq<u8>,
    pub s2c: Seq<u8>,
    pub seq_c2s: nat,
    pub seq_s2c: nat,
}

/// Directional keys and frame counters of one handshake connection.
pub struct Channel {
    c2s: [u8; 32],
    s2c: [u8; 32],
    seq_c2s: u64,
    seq_s2c: u64,
}

impl View for Channel {
    type V = ChannelState;

    closed spec fn view(&self) -> ChannelState {
        ChannelState {
            c2s: self.c2s@,
            s2c: self.s2c@,
            seq_c2s: self.seq_c2s as nat,
            seq_s2c: self.seq_s2c as nat,
        }
    }
}

/// The nonce of the frame numbered `seq` in its direction.
pub open spec fn nonce_of(seq: nat) -> Seq<u8> {
    seq![0u8, 0u8, 0u8, 0u8] + be_bytes(seq, 8)
}

/// The channel that both ends derive from the shared secret and the two public
/// keys, the client's ephemeral one first.
pub open spec fn derived(shared: Seq<u8>, epub: Seq<u8>, spub: Seq<u8>) -> ChannelState {
    let okm = hkdf_sha256_okm(encode_utf8(SALT@), shared, epub + spub, 64);
    ChannelState {
        c2s: okm.subrange(0, 32),
        s2c: okm.subrange(32, 64),
        seq_c2s: 0,
        seq_s2c: 0,
    }
}

/// Whether `frame` is `plain`, sealed under a key as the frame numbered `seq`,
/// and so opens to it.
pub open spec fn seal_of(key: Seq<u8>, seq: nat, plain: Seq<u8>, frame: Seq<u8>) -> bool {
    &&& frame == chacha_sealed(key, nonce_of(seq), plain)
    &&& frame.len() == plain.len() + 16
    &&& chacha_opened(key, nonce_of(seq), frame) == Some(plain)
}

/// One end of a channel.
pub ghost enum End {
    Client,
    Server,
}

/// What one end does with its channel.
pub ghost enum Turn {
    /// It seals a message as a frame.
    Seal(Seq<u8>, Seq<u8>),
    /// It tries to open a frame of the other end.
    Open(Seq<u8>),
}

pub open spec fn other_end(end: End) -> End {
    match end {
        End::Client => End::Server,
        End::Server => End::Client,
    }
}

/// The key that an end seals under.
pub open spec fn key_from(channel: ChannelState, end: End) -> Seq<u8> {
    match end {
        End::Client => channel.c2s,
        End::Server => channel.s2c,
    }
}

/// How many frames from an end the channel has carried.
pub open spec fn count_from(channel: ChannelState, end: End) -> nat {
    match end {
        End::Client => channel.seq_c2s,
        End::Server => channel.seq_s2c,
    }
}

/// The channel after one more frame from an end.
pub open spec fn one_more_from(channel: ChannelState, end: End) -> ChannelState {
    match end {
        End::Client => ChannelState { seq_c2s: channel.seq_c2s + 1, ..channel },
        End::Server => ChannelState { seq_s2c: channel.seq_s2c + 1, ..channel },
    }
}

/// What an end opens a frame to, as the next one of the other end.
pub open spec fn opened_at(channel: ChannelState, end: End, frame: Seq<u8>) -> Option<Seq<u8>> {
    let from = other_end(end);
    chacha_opened(key_from(channel, from), nonce_of(count_from(channel, from)), frame)
}

/// The channel of an end after a turn of it.
pub open spec fn turned(channel: ChannelState, end: End, turn: Turn) -> ChannelState {
    match turn {
        Turn::Seal(message, frame) => one_more_from(channel, end),
        Turn::Open(frame) => if opened_at(channel, end, frame) is Some {
            one_more_from(channel, other_end(end))
        } else {
            channel
        },
    }
}

/// The channel of an end after some turns of it.
pub open spec fn after_turns(channel: ChannelState, end: End, turns: Seq<Turn>) -> ChannelState
    decreases turns.len(),
{
    if turns.len() == 0 {
        channel
    } else {
        turned(after_turns(channel, end, turns.drop_last()), end, turns.last())
    }
}

/// The messages that are sealed in some turns.
pub open spec fn messages_sealed(turns: Seq<Turn>) -> Seq<Seq<u8>>
    decreases turns.len(),
{
    if turns.len() == 0 {
        Seq::empty()
    } else {
        let before = messages_sealed(turns.drop_last());
        match turns.last() {
            Turn::Seal(message, frame) => before.push(message),
            Turn::Open(frame) => before,
        }
    }
}

/// The frames that they are sealed as.
pub open spec fn frames_sealed(turns: Seq<Turn>) -> Seq<Seq<u8>>
    decreases turns.len(),
{
    if turns.len() == 0 {
        Seq::empty()
    } else {
        let before = frames_sealed(turns.drop_last());
        match turns.last() {
            Turn::Seal(message, frame) => before.push(frame),
            Turn::Open(frame) => before,
        }
    }
}

/// The messages that an end gets out of the frames that it opens.
pub open spec fn messages_opened(channel: ChannelState, end: End, turns: Seq<Turn>) -> Seq<Seq<u8>>
    decreases turns.len(),
{
    if turns.len() == 0 {
        Seq::empty()
    } else {
        let before = messages_opened(channel, end, turns.drop_last());
        match turns.last() {
            Turn::Seal(message, frame) => before,
            Turn::Open(frame) => match opened_at(
                after_turns(channel, end, turns.drop_last()),
                end,
                frame,
            ) {
                Some(message) => before.push(message),
                None => before,
            },
        }
    }
}

/// Whether each frame that an end seals is its message, sealed as the next frame.
pub open spec fn sealed_by_calls(channel: ChannelState, end: End, turns: Seq<Turn>) -> bool
    decreases turns.len(),
{
    turns.len() > 0 ==> {
        let now = after_turns(channel, end, turns.drop_last());
        &&& sealed_by_calls(channel, end, turns.drop_last())
        &&& turns.last() matches Turn::Seal(message, frame) ==> seal_of(
            key_from(now, end),
            count_from(now, end),
            message,
            frame,
        )
    }
}

/// Whether an end is given these frames in order, with none but frames that are
/// not authentic in between.
pub open spec fn given_in_order(
    channel: ChannelState,
    end: End,
    turns: Seq<Turn>,
    frames: Seq<Seq<u8>>,
) -> bool
    decreases turns.len(),
{
    turns.len() > 0 ==> {
        let before = turns.drop_last();
        let n = messages_opened(channel, end, before).len();
        &&& given_in_order(channel, end, before, frames)
        &&& turns.last() matches Turn::Open(frame) ==> opened_at(
            after_turns(channel, end, before),
            end,
            frame,
        ) is None || (n < frames.len() && frame == frames[n as int])
    }
}

proof fn lemma_sealed_run(channel: ChannelState, end: End, turns: Seq<Turn>)
    requires
        sealed_by_calls(channel, end, turns),
    ensures
        ({
            let now = after_turns(channel, end, turns);
            let messages = messages_sealed(turns);
            let frames = frames_sealed(turns);
            &&& key_from(now, end) == key_from(channel, end)
            &&& count_from(now, end) == count_from(channel, end) + messages.len()
            &&& frames.len() == messages.len()
            &&& forall|i: int|
                0 <= i < messages.len() ==> seal_of(
                    key_from(channel, end),
                    (count_from(channel, end) + i) as nat,
                    messages[i],
                    #[trigger] frames[i],
                )
        }),
    decreases turns.len(),
{
    if turns.len() > 0 {
        lemma_sealed_run(channel, end, turns.drop_last());
    }
}

/// One end of a channel seals any messages in order. The other end, whose
/// channel started alike, is given the frames in that order, with frames that
/// are not authentic and its own replies in between. Then it has opened the
/// first frames to the first messages, and opens the next frame to the next
/// message.
pub proof fn frames_open_in_the_order_they_were_sealed(
    channel: ChannelState,
    sender: End,
    sent: Seq<Turn>,
    got: Seq<Turn>,
)
    requires
        sealed_by_calls(channel, sender, sent),
        given_in_order(channel, other_end(sender), got, frames_sealed(sent)),
    ensures
        ({
            let end = other_end(sender);
            let n = messages_opened(channel, end, got).len() as int;
            let now = after_turns(channel, end, got);
            &&& n <= messages_sealed(sent).len() == frames_sealed(sent).len()
            &&& messages_opened(channel, end, got) == messages_sealed(sent).take(n)
            &&& n < messages_sealed(sent).len() ==> opened_at(now, end, frames_sealed(sent)[n])
                == Some(messages_sealed(sent)[n])
            &&& key_from(now, sender) == key_from(channel, sender)
            &&& count_from(now, sender) == count_from(channel, sender) + n
        }),
    decreases got.len(),
{
    let end = other_end(sender);
    let messages = messages_sealed(sent);
    let frames = frames_sealed(sent);
    lemma_sealed_run(channel, sender, sent);
    let n = messages_opened(channel, end, got).len() as int;
    if got.len() == 0 {
        assert(messages_opened(channel, end, got) =~= messages.take(0));
    } else {
        let before = got.drop_last();
        let m = messages_opened(channel, end, before).len() as int;
        frames_open_in_the_order_they_were_sealed(channel, sender, sent, before);
        if n == m + 1 {
            assert(messages_opened(channel, end, got) =~= messages.take(m + 1));
        }
    }
    if n < messages.len() {
        assert(seal_of(
            key_from(channel, sender),
            (count_from(channel, sender) + n) as nat,
            messages[n],
            frames[n],
        ));
    }
}

impl Channel {
    /// Both ends derive the same channel from the X25519 shared secret and the
    /// two public keys.
    pub fn derive(shared: &[u8; 32], epub: &[u8; 32], spub: &[u8; 32]) -> (r: Self)
        ensures
            r@ == derived(shared@, epub@, spub@),
    {
        let mut info: Vec<u8> = Vec::new();
        push_all(&mut info, epub);
        push_all(&mut info, spub);
        assert(info@ == epub@ + spub@);
        let okm = hkdf_sha256(SALT.as_bytes(), shared, info.as_slice(), 64);
        Channel {
            c2s: array_at::<32>(okm.as_slice(), 0),
            s2c: array_at::<32>(okm.as_slice(), 32),
            seq_c2s: 0,
            seq_s2c: 0,
        }
    }

    fn nonce(seq: u64) -> (r: [u8; 12])
        ensures
            r@ == nonce_of(seq as nat),
    {
        let mut bytes: Vec<u8> = Vec::new();
        bytes.push(0);
        bytes.push(0);
        bytes.push(0);
        bytes.push(0);
        push_u64(&mut bytes, seq);
        proof {
            lemma_be_bytes_len(seq as nat, 8);
            assert(bytes@ == nonce_of(seq as nat));
        }
        array_at::<12>(bytes.as_slice(), 0)
    }

    /// Seals the next frame to the client.
    pub fn seal_s2c(&mut self, plain: &[u8]) -> (r: Vec<u8>)
        requires
            old(self)@.seq_s2c < u64::MAX,
            plain@.len() <= max_plain(),
        ensures
            seal_of(old(self)@.s2c, old(self)@.seq_s2c, plain@, r@),
            final(self)@ == (ChannelState { seq_s2c: old(self)@.seq_s2c + 1, ..old(self)@ }),
            final(self)@ == turned(old(self)@, End::Server, Turn::Seal(plain@, r@)),
    {
        let sealed = chacha_seal(&self.s2c, &Self::nonce(self.seq_s2c), plain);
        self.seq_s2c = self.seq_s2c + 1;
        sealed
    }

    /// Opens the next frame from the client. The count moves on only if the
    /// frame is authentic.
    pub fn open_c2s(&mut self, sealed: &[u8]) -> (r: Result<Vec<u8>, FrameError>)
        requires
            old(self)@.seq_c2s < u64::MAX,
            sealed@.len() <= max_plain() + 16,
        ensures
            match r {
                Ok(plain) => chacha_opened(old(self)@.c2s, nonce_of(old(self)@.seq_c2s), sealed@)
                    == Some(plain@) && sealed@ == chacha_sealed(
                    old(self)@.c2s,
                    nonce_of(old(self)@.seq_c2s),
                    plain@,
                ) && final(self)@ == (ChannelState {
                    seq_c2s: old(self)@.seq_c2s + 1,
                    ..old(self)@
                }),
                Err(e) => chacha_opened(old(self)@.c2s, nonce_of(old(self)@.seq_c2s), sealed@)
                    is None && e == FrameError::Crypto && final(self)@ == old(self)@,
            },
            final(self)@ == turned(old(self)@, End::Server, Turn::Open(sealed@)),
    {
        match chacha_open(&self.c2s, &Self::nonce(self.seq_c2s), sealed) {
            Some(plain) => {
                self.seq_c2s = self.seq_c2s + 1;
                Ok(plain)
            },
            None => Err(FrameError::Crypto),
        }
    }

    /// Seals the next frame to the server: the client's half of the wire.
    pub fn seal_c2s(&mut self, plain: &[u8]) -> (r: Vec<u8>)
        requires
            old(self)@.seq_c2s < u64::MAX,
            plain@.len() <= max_plain(),
        ensures
            seal_of(old(self)@.c2s, old(self)@.seq_c2s, plain@, r@),
            final(self)@ == (ChannelState { seq_c2s: old(self)@.seq_c2s + 1, ..old(self)@ }),
            final(self)@ == turned(old(self)@, End::Client, Turn::Seal(plain@, r@)),
    {
        let sealed = chacha_seal(&self.c2s, &Self::nonce(self.seq_c2s), plain);
        self.seq_c2s = self.seq_c2s + 1;
        sealed
    }

    /// Opens the next frame from the server.
    pub fn open_s2c(&mut self, sealed: &[u8]) -> (r: Result<Vec<u8>, FrameError>)
        requires
            old(self)@.seq_s2c < u64::MAX,
            sealed@.len() <= max_plain() + 16,
        ensures
            match r {
                Ok(plain) => chacha_opened(old(self)@.s2c, nonce_of(old(self)@.seq_s2c), sealed@)
                    == Some(plain@) && sealed@ == chacha_sealed(
                    old(self)@.s2c,
                    nonce_of(old(self)@.seq_s2c),
                    plain@,
                ) && final(self)@ == (ChannelState {
                    seq_s2c: old(self)@.seq_s2c + 1,
                    ..old(self)@
                }),
                Err(e) => chacha_opened(old(self)@.s2c, nonce_of(old(self)@.seq_s2c), sealed@)
                    is None && e == FrameError::Crypto && final(self)@ == old(self)@,
            },
            final(self)@ == turned(old(self)@, End::Client, Turn::Open(sealed@)),
    {
        match chacha_open(&self.s2c, &Self::nonce(self.seq_s2c), sealed) {
            Some(plain) => {
                self.seq_s2c = self.seq_s2c + 1;
                Ok(plain)
            },
            None => Err(FrameError::Crypto),
        }
    }
}

/// No two frames of one direction are sealed under the same nonce.
pub proof fn nonces_never_repeat(a: u64, b: u64)
    requires
        a != b,
    ensures
        nonce_of(a as nat) != nonce_of(b as nat),
{
    lemma_pow256();
    lemma_be_bytes_len(a as nat, 8);
    lemma_be_bytes_len(b as nat, 8);
    if nonce_of(a as nat) == nonce_of(b as nat) {
        assert(nonce_of(a as nat).skip(4) == be_bytes(a as nat, 8));
        assert(nonce_of(b as nat).skip(4) == be_bytes(b as nat, 8));
        lemma_be_bytes_injective(a as nat, b as nat, 8);
    }
}

/// The public key of a session's secret. A client with a secret of its own
/// derives from this key the channel that the session derives from the client's
/// public key.
pub fn session_key(secret: &[u8; 32]) -> (r: [u8; 32])
    ensures
        r@ == x25519_public(secret@),
        forall|other: Seq<u8>|
            other.len() == 32 ==> derived(
                x25519_shared(other, r@),
                #[trigger] x25519_public(other),
                r@,
            ) == derived(x25519_shared(secret@, x25519_public(other)), x25519_public(other), r@),
{
    public_key(secret)
}

/// The proof that the discovery path asks for: HKDF over the PIN's digits,
/// salted with both public keys.
pub open spec fn pin_proof_of(pin: Seq<char>, epub: Seq<u8>, spub: Seq<u8>) -> Seq<u8> {
    hkdf_sha256_okm(epub + spub, encode_utf8(pin), encode_utf8(PIN_INFO@), 32)
}

/// The discovery path's PIN proof. Salting it with both public keys makes a
/// relayed proof useless on any other connection.
pub fn pin_proof(pin: &str, epub: &[u8; 32], spub: &[u8; 32]) -> (r: [u8; 32])
    ensures
        r@ == pin_proof_of(pin@, epub@, spub@),
{
    let mut salt: Vec<u8> = Vec::new();
    push_all(&mut salt, epub);
    push_all(&mut salt, spub);
    assert(salt@ == epub@ + spub@);
    let okm = hkdf_sha256(salt.as_slice(), pin.as_bytes(), PIN_INFO.as_bytes(), 32);
    assert(okm@.subrange(0, 32) == okm@);
    array_at::<32>(okm.as_slice(), 0)
}

/// A frame as it goes over the wire.
pub open spec fn framed(frame: Seq<u8>) -> Seq<u8> {
    be_bytes(frame.len(), 4) + frame
}

/// What reading one frame off a stream comes to.
pub ghost enum FrameRead {
    /// The stream ends before the frame does.
    Short,
    /// The header announces a frame of this many bytes, more than is accepted.
    TooLarge(nat),
    /// The frame, and how much of the stream it took.
    Frame(Seq<u8>, int),
}

/// What reading one frame off the front of `stream` comes to.
pub open spec fn frame_read(stream: Seq<u8>) -> FrameRead {
    if stream.len() < 4 {
        FrameRead::Short
    } else {
        let n = be_value(stream.take(4));
        if n > MAX_FRAME {
            FrameRead::TooLarge(n)
        } else if stream.len() < 4 + n {
            FrameRead::Short
        } else {
            FrameRead::Frame(stream.subrange(4, 4 + n as int), 4 + n as int)
        }
    }
}

/// The length that a frame's header announces, refused if it is more than
/// `MAX_FRAME`.
pub fn frame_len(header: &[u8; 4]) -> (r: Result<usize, FrameError>)
    ensures
        match r {
            Ok(n) => n == be_value(header@) && n <= MAX_FRAME,
            Err(e) => be_value(header@) > MAX_FRAME && e == FrameError::TooLarge(
                be_value(header@) as usize,
            ),
        },
        be_value(header@) <= u32::MAX,
{
    let len: usize = u32_from(header) as usize;
    if len > MAX_FRAME {
        return Err(FrameError::TooLarge(len));
    }
    Ok(len)
}

/// Reads one frame off the front of `stream`, which moves on past it. A stream
/// that ends too soon is used up.
pub fn read_frame(stream: &mut &[u8]) -> (r: Result<Vec<u8>, FrameError>)
    ensures
        match frame_read(old(stream)@) {
            FrameRead::Frame(frame, used) => r matches Ok(f) && f@ == frame && final(stream)@
                == old(stream)@.skip(used),
            FrameRead::TooLarge(n) => r == Err::<Vec<u8>, FrameError>(
                FrameError::TooLarge(n as usize),
            ) && n <= u32::MAX && final(stream)@ == old(stream)@.skip(4),
            FrameRead::Short => r matches Err(FrameError::Io(t)) && t@
                == "failed to fill whole buffer"@ && final(stream)@ == Seq::<u8>::empty(),
        },
{
    let whole: &[u8] = *stream;
    let total = whole.len();
    if total < 4 {
        *stream = vstd::slice::slice_subrange(whole, total, total);
        return Err(FrameError::Io("failed to fill whole buffer".to_owned()));
    }
    let header: [u8; 4] = array_at::<4>(whole, 0);
    assert(header@ == whole@.take(4));
    assert(whole@.skip(4) == whole@.subrange(4, total as int));
    *stream = vstd::slice::slice_subrange(whole, 4, total);
    let len = match frame_len(&header) {
        Ok(len) => len,
        Err(e) => {
            return Err(e);
        },
    };
    if total - 4 < len {
        *stream = vstd::slice::slice_subrange(whole, total, total);
        return Err(FrameError::Io("failed to fill whole buffer".to_owned()));
    }
    *stream = vstd::slice::slice_subrange(whole, 4 + len, total);
    assert(whole@.skip(4 + len) == whole@.subrange(4 + len, total as int));
    Ok(copy_range(whole, 4, 4 + len))
}

/// Appends `frame` to `stream` with its length in front.
pub fn write_frame(stream: &mut Vec<u8>, frame: &[u8]) -> (r: Result<(), FrameError>)
    requires
        frame@.len() <= u32::MAX,
    ensures
        r is Ok,
        final(stream)@ == old(stream)@ + framed(frame@),
{
    push_u32(stream, frame.len() as u32);
    push_all(stream, frame);
    assert(stream@ == old(stream)@ + framed(frame@));
    Ok(())
}

/// A frame that was written is read back as it was, and what follows it on the
/// stream is left for the next read.
pub proof fn written_frames_are_read_back(frame: Seq<u8>, rest: Seq<u8>)
    requires
        frame.len() <= MAX_FRAME,
    ensures
        frame_read(framed(frame) + rest) == FrameRead::Frame(frame, 4 + frame.len() as int),
        (framed(frame) + rest).skip(4 + frame.len() as int) == rest,
{
    let stream = framed(frame) + rest;
    lemma_be_bytes_len(frame.len(), 4);
    lemma_pow256();
    lemma_be_value_of_bytes(frame.len(), 4);
    assert(stream.take(4) == be_bytes(frame.len(), 4));
    assert(stream.subrange(4, 4 + frame.len() as int) == frame);
    assert(stream.skip(4 + frame.len() as int) == rest);
}

/// The number that four bytes stand for, the most significant first.
pub open spec fn number(a: u8, b: u8, c: u8, d: u8) -> nat {
    (a * 0x100_0000 + b * 0x1_0000 + c * 0x100 + d) as nat
}

proof fn lemma_number(s: Seq<u8>)
    requires
        s.len() == 4,
    ensures
        be_value(s) == number(s[0], s[1], s[2], s[3]),
{
    let s1 = s.drop_last();
    let s2 = s1.drop_last();
    let s3 = s2.drop_last();
    assert(s3.drop_last() =~= Seq::<u8>::empty());
    assert(be_value(s3.drop_last()) == 0);
    assert(be_value(s3) == s[0] as nat);
    assert(be_value(s2) == s[0] * 256 + s[1]);
    assert(be_value(s1) == (s[0] * 256 + s[1]) * 256 + s[2]);
    assert(be_value(s) == ((s[0] * 256 + s[1]) * 256 + s[2]) * 256 + s[3]);
}

/// A frame goes over the wire with its length in four bytes before it, and no
/// frame is read but so: the first four bytes say how long it is, one of more
/// than 65536 bytes is refused by its length alone, and one that the stream does
/// not hold in full is not read.
pub proof fn frames_are_read_by_their_length(frame: Seq<u8>, stream: Seq<u8>)
    requires
        frame.len() <= u32::MAX,
    ensures
        ({
            let wire = framed(frame);
            &&& wire.len() == 4 + frame.len()
            &&& number(wire[0], wire[1], wire[2], wire[3]) == frame.len()
            &&& wire.skip(4) == frame
        }),
        stream.len() < 4 ==> frame_read(stream) is Short,
        stream.len() >= 4 ==> {
            let n = number(stream[0], stream[1], stream[2], stream[3]);
            &&& n > 65536 ==> frame_read(stream) == FrameRead::TooLarge(n)
            &&& n <= 65536 && stream.len() < 4 + n ==> frame_read(stream) is Short
            &&& n <= 65536 && stream.len() >= 4 + n ==> frame_read(stream) == FrameRead::Frame(
                stream.subrange(4, 4 + n as int),
                4 + n as int,
            )
        },
{
    let wire = framed(frame);
    lemma_be_bytes_len(frame.len(), 4);
    lemma_pow256();
    lemma_be_value_of_bytes(frame.len(), 4);
    lemma_number(be_bytes(frame.len(), 4));
    assert(wire.skip(4) =~= frame);
    if stream.len() >= 4 {
        lemma_number(stream.take(4));
    }
}

/// A nonce is four zero bytes and the frame's number in eight, the most
/// significant first.
pub proof fn nonces_hold_the_number_of_the_frame(seq: u64)
    ensures
        nonce_of(seq as nat).len() == 12,
        forall|i: int| 0 <= i < 4 ==> #[trigger] nonce_of(seq as nat)[i] == 0,
        be_value(nonce_of(seq as nat).skip(4)) == seq,
{
    lemma_pow256();
    lemma_be_bytes_len(seq as nat, 8);
    lemma_be_value_of_bytes(seq as nat, 8);
    assert(nonce_of(seq as nat).skip(4) =~= be_bytes(seq as nat, 8));
}

/// A channel starts with no frame carried and the two halves of 64 bytes of HKDF
/// as its keys, the client's first: over the shared secret, salted by a fixed
/// text, for the client's key and then the server's. A PIN's proof is 32 bytes
/// of HKDF over its digits, salted by the two keys in the same order.
pub proof fn keys_and_proofs_come_of_the_handshake(
    shared: Seq<u8>,
    epub: Seq<u8>,
    spub: Seq<u8>,
    pin: Seq<char>,
)
    ensures
        ({
            let channel = derived(shared, epub, spub);
            let okm = hkdf_sha256_okm(
                encode_utf8("multiplex-bind-v1"@),
                shared,
                epub + spub,
                64,
            );
            &&& channel.c2s == okm.subrange(0, 32)
            &&& channel.s2c == okm.subrange(32, 64)
            &&& channel.seq_c2s == 0 && channel.seq_s2c == 0
        }),
        pin_proof_of(pin, epub, spub) == hkdf_sha256_okm(
            epub + spub,
            encode_utf8(pin),
            encode_utf8("multiplex-bind-pin"@),
            32,
        ),
{
}

/// An error's text tells all that the error holds.
pub proof fn errors_tell_what_they_hold(e: FrameError)
    ensures
        e matches FrameError::Io(err) ==> e.told() == "connection error: "@ + err@,
        e matches FrameError::TooLarge(n) ==> e.told() == "oversized frame ("@ + decimal_of(
            n as nat,
        ) + " bytes)"@,
        e is Crypto ==> e.told() == "frame failed authentication"@,
        e is Malformed ==> e.told() == "malformed frame"@,
{
}

/// What is sealed under a key and a number is longer by sixteen bytes, and opens
/// to the message under the same key and number.
pub proof fn seals_open(key: Seq<u8>, seq: nat, plain: Seq<u8>, frame: Seq<u8>)
    requires
        seal_of(key, seq, plain, frame),
    ensures
        frame == chacha_sealed(key, nonce_of(seq), plain),
        frame.len() == plain.len() + 16,
        chacha_opened(key, nonce_of(seq), frame) == Some(plain),
{
}

} // verus!
