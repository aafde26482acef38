//! What the bind handshake does for each course it can take, told from the
//! events alone: what the peer sends, what the clock shows, what the operator
//! answers and what becomes of the key file.

use vstd::prelude::*;
use vstd::string::*;
use vstd::utf8::*;
use crate::authkeys::{content_of, enrolled, with_key};
use crate::cbor::{bytes_at, cbor_decoded, cbor_encoded, entry_of, lookup, text_at, Cbor};
use crate::crypto::{chacha_opened, x25519_shared, zeros};
use crate::frame::{derived, nonce_of, pin_proof_of, ChannelState};
use crate::server::{
    after, close, comment_for, device_of, done_err, done_ok, failures_of, heard, intro_of, next,
    offer_body, printable, received, refuse, replied, room_for, servable, tellable,
    three_wrong_pins_retire_the_pin_once, told_of, window_end, wrong_pins, Act, Action,
    ConnectionResult, Ended, Ev, Event, OfferState, ServerEvent, SessionConfig, SessionTerms, Stage,
};
use crate::sshkey::openssh_key;
use crate::text::{fields_of, holds, is_control, lines_of, trim_of};
use crate::util::slug_of;

verus! {

/// What one peer sends.
pub ghost struct Peer {
    pub epub: Seq<u8>,
    pub mode: Seq<char>,
    pub proof_bytes: Seq<u8>,
    pub intro: Seq<u8>,
    pub hello: Seq<u8>,
    pub enroll: Seq<u8>,
    /// When it is accepted, and when its proof is.
    pub times: (nat, nat),
}

/// Whether a frame is an INTRO of version 1 with this key and mode.
pub open spec fn introduces(frame: Seq<u8>, epub: Seq<u8>, mode: Seq<char>) -> bool {
    &&& epub.len() == 32
    &&& cbor_decoded(frame) matches Some(body) && {
        &&& lookup(body, "v"@) == Some(Cbor::Integer(1))
        &&& lookup(body, "epub"@) == Some(Cbor::Bytes(epub))
        &&& lookup(body, "mode"@) == Some(Cbor::Text(mode))
    }
}

/// Whether the secret shared with a key is all zeros.
pub open spec fn is_low_order(terms: SessionTerms, epub: Seq<u8>) -> bool {
    x25519_shared(terms.secret, epub) == Seq::new(32, |i: int| 0u8)
}

/// The channel of a key, after so many frames from the client and to it.
pub open spec fn channel_after(terms: SessionTerms, epub: Seq<u8>, c2s: nat, s2c: nat) -> ChannelState {
    let start = derived(x25519_shared(terms.secret, epub), epub, terms.spub);
    ChannelState { c2s: start.c2s, s2c: start.s2c, seq_c2s: c2s, seq_s2c: s2c }
}

/// Whether a frame, as the client's frame numbered `seq`, is authentic and says
/// `body`.
pub open spec fn says(
    terms: SessionTerms,
    epub: Seq<u8>,
    seq: nat,
    frame: Seq<u8>,
    body: Cbor,
) -> bool {
    chacha_opened(channel_after(terms, epub, 0, 0).c2s, nonce_of(seq), frame) matches Some(plain)
        && cbor_decoded(plain) == Some(body)
}

impl Peer {
    /// Whether the peer introduces itself with a usable key and sends a HELLO with
    /// this proof.
    pub open spec fn greets(self, terms: SessionTerms) -> bool {
        &&& introduces(self.intro, self.epub, self.mode)
        &&& !is_low_order(terms, self.epub)
        &&& exists|body: Cbor|
            says(terms, self.epub, 0, self.hello, body) && #[trigger] lookup(body, "proof"@)
                == Some(Cbor::Bytes(self.proof_bytes))
    }

    /// Whether the proof is the offer's token, or that of the PIN while it serves.
    pub open spec fn is_right(self, terms: SessionTerms, pin_retired: bool) -> bool {
        ||| self.mode == "token"@ && self.proof_bytes == terms.token
        ||| self.mode == "pin"@ && !pin_retired && self.proof_bytes == pin_proof_of(
            terms.pin,
            self.epub,
            terms.spub,
        )
    }

    /// The events up to HELLO.
    pub open spec fn greeting(self) -> Seq<Ev> {
        seq![Ev::Now(self.times.0), Ev::Frame(self.intro), Ev::Frame(self.hello)]
    }

    /// The events up to ENROLL.
    pub open spec fn enrolling(self) -> Seq<Ev> {
        seq![
            Ev::Now(self.times.0),
            Ev::Frame(self.intro),
            Ev::Frame(self.hello),
            Ev::Now(self.times.1),
            Ev::Sent,
            Ev::Frame(self.enroll),
        ]
    }

    /// Whether ENROLL holds a public key's line, and this name.
    pub open spec fn enrolls(self, terms: SessionTerms, line: Seq<char>, name: Seq<char>) -> bool {
        exists|body: Cbor|
            {
                &&& says(terms, self.epub, 1, self.enroll, body)
                &&& #[trigger] lookup(body, "pubkey"@) == Some(Cbor::Text(line))
                &&& match lookup(body, "device"@) {
                    Some(Cbor::Text(given)) => name == given,
                    _ => name.len() == 0,
                }
            }
    }
}

proof fn lemma_push(terms: SessionTerms, pin_retired: bool, events: Seq<Ev>, event: Ev)
    ensures
        after(terms, pin_retired, events.push(event)) == next(
            terms,
            pin_retired,
            after(terms, pin_retired, events).0,
            event,
        ),
{
    assert(events.push(event).drop_last() =~= events);
}

proof fn lemma_zeros()
    ensures
        zeros(32) == Seq::new(32, |i: int| 0u8),
{
    assert(zeros(32) =~= Seq::new(32, |i: int| 0u8));
}

proof fn lemma_intro(frame: Seq<u8>, epub: Seq<u8>, mode: Seq<char>)
    ensures
        intro_of(frame) == Some((epub, mode)) <==> introduces(frame, epub, mode),
{
}

/// The end of a window: so much after now, but not beyond the offer's expiry.
pub open spec fn earlier(now: nat, budget: nat, deadline: nat) -> nat {
    if now + budget <= deadline { now + budget } else { deadline }
}

/// A peer is read from within five seconds, or until the offer expires. An INTRO
/// is followed by HELLO in the same window, unless the shared secret would be
/// zero; what is no INTRO is hung up on without a word, and so is a peer that
/// sends nothing.
pub proof fn introductions_are_answered(
    terms: SessionTerms,
    pin_retired: bool,
    t: nat,
    frame: Seq<u8>,
    epub: Seq<u8>,
    mode: Seq<char>,
)
    ensures
        after(terms, pin_retired, seq![Ev::Now(t)]).1 == (Act::Read {
            by: earlier(t, 5_000_000_000, terms.deadline),
        }),
        introduces(frame, epub, mode) && !is_low_order(terms, epub) ==> after(
            terms,
            pin_retired,
            seq![Ev::Now(t), Ev::Frame(frame)],
        ).1 == (Act::Read { by: earlier(t, 5_000_000_000, terms.deadline) }),
        introduces(frame, epub, mode) && is_low_order(terms, epub) ==> after(
            terms,
            pin_retired,
            seq![Ev::Now(t), Ev::Frame(frame)],
        ).1 == Act::Close(Ended::Ignore),
        (forall|e: Seq<u8>, m: Seq<char>| !introduces(frame, e, m)) ==> after(
            terms,
            pin_retired,
            seq![Ev::Now(t), Ev::Frame(frame)],
        ).1 == Act::Close(Ended::Ignore),
        after(terms, pin_retired, seq![Ev::Now(t), Ev::Failed]).1 == Act::Close(Ended::Ignore),
{
    lemma_zeros();
    let none = Seq::<Ev>::empty();
    lemma_push(terms, pin_retired, none, Ev::Now(t));
    assert(none.push(Ev::Now(t)) =~= seq![Ev::Now(t)]);
    let one = seq![Ev::Now(t)];
    lemma_push(terms, pin_retired, one, Ev::Frame(frame));
    assert(one.push(Ev::Frame(frame)) =~= seq![Ev::Now(t), Ev::Frame(frame)]);
    lemma_push(terms, pin_retired, one, Ev::Failed);
    assert(one.push(Ev::Failed) =~= seq![Ev::Now(t), Ev::Failed]);
    lemma_intro(frame, epub, mode);
    if let Some((e, m)) = intro_of(frame) {
        lemma_intro(frame, e, m);
        assert(introduces(frame, e, m));
    }
}

proof fn lemma_introduced(terms: SessionTerms, pin_retired: bool, peer: Peer)
    requires
        introduces(peer.intro, peer.epub, peer.mode),
        !is_low_order(terms, peer.epub),
    ensures
        after(terms, pin_retired, seq![Ev::Now(peer.times.0), Ev::Frame(peer.intro)]).0
            == (Stage::Hello {
            preauth: window_end(peer.times.0, 5_000_000_000, terms.deadline),
            epub: peer.epub,
            mode: peer.mode,
            channel: channel_after(terms, peer.epub, 0, 0),
        }),
{
    lemma_zeros();
    let none = Seq::<Ev>::empty();
    let now = Ev::Now(peer.times.0);
    lemma_push(terms, pin_retired, none, now);
    assert(none.push(now) =~= seq![now]);
    lemma_push(terms, pin_retired, seq![now], Ev::Frame(peer.intro));
    assert(seq![now].push(Ev::Frame(peer.intro)) =~= seq![now, Ev::Frame(peer.intro)]);
    lemma_intro(peer.intro, peer.epub, peer.mode);
}

/// What a proof is worth: the right one has the clock looked at, for the offer; a
/// wrong token is hung up on without a word; a wrong PIN is told so and counted;
/// a retired PIN is told so and not counted; any other mode is hung up on.
pub proof fn proofs_are_judged(terms: SessionTerms, pin_retired: bool, peer: Peer, last: Ev)
    requires
        peer.greets(terms),
    ensures
        ({
            let told = after(terms, pin_retired, peer.greeting()).1;
            let end = after(terms, pin_retired, peer.greeting().push(last)).1;
            let channel = channel_after(terms, peer.epub, 1, 0);
            &&& peer.is_right(terms, pin_retired) ==> told == Act::Clock
            &&& peer.mode == "token"@ && peer.proof_bytes != terms.token ==> told == Act::Close(
                Ended::Ignore,
            )
            &&& peer.mode == "pin"@ && pin_retired ==> told == (Act::Send {
                channel,
                body: done_err("pin retired for this offer"@),
                within: 5_000_000_000,
            }) && end == Act::Close(Ended::Ignore)
            &&& peer.mode == "pin"@ && !pin_retired && !peer.is_right(terms, pin_retired) ==> told
                == (Act::Send { channel, body: done_err("wrong pin"@), within: 5_000_000_000 })
                && end == Act::Close(Ended::PinFailure)
            &&& peer.mode != "token"@ && peer.mode != "pin"@ ==> told == Act::Close(Ended::Ignore)
        }),
{
    lemma_judged(terms, pin_retired, peer);
    lemma_push(terms, pin_retired, peer.greeting(), last);
}

proof fn lemma_judged(terms: SessionTerms, pin_retired: bool, peer: Peer)
    requires
        peer.greets(terms),
    ensures
        ({
            let (stage, act) = after(terms, pin_retired, peer.greeting());
            let channel = channel_after(terms, peer.epub, 1, 0);
            &&& peer.is_right(terms, pin_retired) ==> stage == (Stage::Accepted { channel }) && act
                == Act::Clock
            &&& peer.mode == "token"@ && peer.proof_bytes != terms.token ==> (stage, act) == close(
                Ended::Ignore,
            )
            &&& peer.mode == "pin"@ && pin_retired ==> (stage, act) == refuse(
                channel,
                "pin retired for this offer"@,
                Ended::Ignore,
                5_000_000_000,
            )
            &&& peer.mode == "pin"@ && !pin_retired && !peer.is_right(terms, pin_retired) ==> (
                stage,
                act,
            ) == refuse(channel, "wrong pin"@, Ended::PinFailure, 5_000_000_000)
            &&& peer.mode != "token"@ && peer.mode != "pin"@ ==> (stage, act) == close(Ended::Ignore)
        }),
{
    reveal_strlit("token");
    reveal_strlit("pin");
    assert("token"@.len() != "pin"@.len());
    lemma_introduced(terms, pin_retired, peer);
    let two = seq![Ev::Now(peer.times.0), Ev::Frame(peer.intro)];
    lemma_push(terms, pin_retired, two, Ev::Frame(peer.hello));
    assert(two.push(Ev::Frame(peer.hello)) =~= peer.greeting());
    let body = choose|body: Cbor|
        says(terms, peer.epub, 0, peer.hello, body) && #[trigger] lookup(body, "proof"@) == Some(
            Cbor::Bytes(peer.proof_bytes),
        );
    let start = channel_after(terms, peer.epub, 0, 0);
    assert(heard(start, peer.hello) == Some(body));
    assert(bytes_at(body, "proof"@) == Some(peer.proof_bytes));
    assert(received(start) == channel_after(terms, peer.epub, 1, 0));
}

/// A HELLO that is not authentic, not CBOR or without a proof is hung up on
/// without a word, and so is a peer that sends none.
pub proof fn a_peer_without_a_proof_is_dropped(terms: SessionTerms, pin_retired: bool, peer: Peer)
    requires
        introduces(peer.intro, peer.epub, peer.mode),
        !is_low_order(terms, peer.epub),
        forall|body: Cbor|
            #[trigger] says(terms, peer.epub, 0, peer.hello, body) ==> !(lookup(
                body,
                "proof"@,
            ) matches Some(Cbor::Bytes(_))),
    ensures
        after(terms, pin_retired, peer.greeting()).1 == Act::Close(Ended::Ignore),
        after(
            terms,
            pin_retired,
            seq![Ev::Now(peer.times.0), Ev::Frame(peer.intro), Ev::Failed],
        ).1 == Act::Close(Ended::Ignore),
{
    lemma_introduced(terms, pin_retired, peer);
    let two = seq![Ev::Now(peer.times.0), Ev::Frame(peer.intro)];
    lemma_push(terms, pin_retired, two, Ev::Frame(peer.hello));
    assert(two.push(Ev::Frame(peer.hello)) =~= peer.greeting());
    lemma_push(terms, pin_retired, two, Ev::Failed);
    assert(two.push(Ev::Failed) =~= seq![
        Ev::Now(peer.times.0),
        Ev::Frame(peer.intro),
        Ev::Failed,
    ]);
    let start = channel_after(terms, peer.epub, 0, 0);
    if let Some(body) = heard(start, peer.hello) {
        assert(says(terms, peer.epub, 0, peer.hello, body));
        if let Some(proof_bytes) = bytes_at(body, "proof"@) {
            assert(lookup(body, "proof"@) == Some(Cbor::Bytes(proof_bytes)));
        }
    }
}

proof fn lemma_offered(terms: SessionTerms, pin_retired: bool, peer: Peer)
    requires
        peer.greets(terms),
        peer.is_right(terms, pin_retired),
    ensures
        ({
            let four = peer.greeting().push(Ev::Now(peer.times.1));
            let five = four.push(Ev::Sent);
            let channel = channel_after(terms, peer.epub, 1, 1);
            let postauth = window_end(peer.times.1, 120_000_000_000, terms.deadline);
            &&& after(terms, pin_retired, four) == (
                Stage::Offered { channel, postauth },
                Act::Send {
                    channel: channel_after(terms, peer.epub, 1, 0),
                    body: offer_body(terms.offer),
                    within: 120_000_000_000,
                },
            )
            &&& after(terms, pin_retired, five) == (
                Stage::Enroll { channel },
                Act::Read { by: postauth },
            )
        }),
{
    lemma_judged(terms, pin_retired, peer);
    let four = peer.greeting().push(Ev::Now(peer.times.1));
    lemma_push(terms, pin_retired, peer.greeting(), Ev::Now(peer.times.1));
    lemma_push(terms, pin_retired, four, Ev::Sent);
    assert(replied(channel_after(terms, peer.epub, 1, 0)) == channel_after(terms, peer.epub, 1, 1));
}

/// A peer with the right proof is sent the host record and then read from for two
/// minutes, or until the offer expires; if either fails it is hung up on.
pub proof fn a_proved_peer_is_offered_the_record(
    terms: SessionTerms,
    pin_retired: bool,
    peer: Peer,
)
    requires
        peer.greets(terms),
        peer.is_right(terms, pin_retired),
    ensures
        ({
            let four = peer.greeting().push(Ev::Now(peer.times.1));
            let five = four.push(Ev::Sent);
            &&& after(terms, pin_retired, four).1 == (Act::Send {
                channel: channel_after(terms, peer.epub, 1, 0),
                body: offer_body(terms.offer),
                within: 120_000_000_000,
            })
            &&& after(terms, pin_retired, five).1 == (Act::Read {
                by: earlier(peer.times.1, 120_000_000_000, terms.deadline),
            })
            &&& after(terms, pin_retired, four.push(Ev::Failed)).1 == Act::Close(Ended::Ignore)
            &&& after(terms, pin_retired, five.push(Ev::Failed)).1 == Act::Close(Ended::Ignore)
        }),
{
    lemma_offered(terms, pin_retired, peer);
    let four = peer.greeting().push(Ev::Now(peer.times.1));
    let five = four.push(Ev::Sent);
    lemma_push(terms, pin_retired, four, Ev::Failed);
    lemma_push(terms, pin_retired, five, Ev::Failed);
}

/// The OFFER tells the whole host record: the name, every address, the user, the
/// port and every host key, each list in its order.
pub proof fn the_offer_tells_the_whole_record(offer: OfferState)
    ensures
        lookup(offer_body(offer), "name"@) == Some(Cbor::Text(offer.name)),
        lookup(offer_body(offer), "addrs"@) matches Some(Cbor::Array(items)) && items.len()
            == offer.addrs.len() && forall|i: int|
            0 <= i < items.len() ==> #[trigger] items[i] == Cbor::Text(offer.addrs[i]),
        lookup(offer_body(offer), "ssh"@) matches Some(ssh) && {
            &&& lookup(ssh, "user"@) == Some(Cbor::Text(offer.user))
            &&& lookup(ssh, "port"@) == Some(Cbor::Integer(offer.ssh_port as int))
            &&& lookup(ssh, "hostkeys"@) matches Some(Cbor::Array(items)) && items.len()
                == offer.hostkeys.len() && forall|i: int|
                0 <= i < items.len() ==> #[trigger] items[i] == Cbor::Text(offer.hostkeys[i])
        },
{
    reveal_strlit("name");
    reveal_strlit("addrs");
    reveal_strlit("ssh");
    reveal_strlit("user");
    reveal_strlit("port");
    reveal_strlit("hostkeys");
    assert("name"@[0] == 'n' && "addrs"@[0] == 'a' && "ssh"@[0] == 's');
    assert("user"@[0] == 'u' && "port"@[0] == 'p' && "hostkeys"@[0] == 'h');
    let body = offer_body(offer)->Dict_0;
    lemma_entries3(body);
    let ssh = body[2].1->Dict_0;
    lemma_entries3(ssh);
}

proof fn lemma_entries3(entries: Seq<(Cbor, Cbor)>)
    requires
        entries.len() == 3,
    ensures
        forall|key: Seq<char>|
            #[trigger] entry_of(entries, key) == (if entries[0].0 == Cbor::Text(key) {
                Some(entries[0].1)
            } else if entries[1].0 == Cbor::Text(key) {
                Some(entries[1].1)
            } else if entries[2].0 == Cbor::Text(key) {
                Some(entries[2].1)
            } else {
                None
            }),
{
    let one = entries.drop_first();
    let two = one.drop_first();
    let none = two.drop_first();
    assert forall|key: Seq<char>|
        #[trigger] entry_of(entries, key) == (if entries[0].0 == Cbor::Text(key) {
            Some(entries[0].1)
        } else if entries[1].0 == Cbor::Text(key) {
            Some(entries[1].1)
        } else if entries[2].0 == Cbor::Text(key) {
            Some(entries[2].1)
        } else {
            None
        }) by {
        assert(entry_of(none, key) is None);
        assert(entry_of(two, key) == (if entries[2].0 == Cbor::Text(key) {
            Some(entries[2].1)
        } else {
            None
        }));
        assert(one[0] == entries[1]);
        assert(entry_of(one, key) == (if entries[1].0 == Cbor::Text(key) {
            Some(entries[1].1)
        } else {
            entry_of(two, key)
        }));
    }
}

/// DONE says whether the key is enrolled, and under which comment, or why not.
pub proof fn done_says_how_it_ended(told: Seq<char>)
    ensures
        lookup(done_ok(told), "ok"@) == Some(Cbor::Bool(true)),
        lookup(done_ok(told), "comment"@) == Some(Cbor::Text(told)),
        lookup(done_err(told), "ok"@) == Some(Cbor::Bool(false)),
        lookup(done_err(told), "err"@) == Some(Cbor::Text(told)),
{
    reveal_strlit("ok");
    reveal_strlit("comment");
    reveal_strlit("err");
    assert("ok"@[0] == 'o' && "comment"@[0] == 'c' && "err"@[0] == 'e');
    let yes = done_ok(told)->Dict_0;
    let no = done_err(told)->Dict_0;
    assert(yes.drop_first()[0] == yes[1]);
    assert(no.drop_first()[0] == no[1]);
    assert(entry_of(yes, "ok"@) == Some(Cbor::Bool(true)));
    assert(entry_of(yes.drop_first(), "comment"@) == Some(Cbor::Text(told)));
    assert(entry_of(yes, "comment"@) == Some(Cbor::Text(told)));
    assert(entry_of(no, "ok"@) == Some(Cbor::Bool(false)));
    assert(entry_of(no.drop_first(), "err"@) == Some(Cbor::Text(told)));
    assert(entry_of(no, "err"@) == Some(Cbor::Text(told)));
}

/// What is kept of a device's name: its characters that are not control
/// characters, the first 64 of them.
pub proof fn device_names_lose_control_characters(name: Seq<char>)
    ensures
        ({
            let all = name.filter(|c: char| !(c as u32 <= 31 || (127 <= c as u32 && c as u32 <= 159)));
            device_of(name) == (if all.len() > 64 { all.take(64) } else { all })
        }),
{
    lemma_printable(name);
}

proof fn lemma_printable(name: Seq<char>)
    ensures
        printable(name) == name.filter(
            |c: char| !(c as u32 <= 31 || (127 <= c as u32 && c as u32 <= 159)),
        ),
    decreases name.len(),
{
    reveal(Seq::filter);
    let pred = |c: char| !(c as u32 <= 31 || (127 <= c as u32 && c as u32 <= 159));
    if name.len() > 0 {
        lemma_printable(name.drop_last());
        assert(is_control(name.last()) == !pred(name.last()));
    }
    assert(printable(name) =~= name.filter(pred));
}

proof fn lemma_enrolling(terms: SessionTerms, pin_retired: bool, peer: Peer)
    requires
        peer.greets(terms),
        peer.is_right(terms, pin_retired),
    ensures
        after(terms, pin_retired, peer.enrolling()) == next(
            terms,
            pin_retired,
            Stage::Enroll { channel: channel_after(terms, peer.epub, 1, 1) },
            Ev::Frame(peer.enroll),
        ),
{
    lemma_offered(terms, pin_retired, peer);
    let five = peer.greeting().push(Ev::Now(peer.times.1)).push(Ev::Sent);
    lemma_push(terms, pin_retired, five, Ev::Frame(peer.enroll));
    assert(five.push(Ev::Frame(peer.enroll)) =~= peer.enrolling());
}

proof fn lemma_keyed(
    terms: SessionTerms,
    pin_retired: bool,
    peer: Peer,
    line: Seq<char>,
    name: Seq<char>,
)
    requires
        peer.greets(terms),
        peer.is_right(terms, pin_retired),
        peer.enrolls(terms, line, name),
    ensures
        ({
            let (stage, act) = after(terms, pin_retired, peer.enrolling());
            let channel = channel_after(terms, peer.epub, 2, 1);
            match openssh_key(trim_of(line)) {
                Some(key) => if holds(key.algorithm, "ed25519"@) {
                    stage == (Stage::Keyed {
                        channel,
                        device: device_of(name),
                        canonical: key.canonical,
                    }) && act == Act::Clock
                } else {
                    (stage, act) == refuse(
                        channel,
                        "only ed25519 keys are accepted"@,
                        Ended::Ignore,
                        120_000_000_000,
                    )
                },
                None => (stage, act) == refuse(
                    channel,
                    "unparseable public key"@,
                    Ended::Ignore,
                    120_000_000_000,
                ),
            }
        }),
{
    lemma_enrolling(terms, pin_retired, peer);
    let channel = channel_after(terms, peer.epub, 1, 1);
    let body = choose|body: Cbor|
        {
            &&& says(terms, peer.epub, 1, peer.enroll, body)
            &&& #[trigger] lookup(body, "pubkey"@) == Some(Cbor::Text(line))
            &&& match lookup(body, "device"@) {
                Some(Cbor::Text(given)) => name == given,
                _ => name.len() == 0,
            }
        };
    assert(heard(channel, peer.enroll) == Some(body));
    assert(text_at(body, "pubkey"@) == Some(line));
    assert(received(channel) == channel_after(terms, peer.epub, 2, 1));
    if text_at(body, "device"@) is None {
        assert(name =~= Seq::<char>::empty());
    }
}

/// Only a public key of an ed25519 algorithm is gone on with: what cannot be read
/// as a key and a key of another algorithm are told so, whatever the device is
/// called; an ENROLL that is not authentic, not CBOR or without a key is hung up
/// on without a word.
pub proof fn only_ed25519_keys_are_gone_on_with(
    terms: SessionTerms,
    pin_retired: bool,
    peer: Peer,
    line: Seq<char>,
    name: Seq<char>,
    last: Ev,
)
    requires
        peer.greets(terms),
        peer.is_right(terms, pin_retired),
    ensures
        ({
            let told = after(terms, pin_retired, peer.enrolling()).1;
            let end = after(terms, pin_retired, peer.enrolling().push(last)).1;
            let channel = channel_after(terms, peer.epub, 2, 1);
            let key = openssh_key(trim_of(line));
            &&& peer.enrolls(terms, line, name) && key is None ==> told == (Act::Send {
                channel,
                body: done_err("unparseable public key"@),
                within: 120_000_000_000,
            }) && end == Act::Close(Ended::Ignore)
            &&& peer.enrolls(terms, line, name) && key is Some && !holds(
                key->0.algorithm,
                "ed25519"@,
            ) ==> told == (Act::Send {
                channel,
                body: done_err("only ed25519 keys are accepted"@),
                within: 120_000_000_000,
            }) && end == Act::Close(Ended::Ignore)
            &&& peer.enrolls(terms, line, name) && key is Some && holds(
                key->0.algorithm,
                "ed25519"@,
            ) ==> told == Act::Clock
            &&& (forall|l: Seq<char>, n: Seq<char>| !peer.enrolls(terms, l, n)) ==> told
                == Act::Close(Ended::Ignore)
        }),
{
    lemma_push(terms, pin_retired, peer.enrolling(), last);
    if peer.enrolls(terms, line, name) {
        lemma_keyed(terms, pin_retired, peer, line, name);
    }
    if forall|l: Seq<char>, n: Seq<char>| !peer.enrolls(terms, l, n) {
        lemma_enrolling(terms, pin_retired, peer);
        let channel = channel_after(terms, peer.epub, 1, 1);
        if let Some(body) = heard(channel, peer.enroll) {
            assert(says(terms, peer.epub, 1, peer.enroll, body));
            if let Some(l) = text_at(body, "pubkey"@) {
                let n = match lookup(body, "device"@) {
                    Some(Cbor::Text(given)) => given,
                    _ => Seq::empty(),
                };
                assert(lookup(body, "pubkey"@) == Some(Cbor::Text(l)));
                assert(peer.enrolls(terms, l, n));
            }
        }
    }
}

/// Whether the peer goes through with it: a right proof, and an ed25519 key that
/// reads as this canonical line.
pub open spec fn brings_a_key(
    terms: SessionTerms,
    pin_retired: bool,
    peer: Peer,
    line: Seq<char>,
    name: Seq<char>,
    canonical: Option<Seq<char>>,
) -> bool {
    &&& peer.greets(terms)
    &&& peer.is_right(terms, pin_retired)
    &&& peer.enrolls(terms, line, name)
    &&& openssh_key(trim_of(line)) matches Some(key) && holds(key.algorithm, "ed25519"@)
        && key.canonical == canonical
}

/// The operator is asked about the device only while the offer lasts. If it has
/// expired, or does so while they think, or they decline, the client is told and
/// nothing is written; and a refusal ends the session's offer only if it is the
/// operator's.
pub proof fn the_operator_is_asked_in_time(
    terms: SessionTerms,
    pin_retired: bool,
    peer: Peer,
    line: Seq<char>,
    name: Seq<char>,
    canonical: Option<Seq<char>>,
    t: nat,
    u: nat,
    last: Ev,
)
    requires
        brings_a_key(terms, pin_retired, peer, line, name, canonical),
    ensures
        ({
            let asked = peer.enrolling().push(Ev::Now(t));
            let declined = asked.push(Ev::Answer(false));
            let agreed = asked.push(Ev::Answer(true));
            let late = agreed.push(Ev::Now(u));
            let channel = channel_after(terms, peer.epub, 2, 1);
            let expired = Act::Send {
                channel,
                body: done_err("offer expired"@),
                within: 120_000_000_000,
            };
            &&& t >= terms.deadline ==> after(terms, pin_retired, asked).1 == expired && after(
                terms,
                pin_retired,
                asked.push(last),
            ).1 == Act::Close(Ended::Ignore)
            &&& t < terms.deadline ==> {
                &&& after(terms, pin_retired, asked).1 == Act::Confirm(device_of(name))
                &&& after(terms, pin_retired, declined).1 == (Act::Send {
                    channel,
                    body: done_err("declined on the host"@),
                    within: 120_000_000_000,
                })
                &&& after(terms, pin_retired, declined.push(last)).1 == Act::Close(Ended::Declined)
                &&& after(terms, pin_retired, agreed).1 == Act::Clock
                &&& u >= terms.deadline ==> after(terms, pin_retired, late).1 == expired && after(
                    terms,
                    pin_retired,
                    late.push(last),
                ).1 == Act::Close(Ended::Ignore)
                &&& u < terms.deadline && canonical is Some && fields_of(canonical->0).len() >= 2
                    ==> after(terms, pin_retired, late).1 == Act::ReadKeys
                &&& u < terms.deadline && (canonical is None || fields_of(canonical->0).len() < 2)
                    ==> after(terms, pin_retired, late).1 == Act::Close(Ended::Ignore)
            }
        }),
{
    lemma_keyed(terms, pin_retired, peer, line, name);
    let six = peer.enrolling();
    let asked = six.push(Ev::Now(t));
    let declined = asked.push(Ev::Answer(false));
    let agreed = asked.push(Ev::Answer(true));
    let late = agreed.push(Ev::Now(u));
    lemma_push(terms, pin_retired, six, Ev::Now(t));
    lemma_push(terms, pin_retired, asked, last);
    lemma_push(terms, pin_retired, asked, Ev::Answer(false));
    lemma_push(terms, pin_retired, declined, last);
    lemma_push(terms, pin_retired, asked, Ev::Answer(true));
    lemma_push(terms, pin_retired, agreed, Ev::Now(u));
    lemma_push(terms, pin_retired, late, last);
}

/// What becomes of a key that the operator agreed to in time. A file that cannot
/// be used is told to the client and left alone. A key that is there already is
/// reported under the comment it has, and nothing is written. Any other key is
/// written as one more line, its two canonical fields under the session's marker
/// and the device's slug, and reported under that comment once it is saved,
/// whether or not the client hears of it; if it cannot be saved, the client is
/// told so.
pub proof fn agreed_keys_are_enrolled(
    terms: SessionTerms,
    pin_retired: bool,
    peer: Peer,
    line: Seq<char>,
    name: Seq<char>,
    canonical: Seq<char>,
    t: nat,
    u: nat,
    content: Seq<char>,
    why: Seq<char>,
    last: Ev,
)
    requires
        brings_a_key(terms, pin_retired, peer, line, name, Some(canonical)),
        fields_of(canonical).len() >= 2,
        t < terms.deadline,
        u < terms.deadline,
    ensures
        ({
            let agreed = peer.enrolling().push(Ev::Now(t)).push(Ev::Answer(true)).push(Ev::Now(u));
            let read = agreed.push(Ev::Keys(Ok(content)));
            let unread = agreed.push(Ev::Keys(Err(why)));
            let saved = read.push(Ev::Saved);
            let unsaved = read.push(Ev::Unsaved(why));
            let channel = channel_after(terms, peer.epub, 2, 1);
            let device = device_of(name);
            let key_type = fields_of(canonical)[0];
            let material = fields_of(canonical)[1];
            let comment = terms.marker_id + ":"@ + slug_of(device);
            let unusable = Act::Send {
                channel,
                body: done_err("could not write authorized_keys: "@ + why),
                within: 120_000_000_000,
            };
            &&& after(terms, pin_retired, unread).1 == unusable
            &&& after(terms, pin_retired, unread.push(last)).1 == Act::Close(Ended::Ignore)
            &&& enrolled(lines_of(content), material) matches Some(there) ==> {
                &&& after(terms, pin_retired, read).1 == (Act::Send {
                    channel,
                    body: done_ok(there),
                    within: 120_000_000_000,
                })
                &&& after(terms, pin_retired, read.push(last)).1 == Act::Close(
                    Ended::Enrolled { device, comment: there, acknowledged: last is Sent },
                )
            }
            &&& enrolled(lines_of(content), material) is None ==> {
                &&& after(terms, pin_retired, read).1 == Act::WriteKeys(
                    with_key(content, key_type, material, comment),
                )
                &&& after(terms, pin_retired, saved).1 == (Act::Send {
                    channel,
                    body: done_ok(comment),
                    within: 120_000_000_000,
                })
                &&& after(terms, pin_retired, saved.push(last)).1 == Act::Close(
                    Ended::Enrolled { device, comment, acknowledged: last is Sent },
                )
                &&& after(terms, pin_retired, unsaved).1 == unusable
                &&& after(terms, pin_retired, unsaved.push(last)).1 == Act::Close(Ended::Ignore)
            }
        }),
{
    lemma_keyed(terms, pin_retired, peer, line, name);
    let six = peer.enrolling();
    let asked = six.push(Ev::Now(t));
    let yes = asked.push(Ev::Answer(true));
    let agreed = yes.push(Ev::Now(u));
    let read = agreed.push(Ev::Keys(Ok(content)));
    let unread = agreed.push(Ev::Keys(Err(why)));
    let saved = read.push(Ev::Saved);
    let unsaved = read.push(Ev::Unsaved(why));
    lemma_push(terms, pin_retired, six, Ev::Now(t));
    lemma_push(terms, pin_retired, asked, Ev::Answer(true));
    lemma_push(terms, pin_retired, yes, Ev::Now(u));
    lemma_push(terms, pin_retired, agreed, Ev::Keys(Ok(content)));
    lemma_push(terms, pin_retired, agreed, Ev::Keys(Err(why)));
    lemma_push(terms, pin_retired, unread, last);
    lemma_push(terms, pin_retired, read, last);
    lemma_push(terms, pin_retired, read, Ev::Saved);
    lemma_push(terms, pin_retired, saved, last);
    lemma_push(terms, pin_retired, read, Ev::Unsaved(why));
    lemma_push(terms, pin_retired, unsaved, last);
    let device = device_of(name);
    assert(comment_for(terms, device) == terms.marker_id + ":"@ + slug_of(device));
}

/// The operator is told of each wrong PIN how many tries are left of three, of
/// the third that the PIN is retired, and of nothing else.
pub proof fn the_operator_is_told_of_wrong_pins(results: Seq<Ended>, result: Ended)
    ensures
        ({
            let told = told_of(failures_of(results), result);
            let wrong = wrong_pins(results.push(result));
            &&& !(result is PinFailure) ==> told is None
            &&& result is PinFailure && wrong < 3 ==> told == Some(
                ServerEvent::WrongPin { remaining: (3 - wrong) as u32 },
            )
            &&& result is PinFailure && wrong == 3 ==> told == Some(ServerEvent::PinRetired)
            &&& result is PinFailure && wrong > 3 ==> told is None
            &&& failures_of(results) >= 3 <==> wrong_pins(results) >= 3
        }),
{
    three_wrong_pins_retire_the_pin_once(results);
    assert(results.push(result).drop_last() =~= results);
}

/// An offer's terms are those of its configuration, each in full.
pub proof fn terms_are_those_of_the_configuration(config: SessionConfig, i: int)
    ensures
        config@.secret == config.secret@,
        config@.spub == config.spub@,
        config@.token == config.token@,
        config@.pin == config.pin@,
        config@.deadline == config.deadline,
        config@.marker_id == config.marker_id@,
        config@.offer.name == config.offer.name@,
        config@.offer.user == config.offer.user@,
        config@.offer.ssh_port == config.offer.ssh_port,
        config@.offer.addrs.len() == config.offer.addrs@.len(),
        0 <= i < config.offer.addrs@.len() ==> config@.offer.addrs[i] == config.offer.addrs@[i]@,
        config@.offer.hostkeys.len() == config.offer.hostkeys@.len(),
        0 <= i < config.offer.hostkeys@.len() ==> config@.offer.hostkeys[i]
            == config.offer.hostkeys@[i]@,
{
}

/// An event is what came of an action, whole.
pub proof fn events_are_what_came_of_an_action(event: Event)
    ensures
        event matches Event::Now(t) ==> event@ == Ev::Now(t as nat),
        event matches Event::Frame(frame) ==> event@ == Ev::Frame(frame@),
        event is Sent ==> event@ is Sent,
        event is Failed ==> event@ is Failed,
        event matches Event::Answer(yes) ==> event@ == Ev::Answer(yes),
        (event matches Event::Keys(file) && content_of(file) is Ok) ==> event@ == Ev::Keys(
            Ok(content_of(event->Keys_0)->Ok_0),
        ),
        (event matches Event::Keys(file) && content_of(file) is Err) ==> event@ == Ev::Keys(
            Err((content_of(event->Keys_0)->Err_0).told()),
        ),
        event is Saved ==> event@ is Saved,
        event matches Event::Unsaved(why) ==> event@ == Ev::Unsaved(why@),
{
}

/// An action is what is to be done: it is read by that time, asked about that
/// device, written that text, hung up with that result; and what is sent is a
/// frame that the client, with the same channel, opens and reads as that body.
pub proof fn actions_are_what_is_to_be_done(action: Action, act: Act)
    requires
        action.does(act),
    ensures
        act is Clock ==> action is Clock,
        act is ReadKeys ==> action is ReadKeys,
        act matches Act::Read { by } ==> (action matches Action::Read { by: time } && time == by),
        act matches Act::Confirm(device) ==> (action matches Action::Confirm(asked) && asked@
            == device),
        act matches Act::WriteKeys(text) ==> (action matches Action::WriteKeys(content) && content@
            == text),
        act matches Act::Close(ended) ==> (action matches Action::Close(result) && result@ == ended),
        act matches Act::Send { channel, body, within } ==> (action matches Action::Send {
            frame,
            within: time,
        } && time == within && frame@.len() <= u32::MAX && chacha_opened(
            channel.s2c,
            nonce_of(channel.seq_s2c),
            frame@,
        ) == Some(cbor_encoded(body)) && cbor_decoded(cbor_encoded(body)) == Some(body)),
{
}

/// A result is how the exchange ended, whole.
pub proof fn results_are_how_it_ended(result: ConnectionResult)
    ensures
        result matches ConnectionResult::Enrolled { device, comment, acknowledged } ==> result@
            == (Ended::Enrolled { device: device@, comment: comment@, acknowledged }),
        result is PinFailure ==> result@ is PinFailure,
        result is Declined ==> result@ is Declined,
        result is Ignore ==> result@ is Ignore,
{
}

/// An offer can be served unless its texts, nine bytes more for each in a list,
/// or its marker take more than a frame has room for; and an event can be taken
/// unless a frame is too long or what it makes the reply tell is.
pub proof fn only_what_no_frame_carries_is_left_out(
    terms: SessionTerms,
    list: Seq<Seq<char>>,
    text: Seq<char>,
    stage: Stage,
    event: Ev,
)
    ensures
        servable(terms) <==> {
            &&& encode_utf8(terms.offer.name).len() + encode_utf8(terms.offer.user).len()
                + room_for(terms.offer.addrs) + room_for(terms.offer.hostkeys) <= 4_294_966_295
            &&& encode_utf8(terms.marker_id).len() <= 4_294_966_295
        },
        room_for(Seq::empty()) == 0,
        room_for(list.push(text)) == room_for(list) + encode_utf8(text).len() + 9,
        !(event is Frame) && !(event is Keys) && !(event is Unsaved) ==> tellable(stage, event),
        event matches Ev::Frame(frame) ==> (tellable(stage, event) <==> frame.len() <= 65536),
        (event matches Ev::Unsaved(why) && encode_utf8(why).len() <= 4_294_966_295) ==> tellable(
            stage,
            event,
        ),
        (event matches Ev::Keys(Err(why)) && encode_utf8(why).len() <= 4_294_966_295) ==> tellable(
            stage,
            event,
        ),
        (event matches Ev::Keys(Ok(content)) && (forall|material: Seq<char>|
            (#[trigger] enrolled(lines_of(content), material)) matches Some(comment)
                ==> encode_utf8(comment).len() <= 4_294_966_295)) ==> tellable(stage, event),
{
    assert(list.push(text).drop_last() =~= list);
}

} // verus!
