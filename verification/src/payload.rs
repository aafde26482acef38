//! The bind payload, the one string that QR code and clipboard both carry:
//! `multiplex://b/<base64url>`.
//!
//! It is the smallest thing that can reach and authenticate the machine,
//! because it has to survive being drawn as a QR code in an 80x24 terminal.
//! What merely describes the machine (the SSH user, the host key fingerprints)
//! arrives a moment later inside the sealed offer. Offline payloads are the
//! exception: there is no handshake to carry the record, so they append the SSH
//! user, the port and the 32-byte key seed.

use vstd::prelude::*;
use vstd::slice::*;
use vstd::string::*;
use vstd::utf8::*;
use crate::bytes::{
    array_at, be_bytes, be_value, copy_range, lemma_be_bytes_len, lemma_be_bytes_of_value,
    lemma_be_value_of_bytes, lemma_pow256, push_all, push_u16, u16_from,
};
use crate::text::{
    begins_with, cat, chars_of, lemma_weight_bound, lemma_weight_concat, text_of, utf8_text,
};
use crate::util::{b64url, b64url_decode, b64url_is_injective, b64url_length, b64url_of};

verus! {

pub const VERSION: u8 = 2;

pub const URL_PREFIX: &'static str = "multiplex://b/";

/// Longer names cost QR modules, and the app learns the real one from the
/// offer anyway.
pub const MAX_NAME: usize = 32;

/// More candidates cost modules for addresses that the app will never try.
pub const MAX_ADDRS: usize = 3;

/// The longest user name or path that its length byte can count.
pub const MAX_TEXT: usize = 255;

/// An address of this machine, by its octets.
#[derive(Debug, Clone, Copy, PartialEq, Eq)]
pub enum IpAddr {
    V4([u8; 4]),
    V6([u8; 16]),
}

/// What an offline payload carries instead of a handshake.
#[derive(Debug, Clone, PartialEq, Eq)]
pub struct OfflineKey {
    pub ssh_user: String,
    pub ssh_port: u16,
    /// The raw ed25519 private seed. Both sides derive the same key from it.
    pub seed: [u8; 32],
    /// A key file other than the default one, so that the app's rotation edits
    /// the file that the server reads.
    pub authorized_keys: Option<String>,
    /// The SHA-256 digest of the ed25519 host key.
    pub hostkey_sha256: Option<[u8; 32]>,
}

#[derive(Debug, Clone, PartialEq, Eq)]
pub struct Payload {
    pub addrs: Vec<IpAddr>,
    /// The handshake's TCP port; 0 in offline payloads, which have no listener.
    pub port: u16,
    pub spub: [u8; 32],
    pub token: [u8; 16],
    pub name: String,
    pub offline: Option<OfflineKey>,
}

/// An address by its octets.
pub ghost enum Addr {
    V4(Seq<u8>),
    V6(Seq<u8>),
}

pub ghost struct KeyState {
    pub ssh_user: Seq<char>,
    pub ssh_port: nat,
    pub seed: Seq<u8>,
    pub authorized_keys: Option<Seq<char>>,
    pub hostkey_sha256: Option<Seq<u8>>,
}

/// What a payload says.
pub ghost struct PayloadState {
    pub addrs: Seq<Addr>,
    pub port: nat,
    pub spub: Seq<u8>,
    pub token: Seq<u8>,
    pub name: Seq<char>,
    pub offline: Option<KeyState>,
}

impl View for IpAddr {
    type V = Addr;

    open spec fn view(&self) -> Addr {
        match self {
            IpAddr::V4(octets) => Addr::V4(octets@),
            IpAddr::V6(octets) => Addr::V6(octets@),
        }
    }
}

impl View for OfflineKey {
    type V = KeyState;

    open spec fn view(&self) -> KeyState {
        KeyState {
            ssh_user: self.ssh_user@,
            ssh_port: self.ssh_port as nat,
            seed: self.seed@,
            authorized_keys: match self.authorized_keys {
                Some(path) => Some(path@),
                None => None,
            },
            hostkey_sha256: match self.hostkey_sha256 {
                Some(digest) => Some(digest@),
                None => None,
            },
        }
    }
}

/// The octets of a list of addresses.
pub open spec fn addr_views(list: Seq<IpAddr>) -> Seq<Addr> {
    Seq::new(list.len(), |i: int| list[i]@)
}

impl View for Payload {
    type V = PayloadState;

    open spec fn view(&self) -> PayloadState {
        PayloadState {
            addrs: addr_views(self.addrs@),
            port: self.port as nat,
            spub: self.spub@,
            token: self.token@,
            name: self.name@,
            offline: match self.offline {
                Some(key) => Some(key@),
                None => None,
            },
        }
    }
}

/// The fields of an offline payload's tail, as bytes.
pub ghost struct WireKey {
    pub user: Seq<u8>,
    pub port: nat,
    pub seed: Seq<u8>,
    pub path: Seq<u8>,
    pub digest: Option<Seq<u8>>,
}

/// The fields of a payload, as bytes.
pub ghost struct Wire {
    pub flags: u8,
    pub spub: Seq<u8>,
    pub token: Seq<u8>,
    pub port: nat,
    pub addrs: Seq<Addr>,
    pub name: Seq<u8>,
    pub key: Option<WireKey>,
}

pub open spec fn addr_sized(a: Addr) -> bool {
    match a {
        Addr::V4(octets) => octets.len() == 4,
        Addr::V6(octets) => octets.len() == 16,
    }
}

pub open spec fn digest_sized(digest: Option<Seq<u8>>) -> bool {
    digest matches Some(d) ==> d.len() == 32
}

impl WireKey {
    pub open spec fn well_formed(self) -> bool {
        &&& self.user.len() <= MAX_TEXT
        &&& self.port < 0x10000
        &&& self.seed.len() == 32
        &&& self.path.len() <= MAX_TEXT
        &&& digest_sized(self.digest)
    }
}

impl Wire {
    /// Every field has the size that the format gives it, and the lowest flag
    /// says whether there is a tail.
    pub open spec fn well_formed(self) -> bool {
        &&& self.spub.len() == 32
        &&& self.token.len() == 16
        &&& self.port < 0x10000
        &&& self.addrs.len() <= MAX_ADDRS
        &&& forall|i: int| 0 <= i < self.addrs.len() ==> addr_sized(#[trigger] self.addrs[i])
        &&& self.name.len() <= MAX_TEXT
        &&& self.key is Some <==> self.flags % 2 == 1
        &&& self.key matches Some(k) ==> k.well_formed()
    }
}

/// Bytes with their number in front.
pub open spec fn counted(b: Seq<u8>) -> Seq<u8> {
    seq![b.len() as u8] + b
}

pub open spec fn addr_bytes(a: Addr) -> Seq<u8> {
    match a {
        Addr::V4(octets) => seq![4u8] + octets,
        Addr::V6(octets) => seq![6u8] + octets,
    }
}

pub open spec fn addrs_bytes(list: Seq<Addr>) -> Seq<u8>
    decreases list.len(),
{
    if list.len() == 0 {
        Seq::empty()
    } else {
        addr_bytes(list[0]) + addrs_bytes(list.skip(1))
    }
}

pub open spec fn or_empty(b: Option<Seq<u8>>) -> Seq<u8> {
    match b {
        Some(b) => b,
        None => Seq::empty(),
    }
}

pub open spec fn key_bytes(k: WireKey) -> Seq<u8> {
    counted(k.user) + be_bytes(k.port, 2) + k.seed + counted(k.path) + counted(or_empty(k.digest))
}

/// The bytes of the tail, if there is one.
pub open spec fn tail_bytes(key: Option<WireKey>) -> Seq<u8> {
    match key {
        Some(k) => key_bytes(k),
        None => Seq::empty(),
    }
}

/// The payload's bytes.
pub open spec fn wire_bytes(w: Wire) -> Seq<u8> {
    seq![VERSION, w.flags] + w.spub + w.token + be_bytes(w.port, 2) + seq![w.addrs.len() as u8]
        + addrs_bytes(w.addrs) + counted(w.name) + tail_bytes(w.key)
}

/// The greatest character boundary of `bytes` that is at most `n`.
pub open spec fn boundary_at_most(bytes: Seq<u8>, n: nat) -> nat
    decreases n,
{
    if n == 0 || is_char_boundary(bytes, n as int) {
        n
    } else {
        boundary_at_most(bytes, (n - 1) as nat)
    }
}

/// The first `n` bytes, or all of them.
pub open spec fn at_most(b: Seq<u8>, n: nat) -> Seq<u8> {
    if b.len() <= n { b } else { b.take(n as int) }
}

/// A name's bytes, cut on a character boundary to at most `MAX_NAME`.
pub open spec fn cut_name(name: Seq<char>) -> Seq<u8> {
    let bytes = encode_utf8(name);
    let n = if bytes.len() < MAX_NAME { bytes.len() } else { MAX_NAME as nat };
    bytes.take(boundary_at_most(bytes, n) as int)
}

pub open spec fn wire_key_of(k: KeyState) -> WireKey {
    WireKey {
        user: at_most(encode_utf8(k.ssh_user), MAX_TEXT as nat),
        port: k.ssh_port,
        seed: k.seed,
        path: match k.authorized_keys {
            Some(path) => at_most(encode_utf8(path), MAX_TEXT as nat),
            None => Seq::empty(),
        },
        digest: k.hostkey_sha256,
    }
}

/// The fields that a payload is written as: at most `MAX_ADDRS` addresses, and
/// texts cut to their limits.
pub open spec fn wire_of(p: PayloadState) -> Wire {
    Wire {
        flags: if p.offline is Some { 1 } else { 0 },
        spub: p.spub,
        token: p.token,
        port: p.port,
        addrs: if p.addrs.len() <= MAX_ADDRS { p.addrs } else { p.addrs.take(MAX_ADDRS as int) },
        name: cut_name(p.name),
        key: match p.offline {
            Some(k) => Some(wire_key_of(k)),
            None => None,
        },
    }
}

/// Whether the fields that hold text are valid UTF-8.
pub open spec fn legible(w: Wire) -> bool {
    &&& valid_utf8(w.name)
    &&& w.key matches Some(k) ==> valid_utf8(k.user) && valid_utf8(k.path)
}

/// What the fields of an offline tail say; an empty path says that there is
/// none.
pub open spec fn said_by_key(k: WireKey) -> KeyState {
    KeyState {
        ssh_user: decode_utf8(k.user),
        ssh_port: k.port,
        seed: k.seed,
        authorized_keys: if k.path.len() == 0 { None } else { Some(decode_utf8(k.path)) },
        hostkey_sha256: k.digest,
    }
}

/// What the fields of a payload say.
pub open spec fn said_by(w: Wire) -> PayloadState {
    PayloadState {
        addrs: w.addrs,
        port: w.port,
        spub: w.spub,
        token: w.token,
        name: decode_utf8(w.name),
        offline: match w.key {
            Some(k) => Some(said_by_key(k)),
            None => None,
        },
    }
}

/// Whether `bytes` begins with a payload of these fields. What follows them is
/// not looked at.
pub open spec fn reads_as(bytes: Seq<u8>, w: Wire) -> bool {
    w.well_formed() && legible(w) && wire_bytes(w).is_prefix_of(bytes)
}

/// What `bytes` says as a payload, if it begins with one.
pub open spec fn decoded(bytes: Seq<u8>) -> Option<PayloadState> {
    if exists|w: Wire| reads_as(bytes, w) {
        Some(said_by(choose|w: Wire| reads_as(bytes, w)))
    } else {
        None
    }
}

/// The payload as a URL.
pub open spec fn url_of(p: PayloadState) -> Seq<char> {
    URL_PREFIX@ + b64url_of(wire_bytes(wire_of(p)))
}

/// What a URL says as a payload, if it is one.
pub open spec fn url_decoded(url: Seq<char>) -> Option<PayloadState> {
    if URL_PREFIX@.is_prefix_of(url) && exists|data: Seq<u8>|
        url.skip(URL_PREFIX@.len() as int) == #[trigger] b64url_of(data) {
        decoded(
            choose|data: Seq<u8>| url.skip(URL_PREFIX@.len() as int) == #[trigger] b64url_of(data),
        )
    } else {
        None
    }
}

/// The sizes that a payload's arrays and ports have by their types.
pub open spec fn sized(p: PayloadState) -> bool {
    &&& p.spub.len() == 32
    &&& p.token.len() == 16
    &&& p.port < 0x10000
    &&& forall|i: int| 0 <= i < p.addrs.len() ==> addr_sized(#[trigger] p.addrs[i])
    &&& p.offline matches Some(k) ==> k.ssh_port < 0x10000 && k.seed.len() == 32 && digest_sized(
        k.hostkey_sha256,
    )
}

// Reading from the front, field by field.

spec fn cut(b: Seq<u8>, n: nat) -> Option<(Seq<u8>, Seq<u8>)> {
    if b.len() < n {
        None
    } else {
        Some((b.take(n as int), b.skip(n as int)))
    }
}

spec fn cut_counted(b: Seq<u8>) -> Option<(Seq<u8>, Seq<u8>)> {
    if b.len() == 0 {
        None
    } else {
        cut(b.skip(1), b[0] as nat)
    }
}

spec fn cut_addr(b: Seq<u8>) -> Option<(Addr, Seq<u8>)> {
    if b.len() == 0 {
        None
    } else if b[0] == 4 {
        match cut(b.skip(1), 4) {
            Some((octets, rest)) => Some((Addr::V4(octets), rest)),
            None => None,
        }
    } else if b[0] == 6 {
        match cut(b.skip(1), 16) {
            Some((octets, rest)) => Some((Addr::V6(octets), rest)),
            None => None,
        }
    } else {
        None
    }
}

spec fn cut_addrs(b: Seq<u8>, n: nat) -> Option<(Seq<Addr>, Seq<u8>)>
    decreases n,
{
    if n == 0 {
        Some((Seq::empty(), b))
    } else {
        match cut_addr(b) {
            Some((a, rest)) => match cut_addrs(rest, (n - 1) as nat) {
                Some((list, rest)) => Some((seq![a] + list, rest)),
                None => None,
            },
            None => None,
        }
    }
}

spec fn cut_digest(b: Seq<u8>) -> Option<(Option<Seq<u8>>, Seq<u8>)> {
    if b.len() == 0 {
        None
    } else if b[0] == 0 {
        Some((None, b.skip(1)))
    } else if b[0] == 32 {
        match cut(b.skip(1), 32) {
            Some((digest, rest)) => Some((Some(digest), rest)),
            None => None,
        }
    } else {
        None
    }
}

spec fn cut_key(b: Seq<u8>) -> Option<(WireKey, Seq<u8>)> {
    match cut_counted(b) {
        Some((user, b)) => match cut(b, 2) {
            Some((port, b)) => match cut(b, 32) {
                Some((seed, b)) => match cut_counted(b) {
                    Some((path, b)) => match cut_digest(b) {
                        Some((digest, b)) => Some(
                            (WireKey { user, port: be_value(port), seed, path, digest }, b),
                        ),
                        None => None,
                    },
                    None => None,
                },
                None => None,
            },
            None => None,
        },
        None => None,
    }
}

spec fn cut_tail(flags: u8, b: Seq<u8>) -> Option<Option<WireKey>> {
    if flags % 2 == 1 {
        match cut_key(b) {
            Some((k, rest)) => Some(Some(k)),
            None => None,
        }
    } else {
        Some(None)
    }
}

spec fn cut_body(flags: u8, spub: Seq<u8>, token: Seq<u8>, port: nat, b: Seq<u8>) -> Option<Wire> {
    if b.len() == 0 || b[0] > MAX_ADDRS {
        None
    } else {
        match cut_addrs(b.skip(1), b[0] as nat) {
            Some((addrs, b)) => match cut_counted(b) {
                Some((name, b)) => match cut_tail(flags, b) {
                    Some(key) => Some(Wire { flags, spub, token, port, addrs, name, key }),
                    None => None,
                },
                None => None,
            },
            None => None,
        }
    }
}

spec fn cut_wire(b: Seq<u8>) -> Option<Wire> {
    if b.len() < 2 || b[0] != VERSION {
        None
    } else {
        let flags = b[1];
        match cut(b.skip(2), 32) {
            Some((spub, b)) => match cut(b, 16) {
                Some((token, b)) => match cut(b, 2) {
                    Some((port, b)) => cut_body(flags, spub, token, be_value(port), b),
                    None => None,
                },
                None => None,
            },
            None => None,
        }
    }
}

proof fn lemma_cut_whole(a: Seq<u8>, rest: Seq<u8>)
    ensures
        cut(a + rest, a.len()) == Some((a, rest)),
{
    assert((a + rest).take(a.len() as int) == a);
    assert((a + rest).skip(a.len() as int) == rest);
}

proof fn lemma_cut_counted(b: Seq<u8>, rest: Seq<u8>)
    ensures
        b.len() <= MAX_TEXT ==> cut_counted(counted(b) + rest) == Some((b, rest)),
        cut_counted(rest) matches Some((f, r)) ==> f.len() <= MAX_TEXT && rest == counted(f) + r,
{
    if b.len() <= MAX_TEXT {
        assert((counted(b) + rest).skip(1) == b + rest);
        lemma_cut_whole(b, rest);
    }
    if cut_counted(rest) is Some {
        let (f, r) = cut_counted(rest)->0;
        assert(rest == counted(f) + r);
    }
}

proof fn lemma_cut_addr(a: Addr, rest: Seq<u8>)
    ensures
        addr_sized(a) ==> cut_addr(addr_bytes(a) + rest) == Some((a, rest)),
        cut_addr(rest) matches Some((f, r)) ==> addr_sized(f) && rest == addr_bytes(f) + r,
{
    match a {
        Addr::V4(octets) => {
            assert((addr_bytes(a) + rest).skip(1) == octets + rest);
            lemma_cut_whole(octets, rest);
        },
        Addr::V6(octets) => {
            assert((addr_bytes(a) + rest).skip(1) == octets + rest);
            lemma_cut_whole(octets, rest);
        },
    }
    if cut_addr(rest) is Some {
        let (f, r) = cut_addr(rest)->0;
        assert(rest == addr_bytes(f) + r);
    }
}

proof fn lemma_cut_addrs_whole(list: Seq<Addr>, rest: Seq<u8>)
    requires
        forall|i: int| 0 <= i < list.len() ==> addr_sized(#[trigger] list[i]),
    ensures
        cut_addrs(addrs_bytes(list) + rest, list.len()) == Some((list, rest)),
    decreases list.len(),
{
    if list.len() == 0 {
        assert(addrs_bytes(list) + rest == rest);
        assert(list == Seq::<Addr>::empty());
    } else {
        let tail = list.skip(1);
        lemma_cut_addr(list[0], addrs_bytes(tail) + rest);
        assert(addrs_bytes(list) + rest == addr_bytes(list[0]) + (addrs_bytes(tail) + rest));
        assert forall|i: int| 0 <= i < tail.len() implies addr_sized(#[trigger] tail[i]) by {
            assert(addr_sized(list[i + 1]));
        }
        lemma_cut_addrs_whole(tail, rest);
        assert(seq![list[0]] + tail == list);
    }
}

proof fn lemma_cut_addrs_sound(b: Seq<u8>, n: nat)
    ensures
        cut_addrs(b, n) matches Some((list, rest)) ==> list.len() == n && (forall|i: int|
            0 <= i < list.len() ==> addr_sized(#[trigger] list[i])) && b == addrs_bytes(list)
            + rest,
    decreases n,
{
    if n == 0 {
        assert(b == addrs_bytes(Seq::empty()) + b);
    } else if cut_addrs(b, n) is Some {
        let (list, rest) = cut_addrs(b, n)->0;
        let (a, after) = cut_addr(b)->0;
        let (tail, _) = cut_addrs(after, (n - 1) as nat)->0;
        lemma_cut_addr(a, b);
        lemma_cut_addrs_sound(after, (n - 1) as nat);
        assert(list.skip(1) == tail);
        assert(b == addrs_bytes(list) + rest);
    }
}

proof fn lemma_cut_digest(d: Option<Seq<u8>>, rest: Seq<u8>)
    ensures
        digest_sized(d) ==> cut_digest(counted(or_empty(d)) + rest) == Some((d, rest)),
        cut_digest(rest) matches Some((f, r)) ==> digest_sized(f) && rest == counted(or_empty(f))
            + r,
{
    if digest_sized(d) {
        assert((counted(or_empty(d)) + rest).skip(1) == or_empty(d) + rest);
        lemma_cut_whole(or_empty(d), rest);
        assert(Seq::<u8>::empty() + rest == rest);
    }
    if cut_digest(rest) is Some {
        let (f, r) = cut_digest(rest)->0;
        assert(rest == counted(or_empty(f)) + r);
    }
}

proof fn lemma_port(port: nat)
    requires
        port < 0x10000,
    ensures
        be_bytes(port, 2).len() == 2,
        be_value(be_bytes(port, 2)) == port,
{
    lemma_pow256();
    lemma_be_bytes_len(port, 2);
    lemma_be_value_of_bytes(port, 2);
}

proof fn lemma_port_back(b: Seq<u8>)
    requires
        b.len() == 2,
    ensures
        be_bytes(be_value(b), 2) == b,
        be_value(b) < 0x10000,
{
    lemma_pow256();
    lemma_be_bytes_of_value(b);
}

proof fn lemma_cut_key_whole(k: WireKey, rest: Seq<u8>)
    requires
        k.well_formed(),
    ensures
        cut_key(key_bytes(k) + rest) == Some((k, rest)),
{
    lemma_port(k.port);
    let b4 = counted(or_empty(k.digest)) + rest;
    let b3 = counted(k.path) + b4;
    let b2 = k.seed + b3;
    let b1 = be_bytes(k.port, 2) + b2;
    assert(key_bytes(k) + rest == counted(k.user) + b1);
    lemma_cut_counted(k.user, b1);
    lemma_cut_whole(be_bytes(k.port, 2), b2);
    lemma_cut_whole(k.seed, b3);
    lemma_cut_counted(k.path, b4);
    lemma_cut_digest(k.digest, rest);
}

proof fn lemma_regrouped(a: Seq<u8>, b: Seq<u8>, c: Seq<u8>, d: Seq<u8>, e: Seq<u8>, rest: Seq<u8>)
    ensures
        a + b + c + d + e + rest == a + (b + (c + (d + (e + rest)))),
{
    assert(a + b + c + d + e + rest == a + (b + (c + (d + (e + rest)))));
}

proof fn lemma_regrouped_more(
    a: Seq<u8>,
    b: Seq<u8>,
    c: Seq<u8>,
    d: Seq<u8>,
    e: Seq<u8>,
    f: Seq<u8>,
    g: Seq<u8>,
    h: Seq<u8>,
    rest: Seq<u8>,
)
    ensures
        a + b + c + d + e + f + g + h + rest == a + (b + (c + (d + (e + (f + (g + (h + rest))))))),
{
    lemma_regrouped(a, b, c, d, e, f);
    lemma_regrouped(a + b + c + d + e, f, g, h, rest, Seq::empty());
    let tail = f + (g + (h + rest));
    assert(a + b + c + d + e + f + g + h + rest == a + b + c + d + e + tail);
    lemma_regrouped(a, b, c, d, e, tail);
}

proof fn lemma_cut_key_sound(b: Seq<u8>)
    ensures
        cut_key(b) matches Some((k, rest)) ==> k.well_formed() && b == key_bytes(k) + rest,
{
    if cut_key(b) is Some {
        let (k, rest) = cut_key(b)->0;
        let (user, b1) = cut_counted(b)->0;
        let (port, b2) = cut(b1, 2)->0;
        let (seed, b3) = cut(b2, 32)->0;
        let (path, b4) = cut_counted(b3)->0;
        lemma_cut_counted(user, b);
        lemma_cut_counted(path, b3);
        lemma_cut_digest(k.digest, b4);
        lemma_port_back(port);
        assert(b1 == port + b2);
        assert(b2 == seed + b3);
        lemma_regrouped(
            counted(user),
            port,
            seed,
            counted(path),
            counted(or_empty(k.digest)),
            rest,
        );
        assert(b == key_bytes(k) + rest);
    }
}

proof fn lemma_cut_body_whole(w: Wire, rest: Seq<u8>)
    requires
        w.well_formed(),
    ensures
        cut_body(
            w.flags,
            w.spub,
            w.token,
            w.port,
            seq![w.addrs.len() as u8] + addrs_bytes(w.addrs) + counted(w.name) + tail_bytes(w.key)
                + rest,
        ) == Some(w),
{
    let b2 = tail_bytes(w.key) + rest;
    let b1 = counted(w.name) + b2;
    let b = seq![w.addrs.len() as u8] + addrs_bytes(w.addrs) + counted(w.name) + tail_bytes(w.key)
        + rest;
    assert(b.skip(1) == addrs_bytes(w.addrs) + b1);
    lemma_cut_addrs_whole(w.addrs, b1);
    lemma_cut_counted(w.name, b2);
    if w.key is Some {
        lemma_cut_key_whole(w.key->0, rest);
    }
}

proof fn lemma_cut_wire_whole(w: Wire, rest: Seq<u8>)
    requires
        w.well_formed(),
    ensures
        cut_wire(wire_bytes(w) + rest) == Some(w),
{
    lemma_port(w.port);
    let b4 = seq![w.addrs.len() as u8] + addrs_bytes(w.addrs) + counted(w.name) + tail_bytes(w.key)
        + rest;
    let b3 = be_bytes(w.port, 2) + b4;
    let b2 = w.token + b3;
    let b1 = w.spub + b2;
    let b = wire_bytes(w) + rest;
    lemma_regrouped_more(
        seq![VERSION, w.flags],
        w.spub,
        w.token,
        be_bytes(w.port, 2),
        seq![w.addrs.len() as u8],
        addrs_bytes(w.addrs),
        counted(w.name),
        tail_bytes(w.key),
        rest,
    );
    assert(b4 == seq![w.addrs.len() as u8] + (addrs_bytes(w.addrs) + (counted(w.name) + (tail_bytes(
        w.key,
    ) + rest))));
    assert(b == seq![VERSION, w.flags] + b1);
    assert(b.skip(2) == b1);
    lemma_cut_whole(w.spub, b2);
    lemma_cut_whole(w.token, b3);
    lemma_cut_whole(be_bytes(w.port, 2), b4);
    lemma_cut_body_whole(w, rest);
}

proof fn lemma_cut_wire_sound(b: Seq<u8>)
    ensures
        cut_wire(b) matches Some(w) ==> w.well_formed() && wire_bytes(w).is_prefix_of(b),
{
    if cut_wire(b) is Some {
        let w = cut_wire(b)->0;
        let (spub, b1) = cut(b.skip(2), 32)->0;
        let (token, b2) = cut(b1, 16)->0;
        let (port, b3) = cut(b2, 2)->0;
        let (addrs, b4) = cut_addrs(b3.skip(1), b3[0] as nat)->0;
        let (name, b5) = cut_counted(b4)->0;
        lemma_port_back(port);
        lemma_cut_addrs_sound(b3.skip(1), b3[0] as nat);
        lemma_cut_counted(name, b4);
        lemma_cut_key_sound(b5);
        let (_, after_key) = cut_key(b5)->0;
        let rest = if w.flags % 2 == 1 { after_key } else { b5 };
        assert(b5 == tail_bytes(w.key) + rest);
        assert(b3 == seq![w.addrs.len() as u8] + (addrs_bytes(addrs) + b4));
        assert(b2 == port + b3);
        assert(b1 == token + b2);
        assert(b == seq![VERSION, w.flags] + (spub + b1));
        lemma_regrouped_more(
            seq![VERSION, w.flags],
            spub,
            token,
            port,
            seq![w.addrs.len() as u8],
            addrs_bytes(addrs),
            counted(name),
            tail_bytes(w.key),
            rest,
        );
        assert(b == wire_bytes(w) + rest);
        assert(wire_bytes(w).is_prefix_of(b));
    }
}

/// Bytes read as a payload in one way at most.
pub proof fn payloads_read_one_way(bytes: Seq<u8>, v: Wire, w: Wire)
    requires
        v.well_formed(),
        w.well_formed(),
        wire_bytes(v).is_prefix_of(bytes),
        wire_bytes(w).is_prefix_of(bytes),
    ensures
        v == w,
{
    let v_rest = bytes.skip(wire_bytes(v).len() as int);
    let w_rest = bytes.skip(wire_bytes(w).len() as int);
    assert(bytes == wire_bytes(v) + v_rest);
    assert(bytes == wire_bytes(w) + w_rest);
    lemma_cut_wire_whole(v, v_rest);
    lemma_cut_wire_whole(w, w_rest);
}

proof fn lemma_decoded(bytes: Seq<u8>)
    ensures
        decoded(bytes) == (match cut_wire(bytes) {
            Some(w) => if legible(w) { Some(said_by(w)) } else { None },
            None => None,
        }),
{
    lemma_cut_wire_sound(bytes);
    if exists|w: Wire| reads_as(bytes, w) {
        let w = choose|w: Wire| reads_as(bytes, w);
        let rest = bytes.skip(wire_bytes(w).len() as int);
        assert(bytes == wire_bytes(w) + rest);
        lemma_cut_wire_whole(w, rest);
    } else if cut_wire(bytes) is Some {
        let w = cut_wire(bytes)->0;
        assert(!reads_as(bytes, w));
    }
}

/// Where the payload's bytes are read.
struct Reader<'a> {
    bytes: &'a [u8],
    index: usize,
}

impl<'a> Reader<'a> {
    spec fn within(self) -> bool {
        self.index <= self.bytes@.len()
    }

    /// What is still to be read.
    spec fn rest(self) -> Seq<u8> {
        self.bytes@.skip(self.index as int)
    }

    fn take(&mut self, count: usize) -> (r: Option<&'a [u8]>)
        requires
            old(self).within(),
        ensures
            final(self).within(),
            match cut(old(self).rest(), count as nat) {
                Some((field, rest)) => r matches Some(s) && s@ == field && final(self).rest()
                    == rest,
                None => r is None,
            },
    {
        if count > self.bytes.len() - self.index {
            return None;
        }
        let end = self.index + count;
        let slice = slice_subrange(self.bytes, self.index, end);
        assert(self.rest().take(count as int) == slice@);
        assert(self.rest().skip(count as int) == self.bytes@.skip(end as int));
        self.index = end;
        Some(slice)
    }

    fn u8(&mut self) -> (r: Option<u8>)
        requires
            old(self).within(),
        ensures
            final(self).within(),
            old(self).rest().len() == 0 ==> r is None,
            old(self).rest().len() > 0 ==> r == Some(old(self).rest()[0]) && final(self).rest()
                == old(self).rest().skip(1),
    {
        let slice = self.take(1)?;
        Some(slice[0])
    }

    fn u16(&mut self) -> (r: Option<u16>)
        requires
            old(self).within(),
        ensures
            final(self).within(),
            match cut(old(self).rest(), 2) {
                Some((field, rest)) => r matches Some(n) && n == be_value(field)
                    && final(self).rest() == rest,
                None => r is None,
            },
    {
        let slice = self.take(2)?;
        let n = u16_from(slice[0], slice[1]);
        assert(slice@ == seq![slice@[0], slice@[1]]);
        Some(n)
    }

    /// A field of `N` bytes.
    fn array<const N: usize>(&mut self) -> (r: Option<[u8; N]>)
        requires
            old(self).within(),
        ensures
            final(self).within(),
            match cut(old(self).rest(), N as nat) {
                Some((field, rest)) => r matches Some(s) && s@ == field && final(self).rest()
                    == rest,
                None => r is None,
            },
    {
        let slice = self.take(N)?;
        assert(slice@.subrange(0, N as int) == slice@);
        Some(array_at::<N>(slice, 0))
    }

    /// A field with its length in front.
    fn counted(&mut self) -> (r: Option<Vec<u8>>)
        requires
            old(self).within(),
        ensures
            final(self).within(),
            match cut_counted(old(self).rest()) {
                Some((field, rest)) => r matches Some(s) && s@ == field && final(self).rest()
                    == rest,
                None => r is None,
            },
    {
        let count = self.u8()?;
        let slice = self.take(count as usize)?;
        let field = copy_range(slice, 0, slice.len());
        assert(field@ == slice@);
        Some(field)
    }

    fn addr(&mut self) -> (r: Option<IpAddr>)
        requires
            old(self).within(),
        ensures
            final(self).within(),
            match cut_addr(old(self).rest()) {
                Some((addr, rest)) => r matches Some(a) && a@ == addr && final(self).rest() == rest,
                None => r is None,
            },
    {
        match self.u8()? {
            4 => Some(IpAddr::V4(self.array::<4>()?)),
            6 => Some(IpAddr::V6(self.array::<16>()?)),
            _ => None,
        }
    }

    fn key(&mut self) -> (r: Option<OfflineKey>)
        requires
            old(self).within(),
        ensures
            match cut_key(old(self).rest()) {
                Some((k, rest)) => if valid_utf8(k.user) && valid_utf8(k.path) {
                    r matches Some(key) && key@ == said_by_key(k)
                } else {
                    r is None
                },
                None => r is None,
            },
    {
        let user = self.counted()?;
        let ssh_user = utf8_text(user)?;
        let ssh_port = self.u16()?;
        let seed = self.array::<32>()?;
        let path = self.counted()?;
        let no_path = path.len() == 0;
        let path = utf8_text(path)?;
        let hostkey_sha256 = match self.u8()? {
            0 => None,
            32 => Some(self.array::<32>()?),
            _ => {
                return None;
            },
        };
        let authorized_keys = if no_path { None } else { Some(path) };
        Some(OfflineKey { ssh_user, ssh_port, seed, authorized_keys, hostkey_sha256 })
    }
}

/// A name's bytes, cut on a character boundary: a name cut inside a character
/// would not decode.
fn truncated_name(name: &str) -> (r: Vec<u8>)
    ensures
        r@ == cut_name(name@),
        r@.len() <= MAX_NAME,
{
    let bytes = name.as_bytes();
    let mut end: usize = if bytes.len() < MAX_NAME { bytes.len() } else { MAX_NAME };
    let ghost first = end as nat;
    while end > 0 && !name.is_char_boundary(end)
        invariant
            bytes@ == encode_utf8(name@),
            name.spec_bytes() == encode_utf8(name@),
            end <= first <= bytes@.len(),
            boundary_at_most(bytes@, first) == boundary_at_most(bytes@, end as nat),
        decreases end,
    {
        end = end - 1;
    }
    assert(bytes@.take(end as int) == bytes@.subrange(0, end as int));
    copy_range(bytes, 0, end)
}

fn push_counted(out: &mut Vec<u8>, b: &[u8])
    requires
        b@.len() <= MAX_TEXT,
    ensures
        final(out)@ == old(out)@ + counted(b@),
{
    out.push(b.len() as u8);
    push_all(out, b);
    assert(out@ == old(out)@ + counted(b@));
}

/// The text's bytes, cut to what a length byte can count.
fn text_bytes(s: &str) -> (r: Vec<u8>)
    ensures
        r@ == at_most(encode_utf8(s@), MAX_TEXT as nat),
        r@.len() <= MAX_TEXT,
{
    let bytes = s.as_bytes();
    let end: usize = if bytes.len() < MAX_TEXT { bytes.len() } else { MAX_TEXT };
    let cut = copy_range(bytes, 0, end);
    assert(cut@ == at_most(bytes@, MAX_TEXT as nat));
    cut
}

impl OfflineKey {
    fn encode(&self) -> (r: Vec<u8>)
        ensures
            r@ == key_bytes(wire_key_of(self@)),
    {
        let mut out: Vec<u8> = Vec::new();
        push_counted(&mut out, text_bytes(self.ssh_user.as_str()).as_slice());
        assert(out@ == counted(wire_key_of(self@).user));
        push_u16(&mut out, self.ssh_port);
        push_all(&mut out, &self.seed);
        match &self.authorized_keys {
            Some(path) => {
                push_counted(&mut out, text_bytes(path.as_str()).as_slice());
            },
            None => {
                out.push(0);
                assert(counted(Seq::empty()) == seq![0u8]);
            },
        }
        match &self.hostkey_sha256 {
            Some(digest) => {
                push_counted(&mut out, digest);
            },
            None => {
                out.push(0);
                assert(counted(Seq::empty()) == seq![0u8]);
            },
        }
        assert(out@ == key_bytes(wire_key_of(self@)));
        out
    }
}

fn push_addr(out: &mut Vec<u8>, addr: &IpAddr)
    ensures
        final(out)@ == old(out)@ + addr_bytes(addr@),
{
    match addr {
        IpAddr::V4(octets) => {
            out.push(4);
            push_all(out, octets);
        },
        IpAddr::V6(octets) => {
            out.push(6);
            push_all(out, octets);
        },
    }
    assert(out@ == old(out)@ + addr_bytes(addr@));
}

proof fn lemma_addrs_bytes_push(list: Seq<Addr>, a: Addr)
    ensures
        addrs_bytes(list.push(a)) == addrs_bytes(list) + addr_bytes(a),
    decreases list.len(),
{
    reveal_with_fuel(addrs_bytes, 2);
    if list.len() == 0 {
        assert(list.push(a).skip(1) == list);
        assert(addrs_bytes(list.push(a)) == addrs_bytes(list) + addr_bytes(a));
    } else {
        lemma_addrs_bytes_push(list.skip(1), a);
        assert(list.push(a).skip(1) == list.skip(1).push(a));
        assert(addrs_bytes(list.push(a)) == addrs_bytes(list) + addr_bytes(a));
    }
}

fn encode_addrs(addrs: &Vec<IpAddr>, count: usize) -> (r: Vec<u8>)
    requires
        count <= addrs@.len(),
    ensures
        r@ == addrs_bytes(addr_views(addrs@).take(count as int)),
{
    let mut out: Vec<u8> = Vec::new();
    let mut i: usize = 0;
    assert(addr_views(addrs@).take(0) == Seq::<Addr>::empty());
    while i < count
        invariant
            i <= count <= addrs@.len(),
            out@ == addrs_bytes(addr_views(addrs@).take(i as int)),
        decreases count - i,
    {
        push_addr(&mut out, &addrs[i]);
        proof {
            let done = addr_views(addrs@).take(i as int);
            lemma_addrs_bytes_push(done, addrs@[i as int]@);
            assert(addr_views(addrs@).take(i + 1) == done.push(addrs@[i as int]@));
        }
        i = i + 1;
    }
    out
}

proof fn lemma_boundary_at_most(bytes: Seq<u8>, n: nat)
    ensures
        boundary_at_most(bytes, n) <= n,
        valid_utf8(bytes) ==> is_char_boundary(bytes, boundary_at_most(bytes, n) as int),
    decreases n,
{
    if n > 0 && !is_char_boundary(bytes, n as int) {
        lemma_boundary_at_most(bytes, (n - 1) as nat);
    }
}

/// A name is cut between two characters: what is written is the UTF-8 form of
/// the front part of the name, at most `MAX_NAME` bytes long, and it is the
/// whole name if that fits.
pub proof fn names_are_cut_between_characters(name: Seq<char>)
    ensures
        cut_name(name).len() <= MAX_NAME,
        valid_utf8(cut_name(name)),
        decode_utf8(cut_name(name)).is_prefix_of(name),
        encode_utf8(name).len() <= MAX_NAME ==> cut_name(name) == encode_utf8(name) && decode_utf8(
            cut_name(name),
        ) == name,
{
    let bytes = encode_utf8(name);
    let n = if bytes.len() < MAX_NAME { bytes.len() } else { MAX_NAME as nat };
    let end = boundary_at_most(bytes, n) as int;
    encode_utf8_valid_utf8(name);
    encode_utf8_decode_utf8(name);
    lemma_boundary_at_most(bytes, n);
    assert(bytes.take(end) == bytes.subrange(0, end));
    valid_utf8_split(bytes, end);
    decode_utf8_split(bytes, end);
    is_char_boundary_start_end_of_seq(bytes);
    assert(bytes.take(bytes.len() as int) == bytes);
}

proof fn lemma_addrs_len(list: Seq<Addr>)
    requires
        forall|i: int| 0 <= i < list.len() ==> addr_sized(#[trigger] list[i]),
    ensures
        addrs_bytes(list).len() <= 17 * list.len(),
    decreases list.len(),
{
    if list.len() > 0 {
        let tail = list.skip(1);
        assert forall|i: int| 0 <= i < tail.len() implies addr_sized(#[trigger] tail[i]) by {
            assert(addr_sized(list[i + 1]));
        }
        assert(addr_sized(list[0]));
        lemma_addrs_len(tail);
    }
}

proof fn lemma_wire_of(p: PayloadState)
    requires
        sized(p),
    ensures
        wire_of(p).well_formed(),
        wire_bytes(wire_of(p)).len() <= 1000,
{
    let w = wire_of(p);
    names_are_cut_between_characters(p.name);
    assert forall|i: int| 0 <= i < w.addrs.len() implies addr_sized(#[trigger] w.addrs[i]) by {
        assert(addr_sized(p.addrs[i]));
    }
    lemma_addrs_len(w.addrs);
    lemma_port(w.port);
    if w.key is Some {
        lemma_port(w.key->0.port);
    }
}

impl Payload {
    proof fn lemma_sized(&self)
        ensures
            sized(self@),
    {
        assert forall|i: int| 0 <= i < self@.addrs.len() implies addr_sized(
            #[trigger] self@.addrs[i],
        ) by {
            assert(self@.addrs[i] == self.addrs@[i]@);
        }
    }

    /// The payload's bytes.
    pub fn encode(&self) -> (r: Vec<u8>)
        ensures
            r@ == wire_bytes(wire_of(self@)),
            r@.len() <= 1000,
    {
        let ghost w = wire_of(self@);
        proof {
            self.lemma_sized();
            lemma_wire_of(self@);
        }
        let mut out: Vec<u8> = Vec::new();
        out.push(VERSION);
        out.push(if self.offline.is_some() { 1 } else { 0 });
        assert(out@ == seq![VERSION, w.flags]);
        push_all(&mut out, &self.spub);
        push_all(&mut out, &self.token);
        push_u16(&mut out, self.port);
        let count: usize = if self.addrs.len() < MAX_ADDRS { self.addrs.len() } else { MAX_ADDRS };
        assert(self@.addrs.take(count as int) == w.addrs);
        let ghost head = out@;
        out.push(count as u8);
        assert(out@ == head + seq![w.addrs.len() as u8]);
        push_all(&mut out, encode_addrs(&self.addrs, count).as_slice());
        push_counted(&mut out, truncated_name(self.name.as_str()).as_slice());
        let ghost body = out@;
        match &self.offline {
            Some(key) => {
                push_all(&mut out, key.encode().as_slice());
            },
            None => {
                assert(body + tail_bytes(w.key) == body);
            },
        }
        assert(out@ == body + tail_bytes(w.key));
        out
    }

    /// The payload as a URL.
    pub fn to_url(&self) -> (r: String)
        ensures
            r@ == url_of(self@),
    {
        cat(URL_PREFIX, b64url(self.encode().as_slice()).as_str())
    }

    /// Reads a payload off the front of `bytes`.
    pub fn decode(bytes: &[u8]) -> (r: Option<Self>)
        ensures
            match r {
                Some(p) => decoded(bytes@) == Some(p@),
                None => decoded(bytes@) is None,
            },
    {
        proof {
            lemma_decoded(bytes@);
        }
        let mut reader = Reader { bytes, index: 0 };
        assert(reader.rest() == bytes@);
        if reader.u8()? != VERSION {
            return None;
        }
        let flags = reader.u8()?;
        assert(bytes@.skip(1).skip(1) == bytes@.skip(2));
        let spub = reader.array::<32>()?;
        let token = reader.array::<16>()?;
        let port = reader.u16()?;
        let count = reader.u8()? as usize;
        if count > MAX_ADDRS {
            return None;
        }
        let ghost listed = reader.rest();
        let mut addrs: Vec<IpAddr> = Vec::new();
        let mut i: usize = 0;
        assert(addr_views(addrs@) == Seq::<Addr>::empty());
        assert(forall|l: Seq<Addr>| Seq::<Addr>::empty() + l == l);
        while i < count
            invariant
                reader.within(),
                i <= count,
                decoded(bytes@) == (match cut_wire(bytes@) {
                    Some(w) => if legible(w) { Some(said_by(w)) } else { None },
                    None => None,
                }),
                cut_addrs(listed, count as nat) is None ==> cut_wire(bytes@) is None,
                cut_addrs(listed, count as nat) == (match cut_addrs(
                    reader.rest(),
                    (count - i) as nat,
                ) {
                    Some((list, rest)) => Some((addr_views(addrs@) + list, rest)),
                    None => None,
                }),
            decreases count - i,
        {
            let ghost before = addr_views(addrs@);
            let addr = reader.addr()?;
            addrs.push(addr);
            proof {
                assert(addr_views(addrs@) == before.push(addr@));
                if cut_addrs(reader.rest(), (count - i - 1) as nat) is Some {
                    let (list, rest) = cut_addrs(reader.rest(), (count - i - 1) as nat)->0;
                    assert(before + (seq![addr@] + list) == before.push(addr@) + list);
                }
            }
            i = i + 1;
        }
        assert(addr_views(addrs@) + Seq::<Addr>::empty() == addr_views(addrs@));
        let name = utf8_text(reader.counted()?)?;
        let offline = if flags % 2 == 1 { Some(reader.key()?) } else { None };
        Some(Payload { addrs, port, spub, token, name, offline })
    }

    /// Reads a payload from its URL.
    pub fn from_url(url: &str) -> (r: Option<Self>)
        ensures
            match r {
                Some(p) => url_decoded(url@) == Some(p@),
                None => url_decoded(url@) is None,
            },
    {
        if !begins_with(url, URL_PREFIX) {
            return None;
        }
        let chars = chars_of(url);
        let skipped = chars_of(URL_PREFIX).len();
        let data = text_of(&chars, skipped, chars.len());
        assert(data@ == url@.skip(URL_PREFIX@.len() as int));
        let bytes = b64url_decode(data.as_str())?;
        proof {
            let chosen = choose|b: Seq<u8>| data@ == #[trigger] b64url_of(b);
            b64url_is_injective(chosen, bytes@);
        }
        Self::decode(bytes.as_slice())
    }
}

/// What a payload says once it is written and read again: the first
/// `MAX_ADDRS` addresses, the name cut between two characters, a user name and
/// a path cut to what their length bytes can count, and an empty path taken for
/// none.
pub open spec fn kept(p: PayloadState) -> PayloadState {
    said_by(wire_of(p))
}

/// Whether a payload keeps within the format's limits.
pub open spec fn within_limits(p: PayloadState) -> bool {
    &&& p.addrs.len() <= MAX_ADDRS
    &&& encode_utf8(p.name).len() <= MAX_NAME
    &&& p.offline matches Some(k) ==> encode_utf8(k.ssh_user).len() <= MAX_TEXT && (
    k.authorized_keys matches Some(path) ==> 0 < path.len() && encode_utf8(path).len() <= MAX_TEXT)
}

/// A payload that was written reads as what the format keeps of it, whatever
/// follows; it does not read at all if a user name or path was cut inside a
/// character.
pub proof fn written_payloads_are_read_back(p: PayloadState, rest: Seq<u8>)
    requires
        sized(p),
    ensures
        decoded(wire_bytes(wire_of(p)) + rest) == (if legible(wire_of(p)) {
            Some(kept(p))
        } else {
            None
        }),
{
    lemma_wire_of(p);
    lemma_cut_wire_whole(wire_of(p), rest);
    lemma_decoded(wire_bytes(wire_of(p)) + rest);
}

/// A payload within the format's limits is read back as it was, from its bytes
/// and from its URL.
pub proof fn payloads_within_limits_are_kept(p: PayloadState)
    requires
        sized(p),
        within_limits(p),
    ensures
        kept(p) == p,
        legible(wire_of(p)),
        decoded(wire_bytes(wire_of(p))) == Some(p),
        url_decoded(url_of(p)) == Some(p),
{
    urls_are_read_back(p);
    names_are_cut_between_characters(p.name);
    if p.offline is Some {
        let k = p.offline->0;
        encode_utf8_valid_utf8(k.ssh_user);
        encode_utf8_decode_utf8(k.ssh_user);
        assert(valid_utf8(Seq::<u8>::empty()));
        if k.authorized_keys is Some {
            let path = k.authorized_keys->0;
            encode_utf8_valid_utf8(path);
            encode_utf8_decode_utf8(path);
            assert(encode_utf8(path).len() > 0) by {
                if encode_utf8(path).len() == 0 {
                    assert(decode_utf8(encode_utf8(path)).len() == 0);
                }
            }
        }
        assert(said_by_key(wire_key_of(k)) == k);
    }
    assert(kept(p) == p);
    written_payloads_are_read_back(p, Seq::empty());
    assert(wire_bytes(wire_of(p)) + Seq::<u8>::empty() == wire_bytes(wire_of(p)));
}

/// A payload's URL says what its bytes say.
pub proof fn urls_are_read_back(p: PayloadState)
    ensures
        url_decoded(url_of(p)) == decoded(wire_bytes(wire_of(p))),
{
    let url = url_of(p);
    let data = wire_bytes(wire_of(p));
    assert(url.skip(URL_PREFIX@.len() as int) == b64url_of(data));
    assert(URL_PREFIX@.is_prefix_of(url));
    let chosen = choose|d: Seq<u8>| url.skip(URL_PREFIX@.len() as int) == #[trigger] b64url_of(d);
    b64url_is_injective(chosen, data);
}

/// A payload that lost bytes at its end does not read.
pub proof fn cut_payloads_do_not_read(p: PayloadState, n: int)
    requires
        sized(p),
        0 <= n < wire_bytes(wire_of(p)).len(),
    ensures
        decoded(wire_bytes(wire_of(p)).take(n)) is None,
{
    let whole = wire_bytes(wire_of(p));
    lemma_wire_of(p);
    if exists|w: Wire| reads_as(whole.take(n), w) {
        let w = choose|w: Wire| reads_as(whole.take(n), w);
        assert(wire_bytes(w).is_prefix_of(whole));
        assert(whole.is_prefix_of(whole));
        payloads_read_one_way(whole, w, wire_of(p));
    }
}

/// Bytes of another version do not read.
pub proof fn other_versions_do_not_read(bytes: Seq<u8>)
    requires
        bytes.len() > 0,
        bytes[0] != VERSION,
    ensures
        decoded(bytes) is None,
{
    lemma_decoded(bytes);
}

/// A payload that was written says no more than it did: its first `MAX_ADDRS`
/// addresses and the front part of its name, which takes at most `MAX_NAME`
/// bytes.
pub proof fn kept_payloads_are_capped(p: PayloadState)
    ensures
        kept(p).addrs.len() <= MAX_ADDRS,
        kept(p).addrs.is_prefix_of(p.addrs),
        encode_utf8(kept(p).name).len() <= MAX_NAME,
        kept(p).name.is_prefix_of(p.name),
        kept(p).port == p.port,
        kept(p).spub == p.spub,
        kept(p).token == p.token,
{
    names_are_cut_between_characters(p.name);
    decode_utf8_encode_utf8(cut_name(p.name));
}

/// A handshake payload with one IPv4 address takes 59 bytes and the name's; its
/// URL takes four characters for three of them.
pub proof fn handshake_payloads_stay_small(p: PayloadState)
    requires
        sized(p),
        p.offline is None,
        p.addrs.len() == 1,
        p.addrs[0] is V4,
    ensures
        wire_bytes(wire_of(p)).len() == 59 + cut_name(p.name).len(),
        wire_bytes(wire_of(p)).len() <= 91,
        url_of(p).len() == 14 + (4 * wire_bytes(wire_of(p)).len() + 2) / 3,
{
    reveal_strlit("multiplex://b/");
    b64url_length(wire_bytes(wire_of(p)));
    reveal_with_fuel(addrs_bytes, 2);
    names_are_cut_between_characters(p.name);
    lemma_port(p.port);
    assert(addr_sized(p.addrs[0]));
    assert(p.addrs.skip(1).len() == 0);
}

/// Whether `piece` stands at `at` in `b`.
pub open spec fn stands(b: Seq<u8>, at: int, piece: Seq<u8>) -> bool {
    0 <= at && at + piece.len() <= b.len() && b.subrange(at, at + piece.len()) == piece
}

/// Where the address numbered `i` starts behind the first one.
pub open spec fn addr_offset(addrs: Seq<Addr>, i: int) -> int
    decreases i,
{
    if i <= 0 {
        0
    } else {
        addr_offset(addrs, i - 1) + (if addrs[i - 1] is V4 { 5int } else { 17int })
    }
}

/// Whether an address stands at `at`: a byte 4 and four octets, or a byte 6 and
/// sixteen.
pub open spec fn addr_stands(b: Seq<u8>, at: int, addr: Addr) -> bool {
    match addr {
        Addr::V4(octets) => octets.len() == 4 && stands(b, at, seq![4u8]) && stands(
            b,
            at + 1,
            octets,
        ),
        Addr::V6(octets) => octets.len() == 16 && stands(b, at, seq![6u8]) && stands(
            b,
            at + 1,
            octets,
        ),
    }
}

/// Whether bytes stand at `at` with their number in front.
pub open spec fn counted_stands(b: Seq<u8>, at: int, bytes: Seq<u8>) -> bool {
    bytes.len() <= 255 && stands(b, at, seq![bytes.len() as u8]) && stands(b, at + 1, bytes)
}

/// Whether the tail of an offline payload stands at `at`: user, port, seed, path
/// and digest, an absent path or digest as a zero byte.
pub open spec fn key_laid_out(b: Seq<u8>, at: int, k: KeyState) -> bool {
    let user = encode_utf8(k.ssh_user);
    let path = match k.authorized_keys {
        Some(path) => encode_utf8(path),
        None => Seq::empty(),
    };
    let port_at = at + 1 + user.len();
    let path_at = port_at + 2 + 32;
    let digest_at = path_at + 1 + path.len();
    &&& counted_stands(b, at, user)
    &&& k.ssh_port < 65536
    &&& stands(b, port_at, seq![(k.ssh_port / 256) as u8, (k.ssh_port % 256) as u8])
    &&& k.seed.len() == 32
    &&& stands(b, port_at + 2, k.seed)
    &&& k.authorized_keys is Some ==> path.len() > 0
    &&& counted_stands(b, path_at, path)
    &&& match k.hostkey_sha256 {
        Some(digest) => digest.len() == 32 && counted_stands(b, digest_at, digest),
        None => stands(b, digest_at, seq![0u8]),
    }
}

/// Whether bytes begin with this payload, field by field: version, flags, session
/// key, token, port, the number of addresses, the addresses, the name, and an
/// offline payload's tail if the lowest flag is set.
pub open spec fn laid_out(b: Seq<u8>, p: PayloadState) -> bool {
    let n = p.addrs.len() as int;
    let name_at = 53 + addr_offset(p.addrs, n);
    &&& b.len() > 1 && b[0] == 2
    &&& b[1] % 2 == (if p.offline is Some { 1int } else { 0int })
    &&& p.spub.len() == 32 && stands(b, 2, p.spub)
    &&& p.token.len() == 16 && stands(b, 34, p.token)
    &&& p.port < 65536 && stands(b, 50, seq![(p.port / 256) as u8, (p.port % 256) as u8])
    &&& n <= 3 && stands(b, 52, seq![n as u8])
    &&& forall|i: int|
        0 <= i < n ==> addr_stands(b, 53 + addr_offset(p.addrs, i), #[trigger] p.addrs[i])
    &&& counted_stands(b, name_at, encode_utf8(p.name))
    &&& p.offline matches Some(k) ==> key_laid_out(
        b,
        name_at + 1 + encode_utf8(p.name).len(),
        k,
    )
}

proof fn lemma_stands_concat(b: Seq<u8>, at: int, x: Seq<u8>, y: Seq<u8>)
    ensures
        stands(b, at, x + y) <==> stands(b, at, x) && stands(b, at + x.len(), y),
{
    if stands(b, at, x + y) {
        assert(b.subrange(at, at + x.len()) =~= x) by {
            assert forall|i: int| 0 <= i < x.len() implies b[at + i] == x[i] by {
                assert(b.subrange(at, at + x.len() + y.len())[i] == (x + y)[i]);
            }
        }
        assert(b.subrange(at + x.len(), at + x.len() + y.len()) =~= y) by {
            assert forall|i: int| 0 <= i < y.len() implies b[at + x.len() + i] == y[i] by {
                assert(b.subrange(at, at + x.len() + y.len())[x.len() + i] == (x + y)[x.len() + i]);
            }
        }
    }
    if stands(b, at, x) && stands(b, at + x.len(), y) {
        assert(b.subrange(at, at + x.len() + y.len()) =~= x + y) by {
            assert forall|i: int| 0 <= i < x.len() + y.len() implies b[at + i] == (x + y)[i] by {
                if i < x.len() {
                    assert(b.subrange(at, at + x.len())[i] == x[i]);
                } else {
                    assert(b.subrange(at + x.len(), at + x.len() + y.len())[i - x.len()] == y[i
                        - x.len()]);
                }
            }
        }
    }
}

proof fn lemma_counted_stands(b: Seq<u8>, at: int, bytes: Seq<u8>)
    requires
        bytes.len() <= 255,
    ensures
        stands(b, at, counted(bytes)) <==> counted_stands(b, at, bytes),
{
    lemma_stands_concat(b, at, seq![bytes.len() as u8], bytes);
}

proof fn lemma_addr_stands(b: Seq<u8>, at: int, addr: Addr)
    requires
        addr_sized(addr),
    ensures
        stands(b, at, addr_bytes(addr)) <==> addr_stands(b, at, addr),
        addr_bytes(addr).len() == (if addr is V4 { 5int } else { 17int }),
{
    match addr {
        Addr::V4(octets) => {
            lemma_stands_concat(b, at, seq![4u8], octets);
        },
        Addr::V6(octets) => {
            lemma_stands_concat(b, at, seq![6u8], octets);
        },
    }
}

proof fn lemma_offset_of_front(addrs: Seq<Addr>, i: int)
    requires
        0 <= i <= addrs.len(),
    ensures
        addr_offset(addrs.take(i), i) == addr_offset(addrs, i),
        addr_offset(addrs, i) >= 0,
    decreases i,
{
    if i > 0 {
        lemma_offset_of_front(addrs, i - 1);
        lemma_offset_of_front(addrs.take(i), i - 1);
        assert(addrs.take(i).take(i - 1) =~= addrs.take(i - 1));
        assert(addrs.take(i)[i - 1] == addrs[i - 1]);
    }
}

proof fn lemma_addrs_stand(b: Seq<u8>, at: int, addrs: Seq<Addr>)
    requires
        at >= 0,
        at <= b.len(),
        forall|i: int| 0 <= i < addrs.len() ==> addr_sized(#[trigger] addrs[i]),
    ensures
        addrs_bytes(addrs).len() == addr_offset(addrs, addrs.len() as int),
        stands(b, at, addrs_bytes(addrs)) <==> forall|i: int|
            0 <= i < addrs.len() ==> addr_stands(b, at + addr_offset(addrs, i), #[trigger] addrs[i]),
    decreases addrs.len(),
{
    if addrs.len() == 0 {
        assert(b.subrange(at, at) =~= addrs_bytes(addrs));
    } else {
        let before = addrs.drop_last();
        let last = addrs.last();
        let n = addrs.len() as int;
        assert(addrs[n - 1] == last);
        assert forall|i: int| 0 <= i < before.len() implies addr_sized(#[trigger] before[i]) by {
            assert(addr_sized(addrs[i]));
        }
        lemma_addrs_stand(b, at, before);
        lemma_addrs_bytes_push(before, last);
        assert(before.push(last) =~= addrs);
        assert forall|i: int| 0 <= i < n implies addr_offset(before, i) == #[trigger] addr_offset(
            addrs,
            i,
        ) by {
            lemma_offset_of_front(addrs, i);
            lemma_offset_of_front(before, i);
            assert(before.take(i) =~= addrs.take(i));
        }
        assert(addr_offset(before, n - 1) == addr_offset(addrs, n - 1));
        let from = at + addr_offset(addrs, n - 1);
        lemma_addr_stands(b, from, last);
        lemma_stands_concat(b, at, addrs_bytes(before), addr_bytes(last));
        if stands(b, at, addrs_bytes(addrs)) {
            assert forall|i: int| 0 <= i < n implies addr_stands(
                b,
                at + addr_offset(addrs, i),
                #[trigger] addrs[i],
            ) by {
                assert(addr_offset(before, i) == addr_offset(addrs, i));
                if i < n - 1 {
                    assert(before[i] == addrs[i]);
                }
            }
        }
        if forall|i: int|
            0 <= i < addrs.len() ==> addr_stands(b, at + addr_offset(addrs, i), #[trigger] addrs[i]) {
            assert(addr_stands(b, at + addr_offset(addrs, n - 1), addrs[n - 1]));
            assert forall|i: int| 0 <= i < before.len() implies addr_stands(
                b,
                at + addr_offset(before, i),
                #[trigger] before[i],
            ) by {
                assert(addr_offset(before, i) == addr_offset(addrs, i));
                assert(addr_stands(b, at + addr_offset(addrs, i), addrs[i]));
            }
        }
    }
}

proof fn lemma_port_bytes(port: nat)
    requires
        port < 65536,
    ensures
        be_bytes(port, 2) == seq![(port / 256) as u8, (port % 256) as u8],
{
    reveal_with_fuel(be_bytes, 3);
    assert(port / 256 < 256);
    assert((port / 256) % 256 == port / 256);
    assert(be_bytes(port, 2) =~= seq![(port / 256) as u8, (port % 256) as u8]);
}

spec fn wire_key_stands(b: Seq<u8>, at: int, k: WireKey) -> bool {
    let port_at = at + 1 + k.user.len();
    let path_at = port_at + 34;
    let digest_at = path_at + 1 + k.path.len();
    &&& counted_stands(b, at, k.user)
    &&& stands(b, port_at, be_bytes(k.port, 2))
    &&& stands(b, port_at + 2, k.seed)
    &&& counted_stands(b, path_at, k.path)
    &&& counted_stands(b, digest_at, or_empty(k.digest))
}

proof fn lemma_key_stands(b: Seq<u8>, at: int, k: WireKey)
    requires
        k.well_formed(),
    ensures
        stands(b, at, key_bytes(k)) <==> wire_key_stands(b, at, k),
{
    lemma_port(k.port);
    let one = counted(k.user);
    let two = one + be_bytes(k.port, 2);
    let three = two + k.seed;
    let four = three + counted(k.path);
    let digest = counted(or_empty(k.digest));
    lemma_stands_concat(b, at, four, digest);
    lemma_stands_concat(b, at, three, counted(k.path));
    lemma_stands_concat(b, at, two, k.seed);
    lemma_stands_concat(b, at, one, be_bytes(k.port, 2));
    lemma_counted_stands(b, at, k.user);
    lemma_counted_stands(b, at + three.len(), k.path);
    lemma_counted_stands(b, at + four.len(), or_empty(k.digest));
}

spec fn wire_stands(b: Seq<u8>, w: Wire) -> bool {
    let name_at = 53 + addrs_bytes(w.addrs).len() as int;
    &&& stands(b, 0, seq![VERSION, w.flags])
    &&& stands(b, 2, w.spub)
    &&& stands(b, 34, w.token)
    &&& stands(b, 50, be_bytes(w.port, 2))
    &&& stands(b, 52, seq![w.addrs.len() as u8])
    &&& stands(b, 53, addrs_bytes(w.addrs))
    &&& counted_stands(b, name_at, w.name)
    &&& stands(b, name_at + 1 + w.name.len(), tail_bytes(w.key))
}

proof fn lemma_wire_stands(b: Seq<u8>, w: Wire)
    requires
        w.well_formed(),
    ensures
        wire_bytes(w).is_prefix_of(b) <==> wire_stands(b, w),
{
    lemma_port(w.port);
    let p1 = seq![VERSION, w.flags];
    let p2 = p1 + w.spub;
    let p3 = p2 + w.token;
    let p4 = p3 + be_bytes(w.port, 2);
    let p5 = p4 + seq![w.addrs.len() as u8];
    let p6 = p5 + addrs_bytes(w.addrs);
    let p7 = p6 + counted(w.name);
    lemma_stands_concat(b, 0, p7, tail_bytes(w.key));
    lemma_stands_concat(b, 0, p6, counted(w.name));
    lemma_stands_concat(b, 0, p5, addrs_bytes(w.addrs));
    lemma_stands_concat(b, 0, p4, seq![w.addrs.len() as u8]);
    lemma_stands_concat(b, 0, p3, be_bytes(w.port, 2));
    lemma_stands_concat(b, 0, p2, w.token);
    lemma_stands_concat(b, 0, p1, w.spub);
    lemma_counted_stands(b, p6.len() as int, w.name);
    assert(wire_bytes(w).is_prefix_of(b) <==> stands(b, 0, wire_bytes(w))) by {
        if wire_bytes(w).is_prefix_of(b) {
            assert(b.subrange(0, wire_bytes(w).len() as int) =~= wire_bytes(w));
        }
        if stands(b, 0, wire_bytes(w)) {
            assert(wire_bytes(w) =~= b.subrange(0, wire_bytes(w).len() as int));
            assert(wire_bytes(w).is_prefix_of(b));
        }
    }
}

/// Bytes read as a payload exactly if it is laid out at their front.
pub proof fn payloads_read_as_they_are_laid_out(b: Seq<u8>, p: PayloadState)
    ensures
        decoded(b) == Some(p) <==> laid_out(b, p),
{
    if laid_out(b, p) {
        lemma_laid_out_reads(b, p);
    }
    if decoded(b) == Some(p) {
        lemma_reads_laid_out(b, p);
    }
}

spec fn wire_saying(flags: u8, p: PayloadState) -> Wire {
    Wire {
        flags,
        spub: p.spub,
        token: p.token,
        port: p.port,
        addrs: p.addrs,
        name: encode_utf8(p.name),
        key: match p.offline {
            Some(k) => Some(
                WireKey {
                    user: encode_utf8(k.ssh_user),
                    port: k.ssh_port,
                    seed: k.seed,
                    path: match k.authorized_keys {
                        Some(path) => encode_utf8(path),
                        None => Seq::empty(),
                    },
                    digest: k.hostkey_sha256,
                },
            ),
            None => None,
        },
    }
}

proof fn lemma_laid_out_reads(b: Seq<u8>, p: PayloadState)
    requires
        laid_out(b, p),
    ensures
        decoded(b) == Some(p),
{
    let w = wire_saying(b[1], p);
    let n = p.addrs.len() as int;
    encode_utf8_valid_utf8(p.name);
    encode_utf8_decode_utf8(p.name);
    assert(valid_utf8(Seq::<u8>::empty()));
    if let Some(k) = p.offline {
        encode_utf8_valid_utf8(k.ssh_user);
        encode_utf8_decode_utf8(k.ssh_user);
        if let Some(path) = k.authorized_keys {
            encode_utf8_valid_utf8(path);
            encode_utf8_decode_utf8(path);
        }
        assert(said_by_key(w.key->0) == k);
    }
    assert forall|i: int| 0 <= i < n implies addr_sized(#[trigger] w.addrs[i]) by {
        assert(addr_stands(b, 53 + addr_offset(p.addrs, i), p.addrs[i]));
    }
    assert(w.well_formed());
    assert(legible(w));
    assert(said_by(w) == p);
    assert(stands(b, 0, seq![VERSION, w.flags])) by {
        assert(b.subrange(0, 2) =~= seq![VERSION, w.flags]);
    }
    lemma_port_bytes(p.port);
    assert(b.len() >= 53);
    lemma_addrs_stand(b, 53, w.addrs);
    let tail_at = 53 + addr_offset(p.addrs, n) + 1 + w.name.len();
    if let Some(k) = p.offline {
        lemma_port_bytes(k.ssh_port);
        lemma_key_stands(b, tail_at, w.key->0);
        if k.hostkey_sha256 is None {
            let at = tail_at + 1 + w.key->0.user.len() + 34 + 1 + w.key->0.path.len();
            assert(b.subrange(at + 1, at + 1) =~= Seq::<u8>::empty());
        }
    } else {
        assert(b.subrange(tail_at, tail_at) =~= tail_bytes(w.key));
    }
    lemma_wire_stands(b, w);
    let rest = b.skip(wire_bytes(w).len() as int);
    assert(b =~= wire_bytes(w) + rest);
    lemma_cut_wire_whole(w, rest);
    lemma_decoded(b);
}

proof fn lemma_reads_laid_out(b: Seq<u8>, p: PayloadState)
    requires
        decoded(b) == Some(p),
    ensures
        laid_out(b, p),
{
    let w = choose|w: Wire| reads_as(b, w);
    lemma_wire_stands(b, w);
    lemma_port_bytes(w.port);
    let n = w.addrs.len() as int;
    assert(b[0] == VERSION && b[1] == w.flags) by {
        assert(b.subrange(0, 2)[0] == VERSION);
        assert(b.subrange(0, 2)[1] == w.flags);
    }
    decode_utf8_encode_utf8(w.name);
    lemma_addrs_stand(b, 53, w.addrs);
    if let Some(k) = w.key {
        lemma_port_bytes(k.port);
        decode_utf8_encode_utf8(k.user);
        decode_utf8_encode_utf8(k.path);
        lemma_key_stands(b, 53 + addr_offset(w.addrs, n) + 1 + w.name.len(), k);
    }
}

proof fn lemma_boundary_after(a: Seq<char>, b: Seq<char>)
    ensures
        is_char_boundary(encode_utf8(a + b), encode_utf8(a).len() as int),
    decreases a.len(),
{
    let bytes = encode_utf8(a + b);
    encode_utf8_valid_utf8(a + b);
    if a.len() > 0 {
        assert((a + b).drop_first() =~= a.drop_first() + b);
        assert((a + b)[0] == a[0]);
        lemma_boundary_after(a.drop_first(), b);
        encode_utf8_first_scalar(a + b);
        encode_utf8_first_scalar(a);
        lemma_weight_concat(a, b);
        let first = length_of_first_scalar(bytes);
        assert(pop_first_scalar(bytes) =~= encode_utf8(a.drop_first() + b));
        assert(encode_utf8(a).len() == first + encode_utf8(a.drop_first()).len());
    }
}

proof fn lemma_boundary_greatest(bytes: Seq<u8>, n: nat, m: nat)
    requires
        m <= n,
        is_char_boundary(bytes, m as int),
    ensures
        m <= boundary_at_most(bytes, n),
    decreases n,
{
    if n > 0 && !is_char_boundary(bytes, n as int) {
        lemma_boundary_greatest(bytes, (n - 1) as nat, m);
    }
}

/// What is kept of a payload, exactly: its first three addresses; as many
/// characters of its name as fit 32 bytes; the first 255 bytes of user and
/// path, where those are text; and everything else as it is.
pub proof fn what_is_kept_of_a_payload(p: PayloadState)
    ensures
        kept(p).addrs == p.addrs.take(if p.addrs.len() < 3 { p.addrs.len() as int } else { 3 }),
        kept(p).port == p.port,
        kept(p).spub == p.spub,
        kept(p).token == p.token,
        kept(p).name.is_prefix_of(p.name),
        encode_utf8(kept(p).name).len() <= 32,
        kept(p).name.len() < p.name.len() ==> encode_utf8(
            p.name.take(kept(p).name.len() as int + 1),
        ).len() > 32,
        kept(p).offline is Some <==> p.offline is Some,
        (p.offline is Some && legible(wire_of(p))) ==> {
            let k = p.offline->0;
            let now = kept(p).offline->0;
            let user = encode_utf8(k.ssh_user);
            &&& encode_utf8(now.ssh_user) == user.take(
                if user.len() < 255 { user.len() as int } else { 255 },
            )
            &&& now.ssh_port == k.ssh_port
            &&& now.seed == k.seed
            &&& now.hostkey_sha256 == k.hostkey_sha256
            &&& k.authorized_keys is None ==> now.authorized_keys is None
            &&& (k.authorized_keys matches Some(path) && path.len() == 0) ==> now.authorized_keys
                is None
            &&& (k.authorized_keys matches Some(path) && path.len() > 0) ==> {
                let path = encode_utf8(k.authorized_keys->0);
                now.authorized_keys is Some && encode_utf8(now.authorized_keys->0) == path.take(
                    if path.len() < 255 { path.len() as int } else { 255 },
                )
            }
        },
{
    names_are_cut_between_characters(p.name);
    let bytes = encode_utf8(p.name);
    let cut = cut_name(p.name);
    let name = kept(p).name;
    decode_utf8_encode_utf8(cut);
    assert(p.addrs.take(p.addrs.len() as int) =~= p.addrs);
    if name.len() < p.name.len() {
        let k = name.len() as int + 1;
        let longer = p.name.take(k);
        let rest = p.name.skip(k);
        assert(longer + rest =~= p.name);
        lemma_boundary_after(longer, rest);
        lemma_weight_concat(longer, rest);
        let next = p.name.subrange(k - 1, k);
        assert(name =~= p.name.take(k - 1));
        assert(longer =~= name + next);
        lemma_weight_concat(name, next);
        lemma_weight_bound(next);
        let m = encode_utf8(longer).len();
        if m <= 32 {
            let n = if bytes.len() < 32 { bytes.len() } else { 32 };
            lemma_boundary_greatest(bytes, n, m);
            lemma_boundary_at_most(bytes, n);
            assert(cut.len() == boundary_at_most(bytes, n));
        }
    }
    if p.offline is Some && legible(wire_of(p)) {
        let k = p.offline->0;
        let w = wire_key_of(k);
        let user = encode_utf8(k.ssh_user);
        decode_utf8_encode_utf8(w.user);
        assert(user.take(user.len() as int) =~= user);
        if let Some(path) = k.authorized_keys {
            let whole = encode_utf8(path);
            lemma_weight_bound(path);
            decode_utf8_encode_utf8(w.path);
            assert(whole.take(whole.len() as int) =~= whole);
        }
    }
}

/// The first 255 bytes of a text.
pub open spec fn first_bytes(s: Seq<char>) -> Seq<u8> {
    let bytes = encode_utf8(s);
    bytes.take(if bytes.len() < 255 { bytes.len() as int } else { 255 })
}

/// What is written of any payload is what is kept of it, laid out, and nothing
/// behind it; an offline one is left out here only if 255 bytes of its user or
/// path end inside a character.
pub proof fn payloads_are_written_as_they_are_laid_out(p: Payload)
    requires
        p.offline matches Some(k) ==> {
            &&& valid_utf8(first_bytes(k.ssh_user@))
            &&& k.authorized_keys matches Some(path) ==> valid_utf8(first_bytes(path@))
        },
    ensures
        ({
            let b = wire_bytes(wire_of(p@));
            let q = kept(p@);
            let end = 54 + addr_offset(q.addrs, q.addrs.len() as int) + encode_utf8(q.name).len();
            &&& laid_out(b, q)
            &&& p.offline is None ==> b[1] == 0 && b.len() == end
            &&& p.offline is Some ==> b[1] == 1 && b.len() == end + 36 + first_bytes(
                p.offline->0.ssh_user@,
            ).len() + 1 + (match p.offline->0.authorized_keys {
                Some(path) => first_bytes(path@).len(),
                None => 0,
            }) + (if p.offline->0.hostkey_sha256 is Some {
                32nat
            } else {
                0
            })
        }),
{
    let b = wire_bytes(wire_of(p@));
    let w = wire_of(p@);
    let q = kept(p@);
    p.lemma_sized();
    lemma_wire_of(p@);
    names_are_cut_between_characters(p@.name);
    decode_utf8_encode_utf8(w.name);
    assert(valid_utf8(Seq::<u8>::empty()));
    if let Some(k) = p.offline {
        let user = encode_utf8(k.ssh_user@);
        assert(user.take(user.len() as int) =~= user);
        if let Some(path) = k.authorized_keys {
            let bytes = encode_utf8(path@);
            assert(bytes.take(bytes.len() as int) =~= bytes);
        }
        lemma_port(w.key->0.port);
    }
    assert(legible(w));
    written_payloads_are_read_back(p@, Seq::empty());
    assert(b + Seq::<u8>::empty() =~= b);
    payloads_read_as_they_are_laid_out(b, q);
    lemma_addrs_stand(b, 0, w.addrs);
    lemma_port(w.port);
    assert(b[1] == w.flags);
}

/// A URL is a payload's exactly if it is the prefix and the base64 form of bytes
/// that the payload is laid out in.
pub proof fn urls_read_as_their_bytes_do(url: Seq<char>, p: PayloadState)
    ensures
        url_decoded(url) == Some(p) <==> exists|data: Seq<u8>|
            url == "multiplex://b/"@ + #[trigger] b64url_of(data) && laid_out(data, p),
        url_of(p) == "multiplex://b/"@ + b64url_of(wire_bytes(wire_of(p))),
{
    let prefix = "multiplex://b/"@;
    let n = prefix.len() as int;
    if url_decoded(url) == Some(p) {
        let data = choose|data: Seq<u8>| url.skip(n) == #[trigger] b64url_of(data);
        assert(url =~= prefix + url.skip(n));
        payloads_read_as_they_are_laid_out(data, p);
    }
    if exists|data: Seq<u8>| url == prefix + #[trigger] b64url_of(data) && laid_out(data, p) {
        let data = choose|data: Seq<u8>|
            url == prefix + #[trigger] b64url_of(data) && laid_out(data, p);
        assert(url.skip(n) =~= b64url_of(data));
        assert(prefix.is_prefix_of(url));
        let chosen = choose|d: Seq<u8>| url.skip(n) == #[trigger] b64url_of(d);
        b64url_is_injective(chosen, data);
        payloads_read_as_they_are_laid_out(data, p);
    }
}

/// A payload says all that it holds.
pub proof fn payloads_say_all_they_hold(p: Payload, i: int)
    requires
        0 <= i < p.addrs@.len(),
    ensures
        p@.addrs.len() == p.addrs@.len(),
        p.addrs@[i] matches IpAddr::V4(octets) ==> p@.addrs[i] == Addr::V4(octets@),
        p.addrs@[i] matches IpAddr::V6(octets) ==> p@.addrs[i] == Addr::V6(octets@),
        p@.port == p.port && p@.spub == p.spub@ && p@.token == p.token@ && p@.name == p.name@,
        p@.offline is Some <==> p.offline is Some,
        p.offline matches Some(k) ==> {
            let said = p@.offline->0;
            &&& said.ssh_user == k.ssh_user@ && said.ssh_port == k.ssh_port && said.seed == k.seed@
            &&& said.authorized_keys is Some <==> k.authorized_keys is Some
            &&& k.authorized_keys matches Some(path) ==> said.authorized_keys == Some(path@)
            &&& said.hostkey_sha256 is Some <==> k.hostkey_sha256 is Some
            &&& k.hostkey_sha256 matches Some(digest) ==> said.hostkey_sha256 == Some(digest@)
        },
{
}

} // verus!
