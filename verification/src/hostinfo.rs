//! What this machine tells the app about itself: its name, the addresses it may
//! be reached at, and its SSH host key fingerprints, which the app pins.

use vstd::prelude::*;
use vstd::seq_lib::*;
use vstd::string::*;
use vstd::utf8::*;
use crate::authkeys::FileRead;
use crate::payload::{Addr, IpAddr};
use crate::sshkey::{openssh_key, read_openssh, KeyFacts, OpensshKey};
use crate::text::{
    append_all, begins_with, cat3, chars_of, contains, finishes_with, holds, same, text_of, trim,
    trim_of, utf8_text, views,
};
use crate::util::b64_of;

verus! {

/// How many addresses are offered at most.
pub const MAX_LISTED: usize = 6;

/// `name` without the `.local` at its end, however often it stands there.
pub open spec fn without_local(name: Seq<char>) -> Seq<char>
    decreases name.len(),
{
    if ".local"@.len() > 0 && ".local"@.is_suffix_of(name) {
        without_local(name.take(name.len() - ".local"@.len()))
    } else {
        name
    }
}

/// What a machine with this host name is called.
pub open spec fn name_of(hostname: Option<Seq<char>>) -> Seq<char> {
    match hostname {
        Some(name) => if without_local(name).len() == 0 { "host"@ } else { without_local(name) },
        None => "host"@,
    }
}

/// What this machine is called, by its host name.
pub fn machine_name(hostname: Option<&str>) -> (r: String)
    ensures
        r@ == name_of(
            match hostname {
                Some(name) => Some(name@),
                None => None,
            },
        ),
        r@.len() > 0,
{
    proof {
        reveal_strlit("host");
        reveal_strlit(".local");
    }
    let whole = match hostname {
        Some(name) => name,
        None => {
            return "host".to_owned();
        },
    };
    let mut name = whole.to_owned();
    while finishes_with(name.as_str(), ".local")
        invariant
            ".local"@.len() == 6,
            without_local(name@) == without_local(whole@),
        decreases name@.len(),
    {
        let chars = chars_of(name.as_str());
        let end = chars.len() - 6;
        assert(chars@.subrange(0, end as int) == name@.take(name@.len() - ".local"@.len()));
        name = text_of(&chars, 0, end);
    }
    if chars_of(name.as_str()).len() == 0 {
        "host".to_owned()
    } else {
        name
    }
}

/// An address of one of this machine's interfaces, and its text.
#[derive(Debug, PartialEq, Eq)]
pub struct Interface {
    pub ip: IpAddr,
    pub text: String,
}

/// How an address is listed.
pub ghost enum Rank {
    /// Not at all: nobody else can dial it.
    Skipped,
    PrivateV4,
    PublicV4,
    V6,
}

/// How an address is listed: not if it is a loopback or a link-local one.
pub open spec fn rank_of(addr: Addr) -> Rank {
    match addr {
        Addr::V4(o) => if o[0] == 127 || (o[0] == 169 && o[1] == 254) {
            Rank::Skipped
        } else if o[0] == 10 || (o[0] == 172 && 16 <= o[1] <= 31) || (o[0] == 192 && o[1] == 168) {
            Rank::PrivateV4
        } else {
            Rank::PublicV4
        },
        Addr::V6(o) => if o == Seq::new(16, |i: int| if i == 15 { 1u8 } else { 0u8 }) || (o[0]
            == 0xfe && 0x80 <= o[1] <= 0xbf) {
            Rank::Skipped
        } else {
            Rank::V6
        },
    }
}

/// The texts of the addresses of one rank, in order.
pub open spec fn ranked(list: Seq<Interface>, rank: Rank) -> Seq<Seq<char>>
    decreases list.len(),
{
    if list.len() == 0 {
        Seq::empty()
    } else if rank_of(list.last().ip@) == rank {
        ranked(list.drop_last(), rank).push(list.last().text@)
    } else {
        ranked(list.drop_last(), rank)
    }
}

/// A list without the texts that equal the one before them.
pub open spec fn deduped(list: Seq<Seq<char>>) -> Seq<Seq<char>>
    decreases list.len(),
{
    if list.len() < 2 {
        list
    } else if list.last() == list[list.len() - 2] {
        deduped(list.drop_last())
    } else {
        deduped(list.drop_last()).push(list.last())
    }
}

/// The addresses to offer: private IPv4, public IPv4, then IPv6.
pub open spec fn addrs_of(list: Seq<Interface>) -> Seq<Seq<char>> {
    let all = deduped(
        ranked(list, Rank::PrivateV4) + ranked(list, Rank::PublicV4) + ranked(list, Rank::V6),
    );
    if all.len() > MAX_LISTED { all.take(MAX_LISTED as int) } else { all }
}

/// Where an address stands among the listed: first, second or third, if at all.
fn rank(ip: &IpAddr) -> (r: Option<u8>)
    ensures
        match rank_of(ip@) {
            Rank::Skipped => r is None,
            Rank::PrivateV4 => r == Some(0u8),
            Rank::PublicV4 => r == Some(1u8),
            Rank::V6 => r == Some(2u8),
        },
{
    match ip {
        IpAddr::V4(o) => {
            if o[0] == 127 || (o[0] == 169 && o[1] == 254) {
                None
            } else if o[0] == 10 || (o[0] == 172 && 16 <= o[1] && o[1] <= 31) || (o[0] == 192
                && o[1] == 168) {
                Some(0)
            } else {
                Some(1)
            }
        },
        IpAddr::V6(o) => {
            let mut i: usize = 0;
            while i < 15 && o[i] == 0
                invariant
                    i <= 15,
                    o@.len() == 16,
                    forall|k: int| 0 <= k < i ==> o@[k] == 0,
                decreases 15 - i,
            {
                i = i + 1;
            }
            let ghost one = Seq::new(16, |i: int| if i == 15 { 1u8 } else { 0u8 });
            proof {
                if i == 15 && o@[15] == 1 {
                    assert(o@ =~= one);
                } else {
                    assert(o@[i as int] != one[i as int]);
                }
            }
            if (i == 15 && o[15] == 1) || (o[0] == 0xfe && 0x80 <= o[1] && o[1] <= 0xbf) {
                None
            } else {
                Some(2)
            }
        },
    }
}

/// The texts of the interfaces of one rank.
fn of_rank(interfaces: &Vec<Interface>, sought: u8, Ghost(rank_sought): Ghost<Rank>) -> (r: Vec<
    String,
>)
    requires
        match rank_sought {
            Rank::Skipped => false,
            Rank::PrivateV4 => sought == 0,
            Rank::PublicV4 => sought == 1,
            Rank::V6 => sought == 2,
        },
    ensures
        views(r@) == ranked(interfaces@, rank_sought),
{
    let mut out: Vec<String> = Vec::new();
    let mut i: usize = 0;
    assert(views(out@) == ranked(interfaces@.take(0), rank_sought));
    while i < interfaces.len()
        invariant
            i <= interfaces@.len(),
            match rank_sought {
                Rank::Skipped => false,
                Rank::PrivateV4 => sought == 0,
                Rank::PublicV4 => sought == 1,
                Rank::V6 => sought == 2,
            },
            views(out@) == ranked(interfaces@.take(i as int), rank_sought),
        decreases interfaces.len() - i,
    {
        let ghost before = views(out@);
        assert(interfaces@.take(i + 1).drop_last() == interfaces@.take(i as int));
        if let Some(found) = rank(&interfaces[i].ip) {
            if found == sought {
                out.push(interfaces[i].text.clone());
                assert(views(out@) == before.push(interfaces@[i as int].text@));
            }
        }
        i = i + 1;
    }
    assert(interfaces@.take(i as int) == interfaces@);
    out
}

proof fn lemma_deduped_grows(list: Seq<Seq<char>>, n: int)
    requires
        0 <= n <= list.len(),
    ensures
        deduped(list.take(n)).is_prefix_of(deduped(list)),
    decreases list.len() - n,
{
    if n == list.len() {
        assert(list.take(n) == list);
    } else {
        assert(list.take(n + 1).drop_last() == list.take(n));
        if n == 0 {
            assert(deduped(list.take(0)).len() == 0);
        }
        assert(deduped(list.take(n)).is_prefix_of(deduped(list.take(n + 1))));
        lemma_deduped_grows(list, n + 1);
    }
}

/// The addresses to offer: no loopback and no link-local ones, private IPv4
/// first, for the local network that binding is for, capped so that payloads
/// stay small.
pub fn local_addrs(interfaces: &Vec<Interface>) -> (r: Vec<String>)
    ensures
        views(r@) == addrs_of(interfaces@),
        r@.len() <= MAX_LISTED,
{
    let mut all = of_rank(interfaces, 0, Ghost(Rank::PrivateV4));
    append_all(&mut all, &of_rank(interfaces, 1, Ghost(Rank::PublicV4)));
    append_all(&mut all, &of_rank(interfaces, 2, Ghost(Rank::V6)));
    let ghost list = views(all@);
    let mut out: Vec<String> = Vec::new();
    let mut i: usize = 0;
    assert(views(out@) == deduped(list.take(0)));
    while i < all.len() && out.len() < MAX_LISTED
        invariant
            list == views(all@),
            i <= all@.len(),
            views(out@) == deduped(list.take(i as int)),
            out@.len() <= MAX_LISTED,
        decreases all.len() - i,
    {
        let ghost before = views(out@);
        assert(list.take(i + 1).drop_last() == list.take(i as int));
        if i == 0 || !same(all[i].as_str(), all[i - 1].as_str()) {
            out.push(all[i].clone());
            assert(views(out@) == before.push(list[i as int]));
            if i == 0 {
                assert(before.push(list[0]) =~= list.take(1));
            }
        }
        i = i + 1;
    }
    proof {
        lemma_deduped_grows(list, i as int);
        if i == list.len() {
            assert(list.take(i as int) == list);
        }
        assert(views(out@) =~= addrs_of(interfaces@));
    }
    out
}

proof fn lemma_deduped_from(list: Seq<Seq<char>>, t: Seq<char>)
    requires
        deduped(list).contains(t),
    ensures
        list.contains(t),
    decreases list.len(),
{
    if list.len() >= 2 {
        if list.last() == t {
            assert(list[list.len() - 1] == t);
        } else {
            let i = choose|i: int| 0 <= i < deduped(list).len() && deduped(list)[i] == t;
            assert(deduped(list.drop_last())[i] == t);
            lemma_deduped_from(list.drop_last(), t);
            let k = choose|k: int| 0 <= k < list.drop_last().len() && list.drop_last()[k] == t;
            assert(list[k] == t);
        }
    }
}

proof fn lemma_ranked_from(list: Seq<Interface>, rank: Rank, t: Seq<char>)
    requires
        ranked(list, rank).contains(t),
    ensures
        exists|k: int|
            0 <= k < list.len() && (#[trigger] list[k]).text@ == t && rank_of(list[k].ip@) == rank,
    decreases list.len(),
{
    let last = list.len() - 1;
    if list.len() > 0 {
        if rank_of(list.last().ip@) == rank && list.last().text@ == t {
            assert(list[last].text@ == t);
        } else {
            let i = choose|i: int| 0 <= i < ranked(list, rank).len() && ranked(list, rank)[i] == t;
            assert(ranked(list.drop_last(), rank)[i] == t);
            lemma_ranked_from(list.drop_last(), rank, t);
            let k = choose|k: int|
                0 <= k < list.drop_last().len() && (#[trigger] list.drop_last()[k]).text@ == t
                    && rank_of(list.drop_last()[k].ip@) == rank;
            assert(list[k].text@ == t);
        }
    }
}

/// Every address on offer is that of an interface, and neither a loopback nor a
/// link-local one.
pub proof fn offered_addresses_can_be_dialed(list: Seq<Interface>, i: int)
    requires
        0 <= i < addrs_of(list).len(),
    ensures
        exists|k: int|
            0 <= k < list.len() && (#[trigger] list[k]).text@ == addrs_of(list)[i] && rank_of(
                list[k].ip@,
            ) != Rank::Skipped,
{
    let t = addrs_of(list)[i];
    let (a, b, c) = (
        ranked(list, Rank::PrivateV4),
        ranked(list, Rank::PublicV4),
        ranked(list, Rank::V6),
    );
    let all = a + b + c;
    assert(deduped(all)[i] == t);
    lemma_deduped_from(all, t);
    let k = choose|k: int| 0 <= k < all.len() && all[k] == t;
    if k < a.len() {
        assert(a[k] == t);
        lemma_ranked_from(list, Rank::PrivateV4, t);
    } else if k < a.len() + b.len() {
        assert(b[k - a.len()] == t);
        lemma_ranked_from(list, Rank::PublicV4, t);
    } else {
        assert(c[k - a.len() - b.len()] == t);
        lemma_ranked_from(list, Rank::V6, t);
    }
}

/// Whether a file of this name holds a host's public key.
pub open spec fn names_host_key(name: Seq<char>) -> bool {
    "ssh_host_"@.is_prefix_of(name) && "_key.pub"@.is_suffix_of(name)
}

/// Whether `a` comes before `b`, or is `b`, character by character.
pub open spec fn in_order(a: Seq<char>, b: Seq<char>) -> bool
    decreases a.len(),
{
    if a.len() == 0 {
        true
    } else if b.len() == 0 {
        false
    } else if a[0] != b[0] {
        a[0] < b[0]
    } else {
        in_order(a.drop_first(), b.drop_first())
    }
}

fn precedes(a: &str, b: &str) -> (r: bool)
    ensures
        r == in_order(a@, b@),
{
    let x = chars_of(a);
    let y = chars_of(b);
    let mut i: usize = 0;
    assert(x@.skip(0) == x@);
    assert(y@.skip(0) == y@);
    while i < x.len() && i < y.len()
        invariant
            x@ == a@,
            y@ == b@,
            i <= x@.len(),
            i <= y@.len(),
            in_order(a@, b@) == in_order(x@.skip(i as int), y@.skip(i as int)),
        decreases x.len() - i,
    {
        assert(x@.skip(i as int).drop_first() == x@.skip(i + 1));
        assert(y@.skip(i as int).drop_first() == y@.skip(i + 1));
        if x[i] != y[i] {
            return x[i] < y[i];
        }
        i = i + 1;
    }
    i == x.len()
}

proof fn lemma_order_total(a: Seq<char>, b: Seq<char>)
    ensures
        in_order(a, b) || in_order(b, a),
    decreases a.len(),
{
    if a.len() > 0 && b.len() > 0 && a[0] == b[0] {
        lemma_order_total(a.drop_first(), b.drop_first());
    }
}

proof fn lemma_order_transitive(a: Seq<char>, b: Seq<char>, c: Seq<char>)
    requires
        in_order(a, b),
        in_order(b, c),
    ensures
        in_order(a, c),
    decreases a.len(),
{
    if a.len() > 0 && a[0] == b[0] && b[0] == c[0] {
        lemma_order_transitive(a.drop_first(), b.drop_first(), c.drop_first());
    }
}

/// Whether each text comes before those behind it.
pub open spec fn sorted(list: Seq<Seq<char>>) -> bool {
    forall|i: int, k: int| 0 <= i < k < list.len() ==> in_order(#[trigger] list[i], #[trigger] list[k])
}

/// The names among some that are those of host key files.
pub open spec fn host_key_names(names: Seq<Seq<char>>) -> Seq<Seq<char>>
    decreases names.len(),
{
    if names.len() == 0 {
        Seq::empty()
    } else if names_host_key(names.last()) {
        host_key_names(names.drop_last()).push(names.last())
    } else {
        host_key_names(names.drop_last())
    }
}

proof fn lemma_insert_multiset(s: Seq<Seq<char>>, i: int, x: Seq<char>)
    requires
        0 <= i <= s.len(),
    ensures
        s.insert(i, x).to_multiset() == s.to_multiset().insert(x),
{
    let longer = s.insert(i, x);
    assert(longer.remove(i) == s);
    assert(longer[i] == x);
    to_multiset_remove(longer, i);
    longer.to_multiset_ensures();
    assert(longer.contains(x));
    assert(longer.to_multiset().count(x) > 0);
    assert(longer.to_multiset() =~= s.to_multiset().insert(x));
}

fn insert_in_order(list: &mut Vec<String>, name: String)
    requires
        sorted(views(old(list)@)),
    ensures
        sorted(views(final(list)@)),
        views(final(list)@).to_multiset() == views(old(list)@).to_multiset().insert(name@),
{
    let ghost before = views(list@);
    let mut i: usize = 0;
    while i < list.len() && precedes(list[i].as_str(), name.as_str())
        invariant
            before == views(list@),
            i <= list@.len(),
            forall|k: int| 0 <= k < i ==> in_order(#[trigger] before[k], name@),
        decreases list.len() - i,
    {
        assert(before[i as int] == list@[i as int]@);
        i = i + 1;
    }
    let ghost x = name@;
    proof {
        if i < before.len() {
            assert(before[i as int] == list@[i as int]@);
            lemma_order_total(before[i as int], x);
        }
    }
    list.insert(i, name);
    proof {
        let now = views(list@);
        assert(now == before.insert(i as int, x));
        lemma_insert_multiset(before, i as int, x);
        assert forall|a: int, b: int| 0 <= a < b < now.len() implies in_order(
            #[trigger] now[a],
            #[trigger] now[b],
        ) by {
            if b < i {
                assert(in_order(before[a], before[b]));
            } else if b == i {
                assert(in_order(before[a], x));
            } else if a < i {
                assert(in_order(before[a], before[b - 1]));
            } else if a == i {
                if b - 1 > i {
                    assert(in_order(before[i as int], before[b - 1]));
                    lemma_order_transitive(x, before[i as int], before[b - 1]);
                }
            } else {
                assert(in_order(before[a - 1], before[b - 1]));
            }
        }
    }
}

/// The host key files among the files of a directory, in order.
pub fn host_key_files(names: &Vec<String>) -> (r: Vec<String>)
    ensures
        sorted(views(r@)),
        views(r@).to_multiset() == host_key_names(views(names@)).to_multiset(),
{
    let mut out: Vec<String> = Vec::new();
    let mut i: usize = 0;
    assert(views(out@) == host_key_names(views(names@).take(0)));
    while i < names.len()
        invariant
            i <= names@.len(),
            sorted(views(out@)),
            views(out@).to_multiset() == host_key_names(views(names@).take(i as int)).to_multiset(),
        decreases names.len() - i,
    {
        let name = names[i].as_str();
        proof {
            let done = views(names@).take(i as int);
            assert(views(names@).take(i + 1).drop_last() == done);
            assert(views(names@).take(i + 1).last() == name@);
            host_key_names(done).to_multiset_ensures();
        }
        if begins_with(name, "ssh_host_") && finishes_with(name, "_key.pub") {
            insert_in_order(&mut out, names[i].clone());
        }
        i = i + 1;
    }
    assert(views(names@).take(i as int) == views(names@));
    out
}

/// What a file reads, if it is there and holds text.
pub open spec fn text_in(file: FileRead) -> Option<Seq<char>> {
    match file {
        FileRead::Bytes(bytes) => if valid_utf8(bytes@) { Some(decode_utf8(bytes@)) } else { None },
        _ => None,
    }
}

/// The host key that a file holds.
pub open spec fn host_key_in(file: FileRead) -> Option<KeyFacts> {
    match text_in(file) {
        Some(content) => openssh_key(trim_of(content)),
        None => None,
    }
}

/// `<key type> SHA256:<digest>`, the digest in base64.
pub open spec fn listing(key: KeyFacts) -> Seq<char> {
    key.algorithm + " "@ + ("SHA256:"@ + b64_of(key.digest, false, false))
}

pub open spec fn is_ed25519(key: KeyFacts) -> bool {
    holds(key.algorithm, "ed25519"@)
}

/// The listings of the host keys in some files: an ed25519 key goes in front of
/// those before it, any other one behind them.
pub open spec fn fingerprints_of(files: Seq<FileRead>) -> Seq<Seq<char>>
    decreases files.len(),
{
    if files.len() == 0 {
        Seq::empty()
    } else {
        let before = fingerprints_of(files.drop_last());
        match host_key_in(files.last()) {
            Some(key) => if is_ed25519(key) {
                seq![listing(key)] + before
            } else {
                before.push(listing(key))
            },
            None => before,
        }
    }
}

/// The listings of the keys that are, or are not, ed25519 keys, in order.
pub open spec fn listings(files: Seq<FileRead>, ed25519: bool) -> Seq<Seq<char>>
    decreases files.len(),
{
    if files.len() == 0 {
        Seq::empty()
    } else {
        let before = listings(files.drop_last(), ed25519);
        match host_key_in(files.last()) {
            Some(key) => if is_ed25519(key) == ed25519 { before.push(listing(key)) } else { before },
            None => before,
        }
    }
}

/// Ed25519 keys come first, the last one of them at the front; the others
/// follow in order.
pub proof fn ed25519_keys_come_first(files: Seq<FileRead>)
    ensures
        fingerprints_of(files) == listings(files, true).reverse() + listings(files, false),
    decreases files.len(),
{
    if files.len() > 0 {
        ed25519_keys_come_first(files.drop_last());
    }
    assert(fingerprints_of(files) =~= listings(files, true).reverse() + listings(files, false));
}

fn read_host_key(file: &FileRead) -> (r: Option<OpensshKey>)
    ensures
        match r {
            Some(key) => host_key_in(*file) == Some(key@) && key.fingerprint@ == "SHA256:"@
                + b64_of(key.digest@, false, false),
            None => host_key_in(*file) is None,
        },
{
    match file {
        FileRead::Bytes(bytes) => {
            let content = utf8_text(bytes.clone())?;
            read_openssh(trim(content.as_str()).as_str())
        },
        _ => None,
    }
}

/// `<key type> SHA256:<digest>` for each host public key that can be read,
/// ed25519 first. Files that cannot be read only narrow the list.
pub fn host_key_fingerprints(files: &Vec<FileRead>) -> (r: Vec<String>)
    ensures
        views(r@) == fingerprints_of(files@),
{
    let mut out: Vec<String> = Vec::new();
    let mut i: usize = 0;
    assert(views(out@) == fingerprints_of(files@.take(0)));
    while i < files.len()
        invariant
            i <= files@.len(),
            views(out@) == fingerprints_of(files@.take(i as int)),
        decreases files.len() - i,
    {
        let ghost before = views(out@);
        assert(files@.take(i + 1).drop_last() == files@.take(i as int));
        if let Some(key) = read_host_key(&files[i]) {
            let entry = cat3(key.algorithm.as_str(), " ", key.fingerprint.as_str());
            let ghost line = entry@;
            if contains(key.algorithm.as_str(), "ed25519") {
                out.insert(0, entry);
                assert(views(out@) =~= seq![line] + before);
            } else {
                out.push(entry);
                assert(views(out@) =~= before.push(line));
            }
        }
        i = i + 1;
    }
    assert(files@.take(i as int) == files@);
    out
}

/// The SHA-256 digest of the ed25519 host key, which an offline payload carries
/// in place of the fingerprint.
pub fn ed25519_host_key_digest(file: &FileRead) -> (r: Option<[u8; 32]>)
    ensures
        match r {
            Some(digest) => host_key_in(*file) matches Some(key) && key.digest == digest@,
            None => host_key_in(*file) is None,
        },
{
    match read_host_key(file) {
        Some(key) => Some(key.digest),
        None => None,
    }
}

/// Whether an address reaches only this machine: 127.0.0.0/8 or ::1.
pub open spec fn is_loopback(addr: Addr) -> bool {
    match addr {
        Addr::V4(o) => o[0] == 127,
        Addr::V6(o) => o[15] == 1 && forall|i: int| 0 <= i < 15 ==> #[trigger] o[i] == 0,
    }
}

/// Whether an address reaches only one link: 169.254.0.0/16 or fe80::/10.
pub open spec fn is_link_local(addr: Addr) -> bool {
    match addr {
        Addr::V4(o) => o[0] == 169 && o[1] == 254,
        Addr::V6(o) => o[0] == 0xfe && o[1] / 64 == 2,
    }
}

/// Whether an IPv4 address is a private one: 10.0.0.0/8, 172.16.0.0/12 or
/// 192.168.0.0/16.
pub open spec fn is_private(addr: Addr) -> bool {
    match addr {
        Addr::V4(o) => o[0] == 10 || (o[0] == 172 && o[1] / 16 == 1) || (o[0] == 192 && o[1] == 168),
        Addr::V6(o) => false,
    }
}

/// Whether others can dial an address.
pub open spec fn can_be_dialed(addr: Addr) -> bool {
    !is_loopback(addr) && !is_link_local(addr)
}

/// The addresses that others can dial: private IPv4, then other IPv4, then IPv6,
/// each in the order of the interfaces.
pub open spec fn dialable(list: Seq<Interface>) -> Seq<Interface> {
    list.filter(|x: Interface| can_be_dialed(x.ip@) && is_private(x.ip@)) + list.filter(
        |x: Interface| can_be_dialed(x.ip@) && x.ip is V4 && !is_private(x.ip@),
    ) + list.filter(|x: Interface| can_be_dialed(x.ip@) && x.ip is V6)
}

/// The texts of some interfaces.
pub open spec fn texts_of(list: Seq<Interface>) -> Seq<Seq<char>> {
    Seq::new(list.len(), |i: int| list[i].text@)
}

proof fn lemma_rank(ip: IpAddr)
    ensures
        (rank_of(ip@) is Skipped) == !can_be_dialed(ip@),
        (rank_of(ip@) is PrivateV4) == (can_be_dialed(ip@) && is_private(ip@)),
        (rank_of(ip@) is PublicV4) == (can_be_dialed(ip@) && ip is V4 && !is_private(ip@)),
        (rank_of(ip@) is V6) == (can_be_dialed(ip@) && ip is V6),
{
    if let IpAddr::V6(octets) = ip {
        let o = octets@;
        assert(o.len() == 16);
        let one = Seq::new(16, |i: int| if i == 15 { 1u8 } else { 0u8 });
        if is_loopback(ip@) {
            assert(o =~= one);
        }
        if o == one {
            assert forall|i: int| 0 <= i < 15 implies #[trigger] o[i] == 0 by {
                assert(one[i] == 0);
            }
            assert(one[15] == 1);
        }
    }
}

proof fn lemma_ranked_is_filtered(list: Seq<Interface>)
    ensures
        ranked(list, Rank::PrivateV4) == texts_of(
            list.filter(|x: Interface| can_be_dialed(x.ip@) && is_private(x.ip@)),
        ),
        ranked(list, Rank::PublicV4) == texts_of(
            list.filter(|x: Interface| can_be_dialed(x.ip@) && x.ip is V4 && !is_private(x.ip@)),
        ),
        ranked(list, Rank::V6) == texts_of(
            list.filter(|x: Interface| can_be_dialed(x.ip@) && x.ip is V6),
        ),
    decreases list.len(),
{
    reveal(Seq::filter);
    let a = |x: Interface| can_be_dialed(x.ip@) && is_private(x.ip@);
    let b = |x: Interface| can_be_dialed(x.ip@) && x.ip is V4 && !is_private(x.ip@);
    let c = |x: Interface| can_be_dialed(x.ip@) && x.ip is V6;
    if list.len() > 0 {
        let before = list.drop_last();
        lemma_ranked_is_filtered(before);
        lemma_rank(list.last().ip);
    }
    assert(ranked(list, Rank::PrivateV4) =~= texts_of(list.filter(a)));
    assert(ranked(list, Rank::PublicV4) =~= texts_of(list.filter(b)));
    assert(ranked(list, Rank::V6) =~= texts_of(list.filter(c)));
}

proof fn lemma_ranked_texts(list: Seq<Interface>)
    ensures
        ranked(list, Rank::PrivateV4) + ranked(list, Rank::PublicV4) + ranked(list, Rank::V6)
            == texts_of(dialable(list)),
{
    lemma_ranked_is_filtered(list);
    assert(ranked(list, Rank::PrivateV4) + ranked(list, Rank::PublicV4) + ranked(list, Rank::V6)
        =~= texts_of(dialable(list)));
}

/// What is offered are the first six of the addresses that can be dialed, in
/// their order, without those that repeat the one before.
pub proof fn addresses_are_offered_in_order(list: Seq<Interface>)
    ensures
        ({
            let all = deduped(texts_of(dialable(list)));
            addrs_of(list) == (if all.len() > 6 { all.take(6) } else { all })
        }),
        (forall|i: int|
            0 < i < dialable(list).len() ==> (#[trigger] dialable(list)[i]).text@ != dialable(
                list,
            )[i - 1].text@) ==> addrs_of(list) == (if dialable(list).len() > 6 {
            texts_of(dialable(list)).take(6)
        } else {
            texts_of(dialable(list))
        }),
{
    lemma_ranked_texts(list);
    let all = texts_of(dialable(list));
    if forall|i: int|
        0 < i < dialable(list).len() ==> (#[trigger] dialable(list)[i]).text@ != dialable(
            list,
        )[i - 1].text@ {
        assert forall|i: int| 0 < i < all.len() implies #[trigger] all[i] != all[i - 1] by {
            assert(dialable(list)[i].text@ != dialable(list)[i - 1].text@);
        }
        lemma_nothing_repeats(all);
    }
}

proof fn lemma_nothing_repeats(list: Seq<Seq<char>>)
    requires
        forall|i: int| 0 < i < list.len() ==> #[trigger] list[i] != list[i - 1],
    ensures
        deduped(list) == list,
    decreases list.len(),
{
    if list.len() >= 2 {
        let before = list.drop_last();
        assert forall|i: int| 0 < i < before.len() implies #[trigger] before[i] != before[i - 1] by {
            assert(list[i] != list[i - 1]);
        }
        lemma_nothing_repeats(before);
        assert(list[list.len() - 1] != list[list.len() - 2]);
        assert(before.push(list.last()) =~= list);
    }
}

/// A text that repeats the one before is dropped, and nothing else is.
pub proof fn repeated_texts_are_listed_once(
    a: Seq<Seq<char>>,
    x: Seq<char>,
    b: Seq<Seq<char>>,
)
    ensures
        deduped(a + seq![x, x] + b) == deduped(a + seq![x] + b),
        (forall|i: int| 0 < i < a.len() ==> #[trigger] a[i] != a[i - 1]) ==> deduped(a) == a,
    decreases b.len(),
{
    if forall|i: int| 0 < i < a.len() ==> #[trigger] a[i] != a[i - 1] {
        lemma_nothing_repeats(a);
    }
    let twice = a + seq![x, x] + b;
    let once = a + seq![x] + b;
    if b.len() == 0 {
        assert(twice.drop_last() =~= once);
        assert(twice[twice.len() - 2] == x);
    } else {
        let fewer = b.drop_last();
        repeated_texts_are_listed_once(a, x, fewer);
        assert(twice.drop_last() =~= a + seq![x, x] + fewer);
        assert(once.drop_last() =~= a + seq![x] + fewer);
        assert(twice.last() == b.last() && once.last() == b.last());
        assert(twice[twice.len() - 2] == once[once.len() - 2]);
    }
}

/// Every address that others can dial is on offer, unless six are listed
/// already.
pub proof fn every_address_that_can_be_dialed_is_offered(list: Seq<Interface>, k: int)
    requires
        0 <= k < list.len(),
    ensures
        can_be_dialed(list[k].ip@) ==> addrs_of(list).contains(list[k].text@) || addrs_of(
            list,
        ).len() == 6,
{
    let (a, b, c) = (
        ranked(list, Rank::PrivateV4),
        ranked(list, Rank::PublicV4),
        ranked(list, Rank::V6),
    );
    let all = a + b + c;
    if can_be_dialed(list[k].ip@) {
        let t = list[k].text@;
        lemma_rank(list[k].ip);
        lemma_ranked_has(list, k);
        assert(all.contains(t)) by {
            if a.contains(t) {
                let i = choose|i: int| 0 <= i < a.len() && a[i] == t;
                assert(all[i] == t);
            } else if b.contains(t) {
                let i = choose|i: int| 0 <= i < b.len() && b[i] == t;
                assert(all[a.len() + i] == t);
            } else {
                let i = choose|i: int| 0 <= i < c.len() && c[i] == t;
                assert(all[a.len() + b.len() + i] == t);
            }
        }
        lemma_deduped_has(all, t);
        if deduped(all).len() <= 6 {
            assert(addrs_of(list) == deduped(all));
        }
    }
}

/// Nothing is on offer but texts of interfaces whose addresses others can dial.
pub proof fn nothing_else_is_offered(list: Seq<Interface>, i: int)
    requires
        0 <= i < addrs_of(list).len(),
    ensures
        exists|j: int|
            0 <= j < list.len() && can_be_dialed((#[trigger] list[j]).ip@) && list[j].text@
                == addrs_of(list)[i],
{
    offered_addresses_can_be_dialed(list, i);
    let j = choose|j: int|
        0 <= j < list.len() && (#[trigger] list[j]).text@ == addrs_of(list)[i] && rank_of(
            list[j].ip@,
        ) != Rank::Skipped;
    lemma_rank(list[j].ip);
    assert(can_be_dialed(list[j].ip@));
}

proof fn lemma_ranked_has(list: Seq<Interface>, k: int)
    requires
        0 <= k < list.len(),
    ensures
        ranked(list, rank_of(list[k].ip@)).contains(list[k].text@),
    decreases list.len(),
{
    let rank = rank_of(list[k].ip@);
    let now = ranked(list, rank);
    let before = list.drop_last();
    if k == list.len() - 1 {
        assert(now[now.len() - 1] == list[k].text@);
    } else {
        assert(before[k] == list[k]);
        lemma_ranked_has(before, k);
        let i = choose|i: int|
            0 <= i < ranked(before, rank).len() && ranked(before, rank)[i] == list[k].text@;
        assert(now[i] == list[k].text@);
    }
}

proof fn lemma_deduped_has(list: Seq<Seq<char>>, t: Seq<char>)
    requires
        list.contains(t),
    ensures
        deduped(list).contains(t),
        deduped(list).len() > 0 && deduped(list).last() == list.last(),
    decreases list.len(),
{
    if list.len() >= 2 {
        let before = list.drop_last();
        assert(before[before.len() - 1] == before.last());
        lemma_deduped_has(before, before.last());
        let now = deduped(list);
        if list.last() == t {
            assert(now[now.len() - 1] == t);
        } else {
            let i = choose|i: int| 0 <= i < list.len() && list[i] == t;
            assert(before[i] == t);
            lemma_deduped_has(before, t);
            let k = choose|k: int| 0 <= k < deduped(before).len() && deduped(before)[k] == t;
            assert(now[k] == t);
        }
    } else {
        assert(list[0] == t);
    }
}

/// A machine is called by its host name without `.local` at the end, however
/// often that stands there; and `host` if nothing is left or there is no name.
pub proof fn machines_are_called_by_their_host_names(name: Seq<char>)
    ensures
        name_of(None) == "host"@,
        name_of(Some(Seq::empty())) == "host"@,
        name_of(Some(name + ".local"@)) == name_of(Some(name)),
        name.len() > 0 && !".local"@.is_suffix_of(name) ==> name_of(Some(name)) == name,
{
    reveal_strlit(".local");
    let longer = name + ".local"@;
    assert(longer.skip(name.len() as int) =~= ".local"@);
    assert(".local"@.is_suffix_of(longer)) by {
        assert(longer.subrange(longer.len() - 6, longer.len() as int) =~= ".local"@);
    }
    assert(longer.take(longer.len() - 6) =~= name);
    let empty = Seq::<char>::empty();
    assert(!".local"@.is_suffix_of(empty));
}

/// The host key files are those named `ssh_host_…_key.pub`, whatever stands
/// between.
pub proof fn host_key_files_are_picked_by_name(names: Seq<Seq<char>>)
    ensures
        host_key_names(names) == names.filter(
            |name: Seq<char>| "ssh_host_"@.is_prefix_of(name) && "_key.pub"@.is_suffix_of(name),
        ),
    decreases names.len(),
{
    reveal(Seq::filter);
    let pred = |name: Seq<char>|
        "ssh_host_"@.is_prefix_of(name) && "_key.pub"@.is_suffix_of(name);
    if names.len() > 0 {
        host_key_files_are_picked_by_name(names.drop_last());
    }
    assert(host_key_names(names) =~= names.filter(pred));
}

/// Names are ordered as in a dictionary: by the first character in which they
/// differ, the shorter one first where there is none.
pub proof fn names_are_ordered_as_in_a_dictionary(
    common: Seq<char>,
    x: char,
    y: char,
    a: Seq<char>,
    b: Seq<char>,
)
    requires
        x < y,
    ensures
        in_order(common + seq![x] + a, common + seq![y] + b),
        !in_order(common + seq![y] + b, common + seq![x] + a),
        in_order(common, common + a),
        a.len() > 0 ==> !in_order(common + a, common),
    decreases common.len(),
{
    let (s, t, u) = (common + seq![x] + a, common + seq![y] + b, common + a);
    if common.len() == 0 {
        assert(u =~= a);
    } else {
        let rest = common.drop_first();
        assert(s.drop_first() =~= rest + seq![x] + a);
        assert(t.drop_first() =~= rest + seq![y] + b);
        assert(u.drop_first() =~= rest + a);
        names_are_ordered_as_in_a_dictionary(rest, x, y, a, b);
    }
}

/// The listing of one more file: a key goes in front if its algorithm holds
/// `ed25519` and at the end if not, as its algorithm and the digest of the key;
/// a file without a key changes nothing.
pub proof fn host_keys_are_listed_one_by_one(files: Seq<FileRead>, file: FileRead)
    ensures
        fingerprints_of(Seq::empty()).len() == 0,
        (file matches FileRead::Bytes(bytes) && valid_utf8(bytes@) && openssh_key(
            trim_of(decode_utf8(bytes@)),
        ) is Some) ==> {
            let key = openssh_key(trim_of(decode_utf8(file->Bytes_0@)))->0;
            let entry = key.algorithm + " SHA256:"@ + b64_of(key.digest, false, false);
            fingerprints_of(files.push(file)) == (if holds(key.algorithm, "ed25519"@) {
                seq![entry] + fingerprints_of(files)
            } else {
                fingerprints_of(files).push(entry)
            })
        },
        !(file matches FileRead::Bytes(bytes) && valid_utf8(bytes@) && openssh_key(
            trim_of(decode_utf8(bytes@)),
        ) is Some) ==> fingerprints_of(files.push(file)) == fingerprints_of(files),
{
    reveal_strlit(" ");
    reveal_strlit("SHA256:");
    reveal_strlit(" SHA256:");
    assert(files.push(file).drop_last() =~= files);
    if let FileRead::Bytes(bytes) = file {
        if valid_utf8(bytes@) {
            if let Some(key) = openssh_key(trim_of(decode_utf8(bytes@))) {
                let entry = key.algorithm + " SHA256:"@ + b64_of(key.digest, false, false);
                assert(" SHA256:"@ =~= " "@ + "SHA256:"@);
                assert(listing(key) =~= entry);
            }
        }
    }
}

/// Sorted names are in order, each two of them.
pub proof fn sorted_names_are_in_order(list: Seq<Seq<char>>, i: int, k: int)
    requires
        sorted(list),
        0 <= i < k < list.len(),
    ensures
        in_order(list[i], list[k]),
{
}

/// A file holds a host key exactly if it is text that reads as one.
pub proof fn host_keys_are_read_from_text(file: FileRead)
    ensures
        (file matches FileRead::Bytes(bytes) && valid_utf8(bytes@)) ==> host_key_in(file)
            == openssh_key(trim_of(decode_utf8(file->Bytes_0@))),
        !(file matches FileRead::Bytes(bytes) && valid_utf8(bytes@)) ==> host_key_in(file) is None,
{
}

} // verus!
