//! Small shared helpers: base64, hex, slugs and the lines the command prints.

use base64::engine::general_purpose::STANDARD;
use base64::engine::general_purpose::URL_SAFE_NO_PAD;
use base64::Engine as _;
use vstd::prelude::*;
use vstd::string::*;
use vstd::utf8::*;
use crate::text::{cat, cat3, chars_of, text_of};

verus! {

/// The character that stands for six bits, in the URL-safe or the standard
/// alphabet.
pub open spec fn sextet(n: int, url: bool) -> char {
    if n < 26 {
        (0x41 + n) as u8 as char
    } else if n < 52 {
        (0x61 + n - 26) as u8 as char
    } else if n < 62 {
        (0x30 + n - 52) as u8 as char
    } else if n == 62 {
        if url { '-' } else { '+' }
    } else {
        if url { '_' } else { '/' }
    }
}

/// `data` in base64: four characters for every three bytes, and two or three
/// for the one or two bytes left over, filled up with `=` if `padded`.
pub open spec fn b64_of(data: Seq<u8>, url: bool, padded: bool) -> Seq<char>
    decreases data.len(),
{
    if data.len() == 0 {
        Seq::empty()
    } else if data.len() == 1 {
        seq![sextet(data[0] as int / 4, url), sextet((data[0] % 4) * 16, url)] + (if padded {
            seq!['=', '=']
        } else {
            Seq::empty()
        })
    } else if data.len() == 2 {
        seq![
            sextet(data[0] as int / 4, url),
            sextet((data[0] % 4) * 16 + data[1] / 16, url),
            sextet((data[1] % 16) * 4, url),
        ] + (if padded {
            seq!['=']
        } else {
            Seq::empty()
        })
    } else {
        seq![
            sextet(data[0] as int / 4, url),
            sextet((data[0] % 4) * 16 + data[1] / 16, url),
            sextet((data[1] % 16) * 4 + data[2] / 64, url),
            sextet(data[2] as int % 64, url),
        ] + b64_of(data.skip(3), url, padded)
    }
}

/// `data` in URL-safe base64, without padding.
pub open spec fn b64url_of(data: Seq<u8>) -> Seq<char> {
    b64_of(data, true, false)
}

/// `data` in standard base64, padded.
pub open spec fn b64std_of(data: Seq<u8>) -> Seq<char> {
    b64_of(data, false, true)
}

/// Whether the base64 form of `len` bytes fits in memory.
pub open spec fn b64_fits(len: nat) -> bool {
    len / 3 * 4 + 4 <= isize::MAX
}

/// Calls `URL_SAFE_NO_PAD.encode`. Trusted: it writes the URL-safe base64 form
/// without padding.
#[verifier::external_body]
pub fn b64url(data: &[u8]) -> (r: String)
    requires
        b64_fits(data@.len()),
    ensures
        r@ == b64url_of(data@),
{
    URL_SAFE_NO_PAD.encode(data)
}

/// Calls `URL_SAFE_NO_PAD.decode`. Trusted: it accepts exactly the texts that
/// are the URL-safe form of some bytes, padding and stray trailing bits
/// refused, and yields those bytes.
#[verifier::external_body]
pub fn b64url_decode(s: &str) -> (r: Option<Vec<u8>>)
    ensures
        match r {
            Some(data) => s@ == b64url_of(data@),
            None => forall|data: Seq<u8>| s@ != #[trigger] b64url_of(data),
        },
{
    URL_SAFE_NO_PAD.decode(s.as_bytes()).ok()
}

/// Calls `STANDARD.encode`. Trusted: it writes the standard base64 form with
/// padding.
#[verifier::external_body]
pub fn b64std(data: &[u8]) -> (r: String)
    requires
        b64_fits(data@.len()),
    ensures
        r@ == b64std_of(data@),
{
    STANDARD.encode(data)
}

proof fn lemma_sextet_injective(m: int, n: int, url: bool)
    requires
        0 <= m < 64,
        0 <= n < 64,
        sextet(m, url) == sextet(n, url),
    ensures
        m == n,
{
}

/// Different bytes have different base64 forms, so what was encoded is what
/// decoding yields.
pub proof fn b64url_is_injective(a: Seq<u8>, b: Seq<u8>)
    requires
        b64url_of(a) == b64url_of(b),
    ensures
        a == b,
    decreases a.len(),
{
    lemma_b64url_front(a);
    lemma_b64url_front(b);
    if a.len() > 0 && b.len() > 0 {
        lemma_sextet_injective(a[0] as int / 4, b[0] as int / 4, true);
        lemma_sextet_injective(second(a), second(b), true);
        if a.len() > 1 && b.len() > 1 {
            lemma_sextet_injective(third(a), third(b), true);
            if a.len() > 2 && b.len() > 2 {
                lemma_sextet_injective(a[2] as int % 64, b[2] as int % 64, true);
                assert(b64url_of(a.skip(3)) == b64url_of(b.skip(3)));
                b64url_is_injective(a.skip(3), b.skip(3));
                assert(forall|i: int| 3 <= i < a.len() ==> a[i] == a.skip(3)[i - 3]);
                assert(forall|i: int| 3 <= i < b.len() ==> b[i] == b.skip(3)[i - 3]);
            }
        }
    }
    assert(a =~= b);
}

spec fn second(data: Seq<u8>) -> int {
    (data[0] % 4) * 16 + (if data.len() > 1 { data[1] as int / 16 } else { 0 })
}

spec fn third(data: Seq<u8>) -> int {
    (data[1] % 16) * 4 + (if data.len() > 2 { data[2] as int / 64 } else { 0 })
}

/// The characters for the first three bytes, and how many there are.
proof fn lemma_b64url_front(data: Seq<u8>)
    ensures
        ({
            let s = b64url_of(data);
            &&& data.len() == 0 ==> s.len() == 0
            &&& data.len() == 1 ==> s.len() == 2
            &&& data.len() == 2 ==> s.len() == 3
            &&& data.len() > 2 ==> s.len() > 3
            &&& data.len() > 0 ==> s[0] == sextet(data[0] as int / 4, true) && s[1] == sextet(
                second(data),
                true,
            )
            &&& data.len() > 1 ==> s[2] == sextet(third(data), true)
            &&& data.len() > 2 ==> s[3] == sextet(data[2] as int % 64, true) && s.skip(4)
                == b64url_of(data.skip(3))
        }),
{
    if data.len() > 2 {
        assert(b64url_of(data).skip(4) =~= b64url_of(data.skip(3)));
    }
}

/// URL-safe base64 takes four characters for three bytes, rounded up.
pub proof fn b64url_length(data: Seq<u8>)
    ensures
        b64url_of(data).len() == (4 * data.len() + 2) / 3,
    decreases data.len(),
{
    if data.len() >= 3 {
        b64url_length(data.skip(3));
    }
}

/// The lowercase hex digit of a value below sixteen.
pub open spec fn hex_digit(n: int) -> char {
    if n < 10 {
        (0x30 + n) as u8 as char
    } else {
        (0x57 + n) as u8 as char
    }
}

/// `data` in lowercase hex, two digits a byte.
pub open spec fn hex_of(data: Seq<u8>) -> Seq<char> {
    Seq::new(
        2 * data.len(),
        |i: int| hex_digit(if i % 2 == 0 { data[i / 2] / 16 } else { data[i / 2] % 16 } as int),
    )
}

/// What a byte stands for as a hex digit of either case.
pub open spec fn hex_value(b: u8) -> Option<int> {
    if 0x30 <= b <= 0x39 {
        Some(b - 0x30)
    } else if 0x61 <= b <= 0x66 {
        Some(b - 0x57)
    } else if 0x41 <= b <= 0x46 {
        Some(b - 0x37)
    } else {
        None
    }
}

/// Whether `text` is an even number of hex digits.
pub open spec fn is_hex(text: Seq<u8>) -> bool {
    text.len() % 2 == 0 && forall|i: int| 0 <= i < text.len() ==> hex_value(#[trigger] text[i]) is Some
}

/// The byte that the pair of hex digits numbered `i` stands for.
pub open spec fn hex_pair(text: Seq<u8>, i: int) -> u8 {
    (hex_value(text[2 * i])->0 * 16 + hex_value(text[2 * i + 1])->0) as u8
}

/// The bytes that a text of hex digits stands for.
pub open spec fn hex_decoded(text: Seq<u8>) -> Option<Seq<u8>> {
    if is_hex(text) {
        Some(Seq::new(text.len() / 2, |i: int| hex_pair(text, i)))
    } else {
        None
    }
}

fn hex_char(n: u8) -> (r: char)
    requires
        n < 16,
    ensures
        r == hex_digit(n as int),
{
    if n < 10 {
        (0x30 + n) as char
    } else {
        (0x57 + n) as char
    }
}

/// `data` in lowercase hex.
pub fn hex(data: &[u8]) -> (r: String)
    ensures
        r@ == hex_of(data@),
{
    let mut out = String::new();
    let mut i: usize = 0;
    while i < data.len()
        invariant
            i <= data@.len(),
            out@ == hex_of(data@.take(i as int)),
        decreases data.len() - i,
    {
        out.push(hex_char(data[i] / 16));
        out.push(hex_char(data[i] % 16));
        assert(out@ == hex_of(data@.take(i + 1)));
        i = i + 1;
    }
    assert(data@.take(i as int) == data@);
    out
}

fn hex_number(b: u8) -> (r: Option<u8>)
    ensures
        match r {
            Some(n) => hex_value(b) == Some(n as int) && n < 16,
            None => hex_value(b) is None,
        },
{
    if 0x30 <= b && b <= 0x39 {
        Some(b - 0x30)
    } else if 0x61 <= b && b <= 0x66 {
        Some(b - 0x57)
    } else if 0x41 <= b && b <= 0x46 {
        Some(b - 0x37)
    } else {
        None
    }
}

/// Decodes lowercase or uppercase hex, rejecting anything else. It goes by
/// bytes: a hex digit is an ASCII byte or it is not a hex digit.
pub fn hex_decode(s: &str) -> (r: Option<Vec<u8>>)
    ensures
        match r {
            Some(data) => hex_decoded(encode_utf8(s@)) == Some(data@),
            None => hex_decoded(encode_utf8(s@)) is None,
        },
{
    let bytes = s.as_bytes();
    if bytes.len() % 2 != 0 {
        return None;
    }
    let mut out: Vec<u8> = Vec::new();
    let mut i: usize = 0;
    while i < bytes.len()
        invariant
            bytes@ == encode_utf8(s@),
            bytes@.len() % 2 == 0,
            i <= bytes@.len(),
            i % 2 == 0,
            forall|k: int| 0 <= k < i ==> hex_value(#[trigger] bytes@[k]) is Some,
            out@ == Seq::new((i / 2) as nat, |k: int| hex_pair(bytes@, k)),
        decreases bytes.len() - i,
    {
        match (hex_number(bytes[i]), hex_number(bytes[i + 1])) {
            (Some(high), Some(low)) => {
                out.push(high * 16 + low);
            },
            _ => {
                assert(hex_value(bytes@[i as int]) is None || hex_value(bytes@[i + 1]) is None);
                return None;
            },
        }
        i = i + 2;
    }
    Some(out)
}

/// Hex that was written is read back as it was.
pub proof fn hex_is_read_back(data: Seq<u8>)
    ensures
        hex_decoded(encode_utf8(hex_of(data))) == Some(data),
{
    let text = hex_of(data);
    assert(is_ascii_chars(text)) by {
        assert forall|i: int| 0 <= i < text.len() implies 0 <= text[i] as u32 && text[i] as u32 <= 127 by {
            assert(text[i] == hex_digit(
                if i % 2 == 0 { data[i / 2] / 16 } else { data[i / 2] % 16 } as int,
            ));
        }
    }
    is_ascii_chars_encode_utf8(text);
    let bytes = encode_utf8(text);
    assert(bytes.len() == 2 * data.len());
    assert forall|i: int| 0 <= i < bytes.len() implies hex_value(#[trigger] bytes[i]) == Some(
        if i % 2 == 0 { data[i / 2] / 16 } else { data[i / 2] % 16 } as int,
    ) by {
        assert(bytes[i] == text[i] as u8);
    }
    assert(is_hex(bytes));
    let back = hex_decoded(bytes)->0;
    assert forall|i: int| 0 <= i < data.len() implies back[i] == data[i] by {
        assert(hex_value(bytes[2 * i]) == Some((data[i] / 16) as int));
        assert(hex_value(bytes[2 * i + 1]) == Some((data[i] % 16) as int));
    }
    assert(back == data);
}

/// An ASCII capital as its small letter; any other character as it is.
pub open spec fn lower_of(c: char) -> char {
    if 'A' <= c && c <= 'Z' {
        (c as u8 + 0x20) as u8 as char
    } else {
        c
    }
}

/// A small ASCII letter or a digit.
pub open spec fn is_slug_char(c: char) -> bool {
    ('a' <= c && c <= 'z') || ('0' <= c && c <= '9')
}

/// The ASCII letters and digits of `s` in lowercase, with one dash for every
/// run of other characters that follows one of them.
pub open spec fn squeezed(s: Seq<char>) -> Seq<char>
    decreases s.len(),
{
    if s.len() == 0 {
        Seq::empty()
    } else {
        let before = squeezed(s.drop_last());
        let c = lower_of(s.last());
        if is_slug_char(c) {
            before.push(c)
        } else if before.len() > 0 && before.last() != '-' {
            before.push('-')
        } else {
            before
        }
    }
}

/// The longest a slug gets.
pub const MAX_SLUG: usize = 24;

/// The first `MAX_SLUG` characters of the squeezed name, less a dash at their
/// end; `device` if nothing is left.
pub open spec fn slug_of(s: Seq<char>) -> Seq<char> {
    let all = squeezed(s);
    let cut = if all.len() > MAX_SLUG { all.take(MAX_SLUG as int) } else { all };
    let slug = if cut.len() > 0 && cut.last() == '-' { cut.drop_last() } else { cut };
    if slug.len() == 0 { "device"@ } else { slug }
}

proof fn lemma_squeezed_grows(s: Seq<char>, n: int)
    requires
        0 <= n <= s.len(),
    ensures
        squeezed(s.take(n)).is_prefix_of(squeezed(s)),
    decreases s.len() - n,
{
    if n == s.len() {
        assert(s.take(n) == s);
    } else {
        assert(s.take(n + 1).drop_last() == s.take(n));
        assert(squeezed(s.take(n)).is_prefix_of(squeezed(s.take(n + 1))));
        lemma_squeezed_grows(s, n + 1);
    }
}

proof fn lemma_squeezed_is_clean(s: Seq<char>)
    ensures
        squeezed(s).len() > 0 ==> squeezed(s)[0] != '-',
        forall|i: int|
            0 <= i < squeezed(s).len() ==> is_slug_char(#[trigger] squeezed(s)[i]) || squeezed(s)[i]
                == '-',
        forall|i: int|
            0 < i < squeezed(s).len() ==> squeezed(s)[i - 1] != '-' || #[trigger] squeezed(s)[i]
                != '-',
    decreases s.len(),
{
    if s.len() > 0 {
        lemma_squeezed_is_clean(s.drop_last());
    }
}

/// A slug is never empty, at most `MAX_SLUG` characters long, and made of small
/// ASCII letters, digits and dashes, with no dash at either end and no two in a
/// row.
pub proof fn slugs_are_clean(s: Seq<char>)
    ensures
        1 <= slug_of(s).len() <= MAX_SLUG,
        forall|i: int|
            0 <= i < slug_of(s).len() ==> is_slug_char(#[trigger] slug_of(s)[i]) || slug_of(s)[i]
                == '-',
        slug_of(s)[0] != '-',
        slug_of(s).last() != '-',
        forall|i: int|
            0 < i < slug_of(s).len() ==> slug_of(s)[i - 1] != '-' || #[trigger] slug_of(s)[i] != '-',
{
    lemma_squeezed_is_clean(s);
    reveal_strlit("device");
    let all = squeezed(s);
    let cut = if all.len() > MAX_SLUG { all.take(MAX_SLUG as int) } else { all };
    assert forall|i: int| 0 < i < cut.len() implies cut[i - 1] != '-' || #[trigger] cut[i]
        != '-' by {
        assert(all[i] == cut[i]);
    }
    let slug = if cut.len() > 0 && cut.last() == '-' { cut.drop_last() } else { cut };
    if slug.len() > 0 && cut.last() == '-' {
        assert(cut[cut.len() - 1] == '-');
    }
    assert forall|i: int| 0 <= i < slug.len() implies is_slug_char(#[trigger] slug[i]) || slug[i]
        == '-' by {
        assert(all[i] == slug[i]);
    }
    assert forall|i: int| 0 < i < slug.len() implies slug[i - 1] != '-' || #[trigger] slug[i] != '-' by {
        assert(cut[i] == slug[i]);
    }
}

/// An ASCII capital as its small letter.
pub fn lower(c: char) -> (r: char)
    ensures
        r == lower_of(c),
{
    if 'A' <= c && c <= 'Z' {
        (c as u8 + 0x20) as char
    } else {
        c
    }
}

/// The slug of a device's display name for the comment field of its key:
/// lowercase letters, digits and dashes only, never empty, capped so that the
/// line stays scannable.
pub fn device_slug(display: &str) -> (r: String)
    ensures
        r@ == slug_of(display@),
{
    let name = chars_of(display);
    let mut slug: Vec<char> = Vec::new();
    let mut last_dash = true;
    let mut i: usize = 0;
    while i < name.len() && slug.len() < MAX_SLUG
        invariant
            name@ == display@,
            i <= name@.len(),
            slug@ == squeezed(name@.take(i as int)),
            slug@.len() <= MAX_SLUG,
            last_dash == (slug@.len() == 0 || slug@.last() == '-'),
        decreases name.len() - i,
    {
        let c = lower(name[i]);
        assert(name@.take(i + 1).drop_last() == name@.take(i as int));
        if ('a' <= c && c <= 'z') || ('0' <= c && c <= '9') {
            slug.push(c);
            last_dash = false;
        } else if !last_dash {
            slug.push('-');
            last_dash = true;
        }
        i = i + 1;
    }
    proof {
        lemma_squeezed_grows(name@, i as int);
        if i == name@.len() {
            assert(name@.take(i as int) == name@);
        } else {
            assert(slug@.len() == MAX_SLUG);
        }
        let all = squeezed(display@);
        if all.len() > MAX_SLUG {
            assert(slug@ == all.take(MAX_SLUG as int));
        } else {
            assert(slug@ == all);
        }
    }
    let mut end: usize = slug.len();
    if end > 0 && slug[end - 1] == '-' {
        end = end - 1;
        assert(slug@.subrange(0, end as int) == slug@.drop_last());
    } else {
        assert(slug@.subrange(0, end as int) == slug@);
    }
    if end == 0 {
        "device".to_owned()
    } else {
        text_of(&slug, 0, end)
    }
}

/// A line that reports success.
pub open spec fn ok_of(msg: Seq<char>, styled: bool) -> Seq<char> {
    (if styled { "\x1b[32m✓\x1b[0m "@ } else { "+ "@ }) + msg
}

/// A line said in passing.
pub open spec fn note_of(msg: Seq<char>, styled: bool) -> Seq<char> {
    if styled { "\x1b[2m"@ + msg + "\x1b[0m"@ } else { msg }
}

/// A line that warns.
pub open spec fn warn_of(msg: Seq<char>, styled: bool) -> Seq<char> {
    (if styled { "\x1b[33m!\x1b[0m "@ } else { "! "@ }) + msg
}

/// A line that says what is being waited for.
pub open spec fn wait_of(msg: Seq<char>, styled: bool) -> Seq<char> {
    (if styled { "\x1b[33m◌\x1b[0m "@ } else { "~ "@ }) + msg
}

/// A line that reports success.
pub fn ok(msg: &str, styled: bool) -> (r: String)
    ensures
        r@ == ok_of(msg@, styled),
{
    if styled {
        cat("\x1b[32m✓\x1b[0m ", msg)
    } else {
        cat("+ ", msg)
    }
}

/// A line said in passing.
pub fn note(msg: &str, styled: bool) -> (r: String)
    ensures
        r@ == note_of(msg@, styled),
{
    if styled {
        cat3("\x1b[2m", msg, "\x1b[0m")
    } else {
        msg.to_owned()
    }
}

/// A line that warns.
pub fn warn(msg: &str, styled: bool) -> (r: String)
    ensures
        r@ == warn_of(msg@, styled),
{
    if styled {
        cat("\x1b[33m!\x1b[0m ", msg)
    } else {
        cat("! ", msg)
    }
}

/// A line that says what is being waited for.
pub fn wait(msg: &str, styled: bool) -> (r: String)
    ensures
        r@ == wait_of(msg@, styled),
{
    if styled {
        cat("\x1b[33m◌\x1b[0m ", msg)
    } else {
        cat("~ ", msg)
    }
}

/// Hex has two characters for each byte: that of its upper half and that of its
/// lower half.
pub proof fn hex_has_a_digit_for_each_half(data: Seq<u8>, i: int)
    requires
        0 <= i < data.len(),
    ensures
        hex_of(data).len() == 2 * data.len(),
        hex_of(data)[2 * i] == "0123456789abcdef"@[data[i] as int / 16],
        hex_of(data)[2 * i + 1] == "0123456789abcdef"@[data[i] as int % 16],
{
    reveal_strlit("0123456789abcdef");
    lemma_hex_digit((data[i] / 16) as int);
    lemma_hex_digit((data[i] % 16) as int);
}

proof fn lemma_hex_digit(n: int)
    requires
        0 <= n < 16,
    ensures
        hex_digit(n) == "0123456789abcdef"@[n],
{
    reveal_strlit("0123456789abcdef");
    if n == 0 || n == 1 || n == 2 || n == 3 || n == 4 || n == 5 || n == 6 || n == 7 {
    } else if n == 8 || n == 9 || n == 10 || n == 11 || n == 12 {
    } else {
        assert(n == 13 || n == 14 || n == 15);
    }
}

/// Whether a byte is the character of a hex digit, small or capital.
pub open spec fn writes_digit(b: u8, n: int) -> bool {
    b == "0123456789abcdef"@[n] as u8 || b == "0123456789ABCDEF"@[n] as u8
}

/// Hex is read whatever the case of its letters.
pub proof fn hex_is_read_in_either_case(text: Seq<u8>, data: Seq<u8>)
    requires
        text.len() == 2 * data.len(),
        forall|i: int|
            0 <= i < data.len() ==> writes_digit(text[2 * i], (#[trigger] data[i]) as int / 16)
                && writes_digit(text[2 * i + 1], data[i] as int % 16),
    ensures
        hex_decoded(text) == Some(data),
{
    assert forall|k: int| 0 <= k < text.len() implies hex_value(#[trigger] text[k]) is Some by {
        let i = k / 2;
        assert(writes_digit(text[2 * i], data[i] as int / 16));
        lemma_hex_value(data[i] as int / 16);
        lemma_hex_value(data[i] as int % 16);
        assert(2 * i == k || 2 * i + 1 == k);
    }
    let back = hex_decoded(text)->0;
    assert forall|i: int| 0 <= i < data.len() implies back[i] == data[i] by {
        assert(writes_digit(text[2 * i], data[i] as int / 16));
        lemma_hex_value(data[i] as int / 16);
        lemma_hex_value(data[i] as int % 16);
        assert(back[i] == hex_pair(text, i));
    }
    assert(back =~= data);
}

/// Nothing but hex is read: two digits for each byte.
pub proof fn only_hex_is_read(text: Seq<u8>, i: int)
    requires
        hex_decoded(text) is Some,
        0 <= i < hex_decoded(text)->0.len(),
    ensures
        ({
            let data = hex_decoded(text)->0;
            &&& text.len() == 2 * data.len()
            &&& writes_digit(text[2 * i], data[i] as int / 16)
            &&& writes_digit(text[2 * i + 1], data[i] as int % 16)
        }),
{
    let data = hex_decoded(text)->0;
    lemma_hex_byte(text[2 * i]);
    lemma_hex_byte(text[2 * i + 1]);
    let high = hex_value(text[2 * i])->0;
    let low = hex_value(text[2 * i + 1])->0;
    assert(data[i] == hex_pair(text, i));
    assert(data[i] as int == high * 16 + low);
}

proof fn lemma_hex_value(n: int)
    requires
        0 <= n < 16,
    ensures
        hex_value("0123456789abcdef"@[n] as u8) == Some(n),
        hex_value("0123456789ABCDEF"@[n] as u8) == Some(n),
{
    reveal_strlit("0123456789abcdef");
    reveal_strlit("0123456789ABCDEF");
    if n == 0 || n == 1 || n == 2 || n == 3 || n == 4 || n == 5 || n == 6 || n == 7 {
    } else if n == 8 || n == 9 || n == 10 || n == 11 || n == 12 {
    } else {
        assert(n == 13 || n == 14 || n == 15);
    }
}

proof fn lemma_hex_byte(b: u8)
    ensures
        hex_value(b) matches Some(n) ==> 0 <= n < 16 && (b == "0123456789abcdef"@[n] as u8 || b
            == "0123456789ABCDEF"@[n] as u8),
{
    if hex_value(b) is Some {
        let n = hex_value(b)->0;
        assert(0 <= n < 16);
        reveal_strlit("0123456789abcdef");
        reveal_strlit("0123456789ABCDEF");
        if n == 0 || n == 1 || n == 2 || n == 3 || n == 4 || n == 5 || n == 6 || n == 7 {
        } else if n == 8 || n == 9 || n == 10 || n == 11 || n == 12 {
        } else {
            assert(n == 13 || n == 14 || n == 15);
        }
    }
}

/// A line that is printed holds the whole message, and what stands around it is
/// the same for every message.
pub proof fn printed_lines_hold_the_whole_message(msg: Seq<char>, styled: bool)
    ensures
        ok_of(msg, styled) == ok_of(Seq::empty(), styled) + msg,
        warn_of(msg, styled) == warn_of(Seq::empty(), styled) + msg,
        wait_of(msg, styled) == wait_of(Seq::empty(), styled) + msg,
        note_of(msg, false) == msg,
        note_of(msg, true) == "\x1b[2m"@ + msg + "\x1b[0m"@,
        ok_of(Seq::empty(), styled) == (if styled { "\x1b[32m✓\x1b[0m "@ } else { "+ "@ }),
        warn_of(Seq::empty(), styled) == (if styled { "\x1b[33m!\x1b[0m "@ } else { "! "@ }),
        wait_of(Seq::empty(), styled) == (if styled { "\x1b[33m◌\x1b[0m "@ } else { "~ "@ }),
{
    let empty = Seq::<char>::empty();
    assert(ok_of(empty, styled) =~= (if styled { "\x1b[32m✓\x1b[0m "@ } else { "+ "@ }));
    assert(warn_of(empty, styled) =~= (if styled { "\x1b[33m!\x1b[0m "@ } else { "! "@ }));
    assert(wait_of(empty, styled) =~= (if styled { "\x1b[33m◌\x1b[0m "@ } else { "~ "@ }));
}

/// Whether a character is an ASCII letter or digit.
pub open spec fn is_alphanumeric(c: char) -> bool {
    ('a' <= c && c <= 'z') || ('A' <= c && c <= 'Z') || ('0' <= c && c <= '9')
}

/// Capitals are made small, and no other character is changed.
pub proof fn capitals_are_made_small(c: char)
    ensures
        is_slug_char(lower_of(c)) == is_alphanumeric(c),
        'A' <= c && c <= 'Z' ==> lower_of(c) as int == c as int + 32,
        !('A' <= c && c <= 'Z') ==> lower_of(c) == c,
        is_slug_char(lower_of(c)) ==> lower_of(c) != '-',
{
}

/// A text with its ASCII capitals made small.
pub open spec fn lowered(s: Seq<char>) -> Seq<char> {
    Seq::new(s.len(), |i: int| lower_of(s[i]))
}

proof fn lemma_squeezed_word(a: Seq<char>, w: Seq<char>)
    requires
        forall|i: int| 0 <= i < w.len() ==> is_alphanumeric(#[trigger] w[i]),
    ensures
        squeezed(a + w) == squeezed(a) + lowered(w),
    decreases w.len(),
{
    if w.len() == 0 {
        assert(a + w =~= a);
        assert(squeezed(a) + lowered(w) =~= squeezed(a));
    } else {
        assert((a + w).drop_last() =~= a + w.drop_last());
        assert(is_alphanumeric(w[w.len() - 1]));
        capitals_are_made_small(w.last());
        assert forall|i: int| 0 <= i < w.drop_last().len() implies is_alphanumeric(
            #[trigger] w.drop_last()[i],
        ) by {
            assert(is_alphanumeric(w[i]));
        }
        lemma_squeezed_word(a, w.drop_last());
        assert(squeezed(a + w) =~= squeezed(a) + lowered(w));
    }
}

proof fn lemma_squeezed_gap(a: Seq<char>, gap: Seq<char>)
    requires
        forall|i: int| 0 <= i < gap.len() ==> !is_alphanumeric(#[trigger] gap[i]),
    ensures
        squeezed(a + gap) == (if gap.len() == 0 || squeezed(a).len() == 0 || squeezed(a).last()
            == '-' {
            squeezed(a)
        } else {
            squeezed(a).push('-')
        }),
    decreases gap.len(),
{
    if gap.len() == 0 {
        assert(a + gap =~= a);
    } else {
        assert((a + gap).drop_last() =~= a + gap.drop_last());
        assert(!is_alphanumeric(gap[gap.len() - 1]));
        capitals_are_made_small(gap.last());
        assert forall|i: int| 0 <= i < gap.drop_last().len() implies !is_alphanumeric(
            #[trigger] gap.drop_last()[i],
        ) by {
            assert(!is_alphanumeric(gap[i]));
        }
        lemma_squeezed_gap(a, gap.drop_last());
    }
}

/// What a slug makes of a name, word by word: a name without an ASCII letter or
/// digit is `device`; of a word all its characters stay, made small; a gap
/// before the first word adds nothing; and a gap and another word add one dash
/// and that word, as far as 24 characters go.
pub proof fn slugs_go_word_by_word(
    before: Seq<char>,
    gap: Seq<char>,
    w: Seq<char>,
    trailing: Seq<char>,
)
    requires
        forall|i: int| 0 <= i < gap.len() ==> !is_alphanumeric(#[trigger] gap[i]),
        forall|i: int| 0 <= i < trailing.len() ==> !is_alphanumeric(#[trigger] trailing[i]),
        w.len() > 0,
        forall|i: int| 0 <= i < w.len() ==> is_alphanumeric(#[trigger] w[i]),
        before.len() > 0 ==> is_alphanumeric(before[before.len() - 1]) && gap.len() > 0,
    ensures
        slug_of(gap) == "device"@,
        slug_of(before + gap + w + trailing) == slug_of(before + gap + w),
        before.len() == 0 ==> slug_of(before + gap + w) == (if w.len() > 24 {
            lowered(w.take(24))
        } else {
            lowered(w)
        }),
        before.len() > 0 && slug_of(before).len() >= 23 ==> slug_of(before + gap + w) == slug_of(
            before,
        ),
        before.len() > 0 && slug_of(before).len() < 23 ==> slug_of(before + gap + w) == (if slug_of(
            before,
        ).len() + 1 + w.len() > 24 {
            (slug_of(before) + seq!['-'] + lowered(w)).take(24)
        } else {
            slug_of(before) + seq!['-'] + lowered(w)
        }),
{
    let empty = Seq::<char>::empty();
    assert(squeezed(empty) =~= empty);
    lemma_squeezed_gap(empty, gap);
    assert(empty + gap =~= gap);
    let all = squeezed(before);
    let whole = before + gap + w;
    lemma_squeezed_gap(before, gap);
    lemma_squeezed_word(before + gap, w);
    lemma_squeezed_gap(whole, trailing);
    lemma_squeezed_is_clean(before);
    lemma_squeezed_is_clean(whole);
    lemma_squeezed_is_clean(whole + trailing);
    assert(is_alphanumeric(w[w.len() - 1]));
    capitals_are_made_small(w.last());
    assert(lowered(w).last() == lower_of(w.last()));
    let now = squeezed(whole);
    assert(now.last() != '-');
    lemma_slug_of_cut(whole + trailing, whole);
    if before.len() == 0 {
        assert(all =~= empty);
        assert(before + gap =~= gap);
        assert(now =~= lowered(w));
        if w.len() > 24 {
            assert(now.take(24) =~= lowered(w.take(24)));
            assert(is_alphanumeric(w[23]));
            capitals_are_made_small(w[23]);
        }
    } else {
        let last = before.last();
        capitals_are_made_small(last);
        assert(is_alphanumeric(before[before.len() - 1]));
        assert(all.len() > 0 && all.last() == lower_of(last));
        assert(now =~= all + seq!['-'] + lowered(w));
        if all.len() <= 24 {
            if all.len() == 24 {
                assert(now.take(24) =~= all);
            } else if all.len() == 23 {
                assert(now.take(24) =~= all.push('-'));
                assert(all.push('-').drop_last() =~= all);
            } else {
                assert(slug_of(before) == all);
                if now.len() > 24 {
                    let k = 23 - all.len() - 1;
                    assert(is_alphanumeric(w[k]));
                    capitals_are_made_small(w[k]);
                    assert(now[23] == lowered(w)[k]);
                    assert(now.take(24).last() != '-');
                }
            }
        } else {
            assert(now.take(24) =~= all.take(24));
            assert(slug_of(before).len() >= 23);
        }
    }
}

proof fn lemma_slug_of_cut(longer: Seq<char>, s: Seq<char>)
    requires
        squeezed(s).len() > 0,
        squeezed(s).last() != '-',
        squeezed(longer) == squeezed(s) || squeezed(longer) == squeezed(s).push('-'),
    ensures
        slug_of(longer) == slug_of(s),
{
    let a = squeezed(s);
    let b = squeezed(longer);
    if b == a.push('-') {
        assert(b.drop_last() =~= a);
        if b.len() > 24 {
            assert(b.take(24) =~= a.take(24));
            assert(a.take(a.len() as int) =~= a);
        }
    }
}

/// Whatever is a third shorter than memory has a base64 form.
pub proof fn base64_forms_fit_in_memory(len: nat)
    requires
        4 * len + 12 <= 3 * isize::MAX,
    ensures
        b64_fits(len),
{
}

} // verus!
