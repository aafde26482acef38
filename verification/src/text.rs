//! Text as a sequence of characters: the splitting, trimming and joining that
//! the rest of the crate builds on.

use vstd::prelude::*;
use vstd::string::*;
use vstd::utf8::*;

verus! {

/// `String::push` appends one character and changes nothing else.
pub assume_specification[ String::push ](s: &mut String, c: char)
    ensures
        final(s)@ == old(s)@.push(c),
;

/// The characters with Unicode's `White_Space` property.
pub open spec fn is_white(c: char) -> bool {
    let u = c as u32;
    ||| 0x09 <= u <= 0x0d
    ||| u == 0x20
    ||| u == 0x85
    ||| u == 0xa0
    ||| u == 0x1680
    ||| 0x2000 <= u <= 0x200a
    ||| u == 0x2028
    ||| u == 0x2029
    ||| u == 0x202f
    ||| u == 0x205f
    ||| u == 0x3000
}

/// The characters of Unicode's general category `Cc`.
pub open spec fn is_control(c: char) -> bool {
    c as u32 <= 0x1f || 0x7f <= c as u32 <= 0x9f
}

/// Whether `c` is white space.
pub fn white(c: char) -> (r: bool)
    ensures
        r == is_white(c),
{
    let u: u32 = c as u32;
    (0x09 <= u && u <= 0x0d) || u == 0x20 || u == 0x85 || u == 0xa0 || u == 0x1680 || (0x2000 <= u
        && u <= 0x200a) || u == 0x2028 || u == 0x2029 || u == 0x202f || u == 0x205f || u == 0x3000
}

/// Whether `c` is a control character.
pub fn control(c: char) -> (r: bool)
    ensures
        r == is_control(c),
{
    let u: u32 = c as u32;
    u <= 0x1f || (0x7f <= u && u <= 0x9f)
}

/// `s` without its leading white space.
pub open spec fn trim_start_of(s: Seq<char>) -> Seq<char>
    decreases s.len(),
{
    if s.len() > 0 && is_white(s[0]) {
        trim_start_of(s.drop_first())
    } else {
        s
    }
}

/// `s` without its trailing white space.
pub open spec fn trim_end_of(s: Seq<char>) -> Seq<char>
    decreases s.len(),
{
    if s.len() > 0 && is_white(s.last()) {
        trim_end_of(s.drop_last())
    } else {
        s
    }
}

/// `s` without white space at either end.
pub open spec fn trim_of(s: Seq<char>) -> Seq<char> {
    trim_end_of(trim_start_of(s))
}

/// How many characters stand before the first white space of `s`.
pub open spec fn word_len(s: Seq<char>) -> nat
    decreases s.len(),
{
    if s.len() == 0 || is_white(s[0]) {
        0
    } else {
        1 + word_len(s.drop_first())
    }
}

/// `word_len` counts exactly the characters before the first white space.
pub proof fn lemma_word_len(s: Seq<char>)
    ensures
        word_len(s) <= s.len(),
        forall|i: int| 0 <= i < word_len(s) ==> !is_white(s[i]),
        word_len(s) < s.len() ==> is_white(s[word_len(s) as int]),
    decreases s.len(),
{
    if s.len() > 0 && !is_white(s[0]) {
        let rest = s.drop_first();
        lemma_word_len(rest);
        assert forall|i: int| 0 <= i < word_len(s) implies !is_white(s[i]) by {
            if i > 0 {
                assert(s[i] == rest[i - 1]);
            }
        }
        if word_len(s) < s.len() {
            assert(s[word_len(s) as int] == rest[word_len(rest) as int]);
        }
    }
}

/// The maximal runs of characters that are not white space, in order.
pub open spec fn fields_of(s: Seq<char>) -> Seq<Seq<char>>
    decreases s.len(),
{
    if s.len() == 0 {
        seq![]
    } else if is_white(s[0]) {
        fields_of(s.drop_first())
    } else {
        let n = word_len(s) as int;
        proof {
            lemma_word_len(s);
        }
        seq![s.take(n)] + fields_of(s.skip(n))
    }
}

/// How many characters stand before the first line feed of `s`.
pub open spec fn line_len(s: Seq<char>) -> nat
    decreases s.len(),
{
    if s.len() == 0 || s[0] == '\n' {
        0
    } else {
        1 + line_len(s.drop_first())
    }
}

/// `line_len` counts exactly the characters before the first line feed.
pub proof fn lemma_line_len(s: Seq<char>)
    ensures
        line_len(s) <= s.len(),
        forall|i: int| 0 <= i < line_len(s) ==> s[i] != '\n',
        line_len(s) < s.len() ==> s[line_len(s) as int] == '\n',
    decreases s.len(),
{
    if s.len() > 0 && s[0] != '\n' {
        let rest = s.drop_first();
        lemma_line_len(rest);
        assert forall|i: int| 0 <= i < line_len(s) implies s[i] != '\n' by {
            if i > 0 {
                assert(s[i] == rest[i - 1]);
            }
        }
        if line_len(s) < s.len() {
            assert(s[line_len(s) as int] == rest[line_len(rest) as int]);
        }
    }
}

/// `s` without one carriage return at its end.
pub open spec fn chomp_cr(s: Seq<char>) -> Seq<char> {
    if s.len() > 0 && s.last() == '\r' {
        s.drop_last()
    } else {
        s
    }
}

/// The lines of `s`. A line ends at a line feed, which is not part of it, and
/// neither is a carriage return right before that line feed. The last line
/// need not be terminated.
pub open spec fn lines_of(s: Seq<char>) -> Seq<Seq<char>>
    decreases s.len(),
{
    if s.len() == 0 {
        seq![]
    } else {
        let n = line_len(s) as int;
        proof {
            lemma_line_len(s);
        }
        if n < s.len() {
            seq![chomp_cr(s.take(n))] + lines_of(s.skip(n + 1))
        } else {
            seq![s]
        }
    }
}

/// The parts one after another, `sep` between each two.
pub open spec fn join_of(parts: Seq<Seq<char>>, sep: Seq<char>) -> Seq<char>
    decreases parts.len(),
{
    if parts.len() == 0 {
        seq![]
    } else if parts.len() == 1 {
        parts[0]
    } else {
        join_of(parts.drop_last(), sep) + sep + parts.last()
    }
}

/// What each string of a list reads.
pub open spec fn views(list: Seq<String>) -> Seq<Seq<char>> {
    Seq::new(list.len(), |i: int| list[i]@)
}

/// The characters of `s`.
pub fn chars_of(s: &str) -> (r: Vec<char>)
    ensures
        r@ == s@,
{
    let mut out: Vec<char> = Vec::new();
    for c in it: s.chars()
        invariant
            out@ == s@.take(it.index()),
            it.seq() == s@,
    {
        out.push(c);
        assert(s@.take(it.index() + 1) == s@.take(it.index()).push(s@[it.index()]));
    }
    assert(s@.take(s@.len() as int) == s@);
    out
}

/// The string that reads `chars`, from `from` up to `to`.
pub fn text_of(chars: &Vec<char>, from: usize, to: usize) -> (r: String)
    requires
        from <= to <= chars@.len(),
    ensures
        r@ == chars@.subrange(from as int, to as int),
{
    let mut out = String::new();
    let mut i: usize = from;
    while i < to
        invariant
            from <= i <= to <= chars@.len(),
            out@ == chars@.subrange(from as int, i as int),
        decreases to - i,
    {
        out.push(chars[i]);
        i = i + 1;
    }
    out
}

/// `word_len` is the one count with these properties.
proof fn lemma_word_len_is(s: Seq<char>, n: int)
    requires
        0 <= n <= s.len(),
        forall|i: int| 0 <= i < n ==> !is_white(s[i]),
        n < s.len() ==> is_white(s[n]),
    ensures
        word_len(s) == n,
{
    lemma_word_len(s);
    if word_len(s) < n {
        assert(is_white(s[word_len(s) as int]));
    }
}

/// `line_len` is the one count with these properties.
proof fn lemma_line_len_is(s: Seq<char>, n: int)
    requires
        0 <= n <= s.len(),
        forall|i: int| 0 <= i < n ==> s[i] != '\n',
        n < s.len() ==> s[n] == '\n',
    ensures
        line_len(s) == n,
{
    lemma_line_len(s);
    if line_len(s) < n {
        assert(s[line_len(s) as int] == '\n');
    }
}

/// The index of the first character of `chars`, from `from` on, that is not
/// white space.
fn skip_white(chars: &Vec<char>, from: usize) -> (r: usize)
    requires
        from <= chars@.len(),
    ensures
        from <= r <= chars@.len(),
        trim_start_of(chars@.skip(from as int)) == chars@.skip(r as int),
        r < chars@.len() ==> !is_white(chars@[r as int]),
        fields_of(chars@.skip(from as int)) == fields_of(chars@.skip(r as int)),
{
    let mut i: usize = from;
    while i < chars.len() && white(chars[i])
        invariant
            from <= i <= chars@.len(),
            trim_start_of(chars@.skip(from as int)) == trim_start_of(chars@.skip(i as int)),
            fields_of(chars@.skip(from as int)) == fields_of(chars@.skip(i as int)),
        decreases chars@.len() - i,
    {
        assert(chars@.skip(i as int).drop_first() == chars@.skip(i + 1));
        i = i + 1;
    }
    i
}

/// The index of the first white space of `chars`, from `from` on.
fn skip_word(chars: &Vec<char>, from: usize) -> (r: usize)
    requires
        from <= chars@.len(),
    ensures
        from <= r <= chars@.len(),
        r - from == word_len(chars@.skip(from as int)),
{
    let mut i: usize = from;
    while i < chars.len() && !white(chars[i])
        invariant
            from <= i <= chars@.len(),
            forall|j: int| from <= j < i ==> !is_white(#[trigger] chars@[j]),
        decreases chars@.len() - i,
    {
        i = i + 1;
    }
    proof {
        lemma_word_len_is(chars@.skip(from as int), i - from);
    }
    i
}

/// The index of the first line feed of `chars`, from `from` on.
fn skip_line(chars: &Vec<char>, from: usize) -> (r: usize)
    requires
        from <= chars@.len(),
    ensures
        from <= r <= chars@.len(),
        r - from == line_len(chars@.skip(from as int)),
{
    let mut i: usize = from;
    while i < chars.len() && chars[i] != '\n'
        invariant
            from <= i <= chars@.len(),
            forall|j: int| from <= j < i ==> #[trigger] chars@[j] != '\n',
        decreases chars@.len() - i,
    {
        i = i + 1;
    }
    proof {
        lemma_line_len_is(chars@.skip(from as int), i - from);
    }
    i
}

/// One past the last character of `chars` before `to` that is not white space.
fn skip_white_back(chars: &Vec<char>, from: usize, to: usize) -> (r: usize)
    requires
        from <= to <= chars@.len(),
    ensures
        from <= r <= to,
        trim_end_of(chars@.subrange(from as int, to as int)) == chars@.subrange(
            from as int,
            r as int,
        ),
{
    let mut i: usize = to;
    while i > from && white(chars[i - 1])
        invariant
            from <= i <= to <= chars@.len(),
            trim_end_of(chars@.subrange(from as int, to as int)) == trim_end_of(
                chars@.subrange(from as int, i as int),
            ),
        decreases i,
    {
        assert(chars@.subrange(from as int, i as int).drop_last() == chars@.subrange(
            from as int,
            i - 1,
        ));
        i = i - 1;
    }
    i
}

/// `s` without white space at either end.
pub fn trim(s: &str) -> (r: String)
    ensures
        r@ == trim_of(s@),
{
    let chars = chars_of(s);
    let from = skip_white(&chars, 0);
    let to = skip_white_back(&chars, from, chars.len());
    assert(chars@.skip(0) == chars@);
    assert(chars@.skip(from as int) == chars@.subrange(from as int, chars@.len() as int));
    text_of(&chars, from, to)
}

/// `s` without leading white space.
pub fn trim_start(s: &str) -> (r: String)
    ensures
        r@ == trim_start_of(s@),
{
    let chars = chars_of(s);
    let from = skip_white(&chars, 0);
    assert(chars@.skip(0) == chars@);
    assert(chars@.skip(from as int) == chars@.subrange(from as int, chars@.len() as int));
    text_of(&chars, from, chars.len())
}

/// The words of `s`, white space between them.
pub fn split_fields(s: &str) -> (r: Vec<String>)
    ensures
        views(r@) == fields_of(s@),
{
    let chars = chars_of(s);
    let mut out: Vec<String> = Vec::new();
    let mut at: usize = 0;
    assert(chars@.skip(0) == chars@);
    assert(views(out@) + fields_of(chars@) == fields_of(chars@));
    while at < chars.len()
        invariant
            at <= chars@.len(),
            views(out@) + fields_of(chars@.skip(at as int)) == fields_of(chars@),
        decreases chars@.len() - at,
    {
        let from = skip_white(&chars, at);
        if from == chars.len() {
            at = from;
        } else {
            let to = skip_word(&chars, from);
            let ghost before = out@;
            let ghost tail = chars@.skip(from as int);
            out.push(text_of(&chars, from, to));
            proof {
                let word = chars@.subrange(from as int, to as int);
                assert(tail.take(to - from) == word);
                assert(tail.skip(to - from) == chars@.skip(to as int));
                assert(to > from) by {
                    lemma_word_len(tail);
                    assert(tail[0] == chars@[from as int]);
                }
                assert(fields_of(tail) == seq![word] + fields_of(chars@.skip(to as int)));
                assert(views(out@) == views(before).push(word));
                assert(views(out@) + fields_of(chars@.skip(to as int)) == views(before)
                    + fields_of(tail));
            }
            at = to;
        }
    }
    assert(chars@.skip(at as int) == Seq::<char>::empty());
    assert(views(out@) + seq![] == views(out@));
    out
}

/// The lines of `s`.
pub fn split_lines(s: &str) -> (r: Vec<String>)
    ensures
        views(r@) == lines_of(s@),
{
    let chars = chars_of(s);
    let mut out: Vec<String> = Vec::new();
    let mut at: usize = 0;
    assert(chars@.skip(0) == chars@);
    assert(views(out@) + lines_of(chars@) == lines_of(chars@));
    while at < chars.len()
        invariant
            at <= chars@.len(),
            views(out@) + lines_of(chars@.skip(at as int)) == lines_of(chars@),
        decreases chars@.len() - at,
    {
        let end = skip_line(&chars, at);
        let ghost before = out@;
        let ghost tail = chars@.skip(at as int);
        if end == chars.len() {
            out.push(text_of(&chars, at, end));
            proof {
                assert(tail == chars@.subrange(at as int, end as int));
                assert(lines_of(tail) == seq![tail]);
                assert(views(out@) == views(before) + seq![tail]);
                assert(chars@.skip(end as int) == Seq::<char>::empty());
                assert(views(out@) + lines_of(chars@.skip(end as int)) == views(before) + lines_of(
                    tail,
                ));
            }
            at = end;
        } else {
            let stop: usize = if end > at && chars[end - 1] == '\r' {
                end - 1
            } else {
                end
            };
            out.push(text_of(&chars, at, stop));
            proof {
                let line = chars@.subrange(at as int, stop as int);
                assert(tail.take(end - at) == chars@.subrange(at as int, end as int));
                assert(chomp_cr(tail.take(end - at)) == line);
                assert(tail.skip(end - at + 1) == chars@.skip(end + 1));
                assert(lines_of(tail) == seq![line] + lines_of(chars@.skip(end + 1)));
                assert(views(out@) == views(before).push(line));
                assert(views(out@) + lines_of(chars@.skip(end + 1)) == views(before) + lines_of(
                    tail,
                ));
            }
            at = end + 1;
        }
    }
    assert(chars@.skip(at as int) == Seq::<char>::empty());
    assert(views(out@) + seq![] == views(out@));
    out
}

/// The strings one after another, `sep` between each two.
pub fn join(parts: &Vec<String>, sep: &str) -> (r: String)
    ensures
        r@ == join_of(views(parts@), sep@),
{
    let mut out = String::new();
    let mut i: usize = 0;
    while i < parts.len()
        invariant
            i <= parts@.len(),
            out@ == join_of(views(parts@).take(i as int), sep@),
        decreases parts@.len() - i,
    {
        let ghost whole = views(parts@);
        if i > 0 {
            out.append(sep);
        }
        out.append(parts[i].as_str());
        proof {
            let longer = whole.take(i + 1);
            assert(longer.drop_last() == whole.take(i as int));
            assert(longer.last() == parts@[i as int]@);
        }
        i = i + 1;
    }
    assert(views(parts@).take(parts@.len() as int) == views(parts@));
    out
}

/// Whether two strings read the same.
pub fn same(a: &str, b: &str) -> (r: bool)
    ensures
        r == (a@ == b@),
{
    let x = chars_of(a);
    let y = chars_of(b);
    if x.len() != y.len() {
        return false;
    }
    let mut i: usize = 0;
    while i < x.len()
        invariant
            i <= x@.len() == y@.len(),
            x@.take(i as int) == y@.take(i as int),
            x@ == a@,
            y@ == b@,
        decreases x@.len() - i,
    {
        if x[i] != y[i] {
            return false;
        }
        assert(x@.take(i + 1) == x@.take(i as int).push(x@[i as int]));
        assert(y@.take(i + 1) == y@.take(i as int).push(y@[i as int]));
        i = i + 1;
    }
    assert(x@.take(i as int) == x@);
    assert(y@.take(i as int) == y@);
    true
}

/// Whether `s` begins with `prefix`.
pub fn begins_with(s: &str, prefix: &str) -> (r: bool)
    ensures
        r == prefix@.is_prefix_of(s@),
{
    let x = chars_of(s);
    let y = chars_of(prefix);
    if y.len() > x.len() {
        return false;
    }
    let mut i: usize = 0;
    while i < y.len()
        invariant
            i <= y@.len() <= x@.len(),
            x@.take(i as int) == y@.take(i as int),
            x@ == s@,
            y@ == prefix@,
        decreases y@.len() - i,
    {
        if x[i] != y[i] {
            assert(x@.subrange(0, y@.len() as int)[i as int] == x@[i as int]);
            return false;
        }
        assert(x@.take(i + 1) == x@.take(i as int).push(x@[i as int]));
        assert(y@.take(i + 1) == y@.take(i as int).push(y@[i as int]));
        i = i + 1;
    }
    assert(y@.take(i as int) == y@);
    assert(x@.take(i as int) == x@.subrange(0, y@.len() as int));
    true
}

/// Calls `String::from_utf8`. Trusted: bytes that are valid UTF-8 become the
/// text they encode, and no others become a text.
#[verifier::external_body]
pub(crate) fn utf8_text(bytes: Vec<u8>) -> (r: Option<String>)
    ensures
        match r {
            Some(s) => valid_utf8(bytes@) && s@ == decode_utf8(bytes@),
            None => !valid_utf8(bytes@),
        },
{
    String::from_utf8(bytes).ok()
}

/// `a` and then `b`.
pub fn cat(a: &str, b: &str) -> (r: String)
    ensures
        r@ == a@ + b@,
{
    let mut out = a.to_owned();
    out.append(b);
    out
}

/// `a`, `b` and then `c`.
pub fn cat3(a: &str, b: &str, c: &str) -> (r: String)
    ensures
        r@ == a@ + b@ + c@,
{
    let mut out = a.to_owned();
    out.append(b);
    out.append(c);
    out
}

/// The character of a decimal digit.
pub open spec fn digit_of(d: nat) -> char {
    (0x30 + d) as u8 as char
}

/// `n` in decimal, without leading zeros.
pub open spec fn decimal_of(n: nat) -> Seq<char>
    decreases n,
{
    if n < 10 {
        seq![digit_of(n)]
    } else {
        decimal_of(n / 10).push(digit_of(n % 10))
    }
}

/// `count` times `c`.
pub open spec fn repeated(c: char, count: nat) -> Seq<char> {
    Seq::new(count, |i: int| c)
}

/// `n` in decimal, with zeros in front up to `width` digits.
pub open spec fn padded_of(n: nat, width: nat) -> Seq<char> {
    let digits = decimal_of(n);
    if digits.len() < width {
        repeated('0', (width - digits.len()) as nat) + digits
    } else {
        digits
    }
}

/// Appends `n` in decimal.
pub fn push_decimal(out: &mut String, n: u64)
    ensures
        final(out)@ == old(out)@ + decimal_of(n as nat),
    decreases n,
{
    if n >= 10 {
        push_decimal(out, n / 10);
    }
    out.push((0x30 + (n % 10) as u8) as char);
    assert(out@ == old(out)@ + decimal_of(n as nat));
}

/// `n` in decimal.
pub fn decimal(n: u64) -> (r: String)
    ensures
        r@ == decimal_of(n as nat),
{
    let mut out = String::new();
    push_decimal(&mut out, n);
    out
}

/// How many digits small numbers take.
pub proof fn lemma_decimal_len(n: nat)
    ensures
        decimal_of(n).len() >= 1,
        n < 10 ==> decimal_of(n).len() == 1,
        n < 100 ==> decimal_of(n).len() <= 2,
        n < 1_000_000 ==> decimal_of(n).len() <= 6,
    decreases n,
{
    reveal_with_fuel(decimal_of, 7);
    if n >= 10 {
        lemma_decimal_len(n / 10);
    }
}

/// Appends `n` in decimal, with zeros in front up to `width` digits.
pub fn push_padded(out: &mut String, n: u64, width: usize)
    ensures
        final(out)@ == old(out)@ + padded_of(n as nat, width as nat),
{
    let digits = decimal(n);
    let count = chars_of(digits.as_str()).len();
    let mut i: usize = count;
    while i < width
        invariant
            count == decimal_of(n as nat).len(),
            count <= i,
            i <= width || i == count,
            out@ == old(out)@ + repeated('0', (i - count) as nat),
        decreases width - i,
    {
        out.push('0');
        assert(repeated('0', (i - count) as nat).push('0') == repeated('0', (i + 1 - count) as nat));
        i = i + 1;
    }
    out.append(digits.as_str());
    assert(out@ == old(out)@ + padded_of(n as nat, width as nat));
}

/// Whether `s` is one word: not empty, and without white space.
pub open spec fn is_word(s: Seq<char>) -> bool {
    s.len() > 0 && forall|i: int| 0 <= i < s.len() ==> !is_white(#[trigger] s[i])
}

/// Whether `s` holds no line feed.
pub open spec fn unbroken(s: Seq<char>) -> bool {
    forall|i: int| 0 <= i < s.len() ==> #[trigger] s[i] != '\n'
}

/// A text with no white space at its ends is trimmed already.
pub proof fn lemma_trim_none(s: Seq<char>)
    requires
        s.len() > 0,
        !is_white(s[0]),
        !is_white(s.last()),
    ensures
        trim_of(s) == s,
{
}

/// White space at the end is trimmed away.
pub proof fn lemma_trim_push(s: Seq<char>, c: char)
    requires
        is_white(c),
    ensures
        trim_of(s.push(c)) == trim_of(s),
    decreases s.len(),
{
    if s.len() == 0 {
        assert(s.push(c).drop_first() == s);
    } else if is_white(s[0]) {
        assert(s.push(c)[0] == s[0]);
        assert(s.push(c).drop_first() == s.drop_first().push(c));
        lemma_trim_push(s.drop_first(), c);
    } else {
        assert(s.push(c)[0] == s[0]);
        assert(s.push(c).drop_last() == s);
    }
}

/// The words of a text are its first word and the words of the rest.
pub proof fn lemma_fields_word(w: Seq<char>, rest: Seq<char>)
    requires
        w.len() > 0,
        forall|i: int| 0 <= i < w.len() ==> !is_white(#[trigger] w[i]),
        rest.len() > 0 ==> is_white(rest[0]),
    ensures
        fields_of(w + rest) == seq![w] + fields_of(rest),
{
    let s = w + rest;
    assert forall|i: int| 0 <= i < w.len() implies !is_white(s[i]) by {
        assert(s[i] == w[i]);
    }
    lemma_word_len_is(s, w.len() as int);
    assert(!is_white(s[0]));
    assert(s.take(w.len() as int) == w);
    assert(s.skip(w.len() as int) == rest);
}

/// A space before a text adds no word.
pub proof fn lemma_fields_blank(s: Seq<char>)
    ensures
        fields_of(" "@ + s) == fields_of(s),
{
    reveal_strlit(" ");
    assert((" "@ + s)[0] == ' ');
    assert((" "@ + s).drop_first() == s);
}

/// One terminated line is one line.
pub proof fn lemma_line_alone(l: Seq<char>)
    requires
        unbroken(l),
    ensures
        lines_of(l.push('\n')) == seq![chomp_cr(l)],
{
    let s = l.push('\n');
    assert forall|i: int| 0 <= i < l.len() implies s[i] != '\n' by {
        assert(s[i] == l[i]);
    }
    lemma_line_len_is(s, l.len() as int);
    assert(s.take(l.len() as int) == l);
    assert(s.skip(l.len() as int + 1).len() == 0);
    assert(seq![chomp_cr(l)] + lines_of(s.skip(l.len() as int + 1)) == seq![chomp_cr(l)]);
}

/// Lines that are appended to terminated lines leave those as they are.
pub proof fn lemma_lines_append(s: Seq<char>, t: Seq<char>)
    requires
        s.len() > 0 ==> s.last() == '\n',
    ensures
        lines_of(s + t) == lines_of(s) + lines_of(t),
    decreases s.len(),
{
    if s.len() == 0 {
        assert(s + t == t);
        assert(lines_of(s) + lines_of(t) == lines_of(t));
    } else {
        let n = line_len(s) as int;
        lemma_line_len(s);
        assert(n < s.len());
        let whole = s + t;
        assert forall|i: int| 0 <= i < n implies whole[i] != '\n' by {
            assert(whole[i] == s[i]);
        }
        assert(whole[n] == s[n]);
        lemma_line_len_is(whole, n);
        assert(whole.take(n) == s.take(n));
        assert(whole.skip(n + 1) == s.skip(n + 1) + t);
        lemma_lines_append(s.skip(n + 1), t);
        let first = seq![chomp_cr(s.take(n))];
        assert(first + (lines_of(s.skip(n + 1)) + lines_of(t)) == first + lines_of(s.skip(n + 1))
            + lines_of(t));
    }
}

/// Terminating the last line changes no line, save for a carriage return at
/// the end of that one.
pub proof fn lemma_lines_terminated(s: Seq<char>)
    requires
        s.len() > 0,
        s.last() != '\n',
    ensures
        lines_of(s).len() > 0,
        lines_of(s.push('\n')) == lines_of(s).drop_last().push(chomp_cr(lines_of(s).last())),
    decreases s.len(),
{
    let n = line_len(s) as int;
    lemma_line_len(s);
    if n == s.len() {
        lemma_line_alone(s);
        assert(lines_of(s) == seq![s]);
        assert(seq![s].drop_last().push(chomp_cr(s)) == seq![chomp_cr(s)]);
    } else {
        let whole = s.push('\n');
        assert forall|i: int| 0 <= i < n implies whole[i] != '\n' by {
            assert(whole[i] == s[i]);
        }
        assert(whole[n] == s[n]);
        lemma_line_len_is(whole, n);
        assert(whole.take(n) == s.take(n));
        let rest = s.skip(n + 1);
        assert(rest.len() > 0) by {
            if rest.len() == 0 {
                assert(s[s.len() - 1] == '\n');
            }
        }
        assert(whole.skip(n + 1) == rest.push('\n'));
        lemma_lines_terminated(rest);
        let first = seq![chomp_cr(s.take(n))];
        assert(lines_of(whole) == first + lines_of(rest).drop_last().push(
            chomp_cr(lines_of(rest).last()),
        ));
        assert(lines_of(s) == first + lines_of(rest));
        assert(lines_of(whole) == lines_of(s).drop_last().push(chomp_cr(lines_of(s).last())));
    }
}

/// Whether `part` stands at `i` in `s`.
pub open spec fn stands_at(s: Seq<char>, part: Seq<char>, i: int) -> bool {
    0 <= i && i + part.len() <= s.len() && s.subrange(i, i + part.len()) == part
}

/// Whether `part` stands somewhere in `s`.
pub open spec fn holds(s: Seq<char>, part: Seq<char>) -> bool {
    exists|i: int| stands_at(s, part, i)
}

/// Whether `part` stands at `at`.
fn matches_at(s: &Vec<char>, part: &Vec<char>, at: usize) -> (r: bool)
    requires
        at + part@.len() <= s@.len(),
    ensures
        r == stands_at(s@, part@, at as int),
{
    let total = s.len();
    let mut i: usize = 0;
    while i < part.len()
        invariant
            i <= part@.len(),
            total == s@.len(),
            at + part@.len() <= total,
            forall|k: int| 0 <= k < i ==> s@[at + k] == #[trigger] part@[k],
        decreases part.len() - i,
    {
        if s[at + i] != part[i] {
            assert(s@.subrange(at as int, at + part@.len())[i as int] == s@[at + i]);
            return false;
        }
        i = i + 1;
    }
    assert(s@.subrange(at as int, at + part@.len()) == part@);
    true
}

/// Whether `part` stands somewhere in `s`.
pub fn contains(s: &str, part: &str) -> (r: bool)
    ensures
        r == holds(s@, part@),
{
    let chars = chars_of(s);
    let sought = chars_of(part);
    if sought.len() > chars.len() {
        return false;
    }
    let last = chars.len() - sought.len();
    let mut at: usize = 0;
    while at < last
        invariant
            chars@ == s@,
            sought@ == part@,
            last == chars@.len() - sought@.len(),
            at <= last,
            forall|k: int| 0 <= k < at ==> !stands_at(s@, part@, k),
        decreases last - at,
    {
        if matches_at(&chars, &sought, at) {
            return true;
        }
        at = at + 1;
    }
    matches_at(&chars, &sought, last)
}

/// Whether `s` ends in `suffix`.
pub fn finishes_with(s: &str, suffix: &str) -> (r: bool)
    ensures
        r == suffix@.is_suffix_of(s@),
{
    let chars = chars_of(s);
    let sought = chars_of(suffix);
    if sought.len() > chars.len() {
        return false;
    }
    let at = chars.len() - sought.len();
    assert(s@.subrange(at as int, s@.len() as int) == s@.subrange(at as int, at + suffix@.len()));
    matches_at(&chars, &sought, at)
}

/// How many bytes a text takes in UTF-8.
pub open spec fn weight(s: Seq<char>) -> nat {
    encode_utf8(s).len()
}

/// Texts behind each other take the bytes of both.
pub proof fn lemma_weight_concat(a: Seq<char>, b: Seq<char>)
    ensures
        encode_utf8(a + b) == encode_utf8(a) + encode_utf8(b),
        weight(a + b) == weight(a) + weight(b),
    decreases a.len(),
{
    if a.len() == 0 {
        assert(a + b =~= b);
        assert(encode_utf8(a) + encode_utf8(b) =~= encode_utf8(b));
    } else {
        assert((a + b).drop_first() =~= a.drop_first() + b);
        lemma_weight_concat(a.drop_first(), b);
        assert(encode_utf8(a + b) =~= encode_utf8(a) + encode_utf8(b));
    }
}

/// A character takes one byte to four.
pub proof fn lemma_weight_bound(s: Seq<char>)
    ensures
        s.len() <= weight(s) <= 4 * s.len(),
    decreases s.len(),
{
    if s.len() > 0 {
        lemma_weight_bound(s.drop_first());
    }
}

/// Every field is a word.
pub proof fn lemma_fields_are_words(s: Seq<char>)
    ensures
        forall|i: int| 0 <= i < fields_of(s).len() ==> is_word(#[trigger] fields_of(s)[i]),
    decreases s.len(),
{
    if s.len() > 0 {
        if is_white(s[0]) {
            lemma_fields_are_words(s.drop_first());
            assert(fields_of(s) == fields_of(s.drop_first()));
        } else {
            let n = word_len(s) as int;
            lemma_word_len(s);
            lemma_fields_are_words(s.skip(n));
            let rest = fields_of(s.skip(n));
            assert forall|i: int| 0 <= i < fields_of(s).len() implies is_word(
                #[trigger] fields_of(s)[i],
            ) by {
                if i > 0 {
                    assert(fields_of(s)[i] == rest[i - 1]);
                } else {
                    assert(fields_of(s)[0] == s.take(n));
                }
            }
        }
    }
}

/// Appends the strings of another list.
pub fn append_all(out: &mut Vec<String>, more: &Vec<String>)
    ensures
        views(final(out)@) == views(old(out)@) + views(more@),
{
    let mut i: usize = 0;
    assert(views(more@).take(0) == Seq::<Seq<char>>::empty());
    while i < more.len()
        invariant
            i <= more@.len(),
            views(out@) == views(old(out)@) + views(more@).take(i as int),
        decreases more.len() - i,
    {
        let ghost before = views(out@);
        out.push(more[i].clone());
        assert(views(out@) == before.push(more@[i as int]@));
        assert(views(more@).take(i + 1) == views(more@).take(i as int).push(more@[i as int]@));
        assert(views(out@) == views(old(out)@) + views(more@).take(i + 1));
        i = i + 1;
    }
    assert(views(more@).take(i as int) == views(more@));
}

/// The lines of `s`, each with its own ending. The last one may have none.
pub open spec fn segments_of(s: Seq<char>) -> Seq<Seq<char>>
    decreases s.len(),
{
    if s.len() == 0 {
        seq![]
    } else {
        let n = line_len(s) as int;
        proof {
            lemma_line_len(s);
        }
        if n < s.len() {
            seq![s.take(n + 1)] + segments_of(s.skip(n + 1))
        } else {
            seq![s]
        }
    }
}

/// The parts one after another.
pub open spec fn concat_of(parts: Seq<Seq<char>>) -> Seq<char>
    decreases parts.len(),
{
    if parts.len() == 0 {
        seq![]
    } else {
        concat_of(parts.drop_last()) + parts.last()
    }
}

/// A line without its ending.
pub open spec fn stripped(segment: Seq<char>) -> Seq<char> {
    if segment.len() > 0 && segment.last() == '\n' {
        chomp_cr(segment.drop_last())
    } else {
        segment
    }
}

/// Lines without their endings.
pub open spec fn stripped_all(segments: Seq<Seq<char>>) -> Seq<Seq<char>> {
    Seq::new(segments.len(), |i: int| stripped(segments[i]))
}

/// Whether each part is one line with its ending, which only the last may lack.
pub open spec fn are_segments(parts: Seq<Seq<char>>) -> bool {
    forall|i: int|
        0 <= i < parts.len() ==> (#[trigger] parts[i]).len() > 0 && unbroken(parts[i].drop_last())
            && (i < parts.len() - 1 ==> parts[i].last() == '\n')
}

proof fn lemma_concat_front(first: Seq<char>, parts: Seq<Seq<char>>)
    ensures
        concat_of(seq![first] + parts) == first + concat_of(parts),
    decreases parts.len(),
{
    let all = seq![first] + parts;
    if parts.len() == 0 {
        assert(all.drop_last() =~= parts);
        assert(concat_of(all) =~= first + concat_of(parts));
    } else {
        assert(all.drop_last() =~= seq![first] + parts.drop_last());
        lemma_concat_front(first, parts.drop_last());
        assert(concat_of(all) =~= first + concat_of(parts));
    }
}

/// The lines of a text with their endings make up the text, and without their
/// endings they are its lines.
pub proof fn segments_make_up_the_text(s: Seq<char>)
    ensures
        are_segments(segments_of(s)),
        concat_of(segments_of(s)) == s,
        stripped_all(segments_of(s)) == lines_of(s),
    decreases s.len(),
{
    if s.len() == 0 {
        assert(concat_of(segments_of(s)) =~= s);
        assert(stripped_all(segments_of(s)) =~= lines_of(s));
    } else {
        let n = line_len(s) as int;
        lemma_line_len(s);
        if n < s.len() {
            let first = s.take(n + 1);
            let rest = segments_of(s.skip(n + 1));
            segments_make_up_the_text(s.skip(n + 1));
            lemma_concat_front(first, rest);
            assert(first + s.skip(n + 1) =~= s);
            assert(first.drop_last() =~= s.take(n));
            assert(unbroken(first.drop_last()));
            assert(stripped_all(segments_of(s)) =~= seq![stripped(first)] + stripped_all(rest));
            assert forall|i: int| 0 <= i < segments_of(s).len() implies (
            #[trigger] segments_of(s)[i]).len() > 0 && unbroken(segments_of(s)[i].drop_last()) && (i
                < segments_of(s).len() - 1 ==> segments_of(s)[i].last() == '\n') by {
                if i > 0 {
                    assert(segments_of(s)[i] == rest[i - 1]);
                }
            }
        } else {
            let none = Seq::<Seq<char>>::empty();
            assert(seq![s].drop_last() =~= none);
            assert(concat_of(none) =~= Seq::<char>::empty());
            assert(concat_of(seq![s]) =~= s);
            assert(stripped_all(segments_of(s)) =~= lines_of(s));
        }
    }
}

/// Lines with their endings, behind each other, are the lines of the text that
/// they make up.
pub proof fn lemma_lines_of_segments(parts: Seq<Seq<char>>)
    requires
        are_segments(parts),
    ensures
        lines_of(concat_of(parts)) == stripped_all(parts),
        parts.len() > 0 ==> concat_of(parts).len() > 0 && concat_of(parts).last() == parts.last().last(),
    decreases parts.len(),
{
    if parts.len() == 0 {
        assert(lines_of(concat_of(parts)) =~= stripped_all(parts));
    } else {
        let before = parts.drop_last();
        let last = parts.last();
        assert(parts[parts.len() - 1] == last);
        assert forall|i: int| 0 <= i < before.len() implies (#[trigger] before[i]).len() > 0
            && unbroken(before[i].drop_last()) && before[i].last() == '\n' by {
            assert(before[i] == parts[i]);
        }
        lemma_lines_of_segments(before);
        if before.len() > 0 {
            assert(before[before.len() - 1].last() == '\n');
        }
        lemma_lines_append(concat_of(before), last);
        assert(lines_of(last) =~= seq![stripped(last)]) by {
            if last.last() == '\n' {
                lemma_line_alone(last.drop_last());
                assert(last.drop_last().push('\n') =~= last);
            } else {
                assert forall|i: int| 0 <= i < last.len() implies last[i] != '\n' by {
                    if i < last.len() - 1 {
                        assert(last[i] == last.drop_last()[i]);
                    }
                }
                lemma_line_len_is(last, last.len() as int);
            }
        }
        assert(stripped_all(parts) =~= stripped_all(before) + seq![stripped(last)]);
    }
}

/// Text behind terminated lines leaves those as they are.
pub proof fn lemma_segments_append(s: Seq<char>, t: Seq<char>)
    requires
        s.len() > 0 ==> s.last() == '\n',
    ensures
        segments_of(s + t) == segments_of(s) + segments_of(t),
    decreases s.len(),
{
    if s.len() == 0 {
        assert(s + t =~= t);
        assert(segments_of(s) + segments_of(t) =~= segments_of(t));
    } else {
        let n = line_len(s) as int;
        lemma_line_len(s);
        let whole = s + t;
        assert forall|i: int| 0 <= i < n implies whole[i] != '\n' by {
            assert(whole[i] == s[i]);
        }
        assert(whole[n] == s[n]);
        lemma_line_len_is(whole, n);
        assert(whole.take(n + 1) =~= s.take(n + 1));
        assert(whole.skip(n + 1) =~= s.skip(n + 1) + t);
        lemma_segments_append(s.skip(n + 1), t);
        assert(segments_of(whole) =~= segments_of(s) + segments_of(t));
    }
}

/// One terminated line is one segment.
pub proof fn lemma_segment_alone(l: Seq<char>)
    requires
        unbroken(l),
    ensures
        segments_of(l.push('\n')) == seq![l.push('\n')],
{
    let s = l.push('\n');
    assert forall|i: int| 0 <= i < l.len() implies s[i] != '\n' by {
        assert(s[i] == l[i]);
    }
    lemma_line_len_is(s, l.len() as int);
    assert(s.take(l.len() as int + 1) =~= s);
    let rest = s.skip(l.len() as int + 1);
    assert(rest.len() == 0);
    assert(segments_of(rest) =~= Seq::<Seq<char>>::empty());
    assert(segments_of(s) =~= seq![s]);
}

/// The lines of `s`, each with its own ending.
pub fn split_segments(s: &str) -> (r: Vec<String>)
    ensures
        views(r@) == segments_of(s@),
{
    let chars = chars_of(s);
    let mut out: Vec<String> = Vec::new();
    let mut at: usize = 0;
    assert(chars@.skip(0) == chars@);
    assert(views(out@) + segments_of(chars@) =~= segments_of(chars@));
    while at < chars.len()
        invariant
            at <= chars@.len(),
            views(out@) + segments_of(chars@.skip(at as int)) == segments_of(chars@),
        decreases chars@.len() - at,
    {
        let end = skip_line(&chars, at);
        let stop: usize = if end < chars.len() { end + 1 } else { end };
        let ghost before = views(out@);
        let ghost tail = chars@.skip(at as int);
        out.push(text_of(&chars, at, stop));
        proof {
            let part = chars@.subrange(at as int, stop as int);
            assert(tail.take(stop - at) =~= part);
            assert(tail.skip(stop - at) =~= chars@.skip(stop as int));
            assert(views(out@) =~= before.push(part));
            assert(segments_of(tail) =~= seq![part] + segments_of(chars@.skip(stop as int)));
            assert(views(out@) + segments_of(chars@.skip(stop as int)) =~= before + segments_of(
                tail,
            ));
        }
        at = stop;
    }
    assert(chars@.skip(at as int) =~= Seq::<char>::empty());
    assert(views(out@) + segments_of(Seq::<char>::empty()) =~= views(out@));
    out
}

/// White space behind a text adds no word.
pub proof fn lemma_fields_push(s: Seq<char>, c: char)
    requires
        is_white(c),
    ensures
        fields_of(s.push(c)) == fields_of(s),
    decreases s.len(),
{
    let longer = s.push(c);
    if s.len() == 0 {
        assert(longer.drop_first() =~= s);
    } else if is_white(s[0]) {
        assert(longer.drop_first() =~= s.drop_first().push(c));
        lemma_fields_push(s.drop_first(), c);
    } else {
        let n = word_len(s) as int;
        lemma_word_len(s);
        assert forall|i: int| 0 <= i < n implies !is_white(longer[i]) by {
            assert(longer[i] == s[i]);
        }
        if n < s.len() {
            assert(longer[n] == s[n]);
        }
        lemma_word_len_is(longer, n);
        assert(longer.take(n) =~= s.take(n));
        assert(longer.skip(n) =~= s.skip(n).push(c));
        lemma_fields_push(s.skip(n), c);
    }
}

/// Trimming a text's end changes none of its words.
pub proof fn lemma_fields_trimmed(s: Seq<char>)
    ensures
        fields_of(trim_end_of(s)) == fields_of(s),
        trim_end_of(s).is_prefix_of(s),
    decreases s.len(),
{
    if s.len() > 0 && is_white(s.last()) {
        lemma_fields_trimmed(s.drop_last());
        lemma_fields_push(s.drop_last(), s.last());
        assert(s.drop_last().push(s.last()) =~= s);
    }
}

/// What stands before the end of a text is not trimmed with it.
pub proof fn lemma_trim_behind(front: Seq<char>, s: Seq<char>)
    requires
        front.len() > 0,
        !is_white(front.last()),
    ensures
        trim_end_of(front + s) == front + trim_end_of(s),
    decreases s.len(),
{
    let whole = front + s;
    if s.len() == 0 {
        assert(whole =~= front);
        assert(front + trim_end_of(s) =~= front);
    } else {
        assert(whole.last() == s.last());
        if is_white(s.last()) {
            assert(whole.drop_last() =~= front + s.drop_last());
            lemma_trim_behind(front, s.drop_last());
        }
    }
}

/// One line without an ending is one line, and one segment.
pub proof fn lemma_whole_line(l: Seq<char>)
    requires
        l.len() > 0,
        unbroken(l),
    ensures
        lines_of(l) == seq![l],
        segments_of(l) == seq![l],
{
    assert forall|i: int| 0 <= i < l.len() implies l[i] != '\n' by {}
    lemma_line_len_is(l, l.len() as int);
}

/// White space before a text is trimmed away.
pub proof fn lemma_trim_blank(blank: Seq<char>, s: Seq<char>)
    requires
        forall|i: int| 0 <= i < blank.len() ==> is_white(#[trigger] blank[i]),
    ensures
        trim_of(blank + s) == trim_of(s),
    decreases blank.len(),
{
    if blank.len() == 0 {
        assert(blank + s =~= s);
    } else {
        assert((blank + s)[0] == blank[0]);
        assert((blank + s).drop_first() =~= blank.drop_first() + s);
        assert forall|i: int| 0 <= i < blank.drop_first().len() implies is_white(
            #[trigger] blank.drop_first()[i],
        ) by {
            assert(is_white(blank[i + 1]));
        }
        lemma_trim_blank(blank.drop_first(), s);
    }
}

/// The words of a text are found one by one: white space before a word is passed
/// over, and the word reaches up to the next white space or the end.
pub proof fn words_are_found_one_by_one(blank: Seq<char>, w: Seq<char>, rest: Seq<char>)
    requires
        forall|i: int| 0 <= i < blank.len() ==> is_white(#[trigger] blank[i]),
        w.len() > 0,
        forall|i: int| 0 <= i < w.len() ==> !is_white(#[trigger] w[i]),
        rest.len() == 0 || is_white(rest[0]),
    ensures
        fields_of(blank).len() == 0,
        fields_of(blank + w + rest) == seq![w] + fields_of(rest),
    decreases blank.len(),
{
    if blank.len() == 0 {
        assert(blank + w + rest =~= w + rest);
        lemma_fields_word(w, rest);
    } else {
        let fewer = blank.drop_first();
        assert forall|i: int| 0 <= i < fewer.len() implies is_white(#[trigger] fewer[i]) by {
            assert(is_white(blank[i + 1]));
        }
        words_are_found_one_by_one(fewer, w, rest);
        assert(is_white(blank[0]));
        assert((blank + w + rest)[0] == blank[0]);
        assert((blank + w + rest).drop_first() =~= fewer + w + rest);
    }
}

/// Trimming takes all white space off both ends, and nothing else.
pub proof fn trimming_takes_white_space_off_the_ends(
    before: Seq<char>,
    s: Seq<char>,
    behind: Seq<char>,
)
    requires
        forall|i: int| 0 <= i < before.len() ==> is_white(#[trigger] before[i]),
        forall|i: int| 0 <= i < behind.len() ==> is_white(#[trigger] behind[i]),
        s.len() > 0,
        !is_white(s[0]),
        !is_white(s[s.len() - 1]),
    ensures
        trim_of(before + s + behind) == s,
        trim_of(before).len() == 0,
    decreases behind.len(),
{
    let empty = Seq::<char>::empty();
    lemma_trim_blank(before, empty);
    assert(before + empty =~= before);
    if behind.len() == 0 {
        lemma_trim_blank(before, s);
        lemma_trim_none(s);
        assert(before + s + behind =~= before + s);
    } else {
        let fewer = behind.drop_last();
        let c = behind.last();
        assert(is_white(behind[behind.len() - 1]));
        assert forall|i: int| 0 <= i < fewer.len() implies is_white(#[trigger] fewer[i]) by {
            assert(is_white(behind[i]));
        }
        trimming_takes_white_space_off_the_ends(before, s, fewer);
        lemma_trim_push(before + s + fewer, c);
        assert((before + s + fewer).push(c) =~= before + s + behind);
    }
}

/// A line ends at a line feed, and a carriage return right before that belongs
/// to the ending; what follows is cut by itself. The last line needs no ending.
pub proof fn lines_end_at_line_feeds(l: Seq<char>, rest: Seq<char>)
    requires
        forall|i: int| 0 <= i < l.len() ==> #[trigger] l[i] != '\n',
    ensures
        lines_of(l + seq!['\r', '\n'] + rest) == seq![l] + lines_of(rest),
        l.len() == 0 || l[l.len() - 1] != '\r' ==> lines_of(l + seq!['\n'] + rest) == seq![l]
            + lines_of(rest),
        l.len() > 0 ==> lines_of(l) == seq![l],
        lines_of(Seq::empty()).len() == 0,
{
    let returned = l.push('\r');
    assert(unbroken(l));
    assert(unbroken(returned));
    lemma_line_alone(returned);
    assert(returned.drop_last() =~= l);
    lemma_lines_append(returned.push('\n'), rest);
    assert(l + seq!['\r', '\n'] + rest =~= returned.push('\n') + rest);
    lemma_line_alone(l);
    lemma_lines_append(l.push('\n'), rest);
    assert(l + seq!['\n'] + rest =~= l.push('\n') + rest);
    if l.len() > 0 {
        lemma_whole_line(l);
    }
}

/// Parts are joined in order, with the separator between each two.
pub proof fn joining_goes_part_by_part(parts: Seq<Seq<char>>, part: Seq<char>, sep: Seq<char>)
    ensures
        join_of(Seq::empty(), sep).len() == 0,
        join_of(seq![part], sep) == part,
        parts.len() > 0 ==> join_of(parts.push(part), sep) == join_of(parts, sep) + sep + part,
{
    assert(parts.push(part).drop_last() =~= parts);
}

/// A number in decimal: a digit is its character, and ten times a number and a
/// digit is that number's text and that digit's character.
pub proof fn decimals_digit_by_digit(n: nat, d: nat)
    requires
        d < 10,
    ensures
        decimal_of(d) == seq!["0123456789"@[d as int]],
        n > 0 ==> decimal_of(10 * n + d) == decimal_of(n).push("0123456789"@[d as int]),
{
    reveal_strlit("0123456789");
    let m = 10 * n + d;
    assert(m / 10 == n && m % 10 == d);
    assert(digit_of(d) == "0123456789"@[d as int]) by {
        if d == 0 {
        } else if d == 1 {
        } else if d == 2 {
        } else if d == 3 {
        } else if d == 4 {
        } else if d == 5 {
        } else if d == 6 {
        } else if d == 7 {
        } else if d == 8 {
        } else {
            assert(d == 9);
        }
    }
}

/// A padded number is its text with zeros before it, as many as the width
/// lacks.
pub proof fn padding_fills_up_with_zeros(n: nat, width: nat)
    ensures
        ({
            let s = padded_of(n, width);
            let digits = decimal_of(n);
            &&& s.len() == (if digits.len() < width { width } else { digits.len() })
            &&& digits.is_suffix_of(s)
            &&& forall|i: int| 0 <= i < s.len() - digits.len() ==> #[trigger] s[i] == '0'
        }),
{
    let s = padded_of(n, width);
    let digits = decimal_of(n);
    assert(s.skip(s.len() - digits.len()) =~= digits);
}

/// A text holds a part exactly if it is something, the part and something else.
pub proof fn a_part_stands_between_the_rest(s: Seq<char>, part: Seq<char>)
    ensures
        holds(s, part) <==> exists|a: Seq<char>, b: Seq<char>| s == #[trigger] (a + part + b),
{
    if holds(s, part) {
        let i = choose|i: int| stands_at(s, part, i);
        let a = s.take(i);
        let b = s.skip(i + part.len());
        assert(s =~= a + part + b);
    }
    if exists|a: Seq<char>, b: Seq<char>| s == #[trigger] (a + part + b) {
        let (a, b) = choose|a: Seq<char>, b: Seq<char>| s == #[trigger] (a + part + b);
        assert(s.subrange(a.len() as int, a.len() as int + part.len()) =~= part);
        assert(stands_at(s, part, a.len() as int));
    }
}

/// A list reads as its strings do, each whole and in order.
pub proof fn lists_read_as_their_strings(list: Seq<String>, i: int)
    requires
        0 <= i < list.len(),
    ensures
        views(list).len() == list.len(),
        views(list)[i] == list[i]@,
{
}

/// Trimming the start takes all white space off it, and nothing else.
pub proof fn trimming_the_start_takes_white_space_off_it(blank: Seq<char>, s: Seq<char>)
    requires
        forall|i: int| 0 <= i < blank.len() ==> is_white(#[trigger] blank[i]),
        s.len() == 0 || !is_white(s[0]),
    ensures
        trim_start_of(blank + s) == s,
    decreases blank.len(),
{
    if blank.len() == 0 {
        assert(blank + s =~= s);
    } else {
        let fewer = blank.drop_first();
        assert(is_white(blank[0]));
        assert((blank + s)[0] == blank[0]);
        assert((blank + s).drop_first() =~= fewer + s);
        assert forall|i: int| 0 <= i < fewer.len() implies is_white(#[trigger] fewer[i]) by {
            assert(is_white(blank[i + 1]));
        }
        trimming_the_start_takes_white_space_off_it(fewer, s);
    }
}

} // verus!
