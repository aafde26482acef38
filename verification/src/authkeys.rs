//! Editing of authorized_keys. Every line that is written carries its marker in
//! the key line's own comment field, `multiplex:bind:<id>:<device>`, never in a
//! separate `#` line, so that the marker travels with the key and unbind can
//! match it exactly.
//!
//! The functions here take what reading the file came to and give back what the
//! file is to hold afterwards, if it changes at all.

use vstd::prelude::*;
use vstd::string::*;
use vstd::utf8::*;
use crate::text::{
    are_segments, begins_with, cat3, chars_of, chomp_cr, concat_of, decimal_of, fields_of, is_white,
    is_word, join, join_of, lemma_fields_blank, lemma_fields_trimmed, lemma_fields_word,
    lemma_line_alone, lemma_lines_append, lemma_lines_of_segments, lemma_lines_terminated,
    lemma_segment_alone, lemma_segments_append, lemma_trim_behind, lemma_trim_blank,
    lemma_trim_none, lemma_trim_push, lemma_whole_line, lines_of, push_decimal, same,
    segments_make_up_the_text, segments_of, split_fields, split_lines, split_segments, stripped,
    stripped_all, text_of, trim, trim_end_of, trim_of, trim_start, trim_start_of, unbroken,
    utf8_text, views, white,
};

verus! {

pub const MARKER_PREFIX: &'static str = "multiplex:bind:";

/// A key line with a marker in its comment.
#[derive(Debug, Clone, PartialEq, Eq)]
pub struct MarkedKey {
    pub id: String,
    pub device: String,
    pub key_type: String,
    pub line: String,
}

/// What adding a key came to.
#[derive(Debug, PartialEq, Eq)]
pub enum AddOutcome {
    Added,
    /// The same public key was already there. Its line, and with it its
    /// comment, stays as it is.
    AlreadyPresent { comment: String },
}

/// What reading a file came to.
#[derive(Debug, PartialEq, Eq)]
pub enum FileRead {
    Missing,
    Bytes(Vec<u8>),
    /// It could not be read; the text says why.
    Failed(String),
}

/// Why a key file cannot be edited.
#[derive(Debug, PartialEq, Eq)]
pub enum KeysError {
    /// The file is not UTF-8.
    InvalidData,
    /// Reading or writing failed; the text says how.
    Failed(String),
}

impl KeysError {
    /// What the operator is told.
    pub open spec fn told(&self) -> Seq<char> {
        match self {
            KeysError::InvalidData => "stream did not contain valid UTF-8"@,
            KeysError::Failed(why) => why@,
        }
    }

    /// The error in words.
    pub fn message(&self) -> (r: String)
        ensures
            r@ == self.told(),
    {
        match self {
            KeysError::InvalidData => "stream did not contain valid UTF-8".to_owned(),
            KeysError::Failed(why) => why.clone(),
        }
    }
}

/// What a marked key line says.
pub ghost struct Mark {
    pub id: Seq<char>,
    pub device: Seq<char>,
    pub key_type: Seq<char>,
    pub line: Seq<char>,
}

impl View for MarkedKey {
    type V = Mark;

    open spec fn view(&self) -> Mark {
        Mark {
            id: self.id@,
            device: self.device@,
            key_type: self.key_type@,
            line: self.line@,
        }
    }
}

pub open spec fn mark_views(list: Seq<MarkedKey>) -> Seq<Mark> {
    Seq::new(list.len(), |i: int| list[i]@)
}

/// The fields of a key line, its options left out.
pub ghost struct KeyLine {
    pub key_type: Seq<char>,
    pub material: Seq<char>,
    pub comment: Seq<char>,
}

/// How far the first field of a line reaches: up to the first white space
/// outside quotes. Inside quotes a backslash hides the character after it.
pub open spec fn first_field_len(s: Seq<char>, quoted: bool, escaped: bool) -> nat
    decreases s.len(),
{
    if s.len() == 0 {
        0
    } else if escaped {
        1 + first_field_len(s.drop_first(), quoted, false)
    } else if s[0] == '\\' && quoted {
        1 + first_field_len(s.drop_first(), quoted, true)
    } else if s[0] == '"' {
        1 + first_field_len(s.drop_first(), !quoted, false)
    } else if is_white(s[0]) && !quoted {
        0
    } else {
        1 + first_field_len(s.drop_first(), quoted, false)
    }
}

/// Whether a field names a type of key.
pub open spec fn names_key_type(field: Seq<char>) -> bool {
    "ssh-"@.is_prefix_of(field) || "ecdsa-"@.is_prefix_of(field) || "sk-"@.is_prefix_of(field)
}

/// The line from its key type on: a first field that names no key type holds
/// options.
pub open spec fn after_options(line: Seq<char>) -> Seq<char> {
    let n = first_field_len(line, false, false) as int;
    if n == line.len() || names_key_type(line.take(n)) {
        line
    } else {
        trim_start_of(line.skip(n))
    }
}

/// The fields of a line, unless it is blank, a comment or short of a field.
pub open spec fn parsed_line(line: Seq<char>) -> Option<KeyLine> {
    let trimmed = trim_of(line);
    let fields = fields_of(after_options(trimmed));
    if trimmed.len() == 0 || trimmed[0] == '#' || fields.len() < 2 {
        None
    } else {
        Some(
            KeyLine {
                key_type: fields[0],
                material: fields[1],
                comment: join_of(fields.skip(2), " "@),
            },
        )
    }
}

/// How many characters stand before the first colon.
pub open spec fn colon_at(s: Seq<char>) -> nat
    decreases s.len(),
{
    if s.len() == 0 || s[0] == ':' {
        0
    } else {
        1 + colon_at(s.drop_first())
    }
}

/// The id and the device that a comment's marker names, if it has one.
pub open spec fn marker_of(comment: Seq<char>) -> Option<(Seq<char>, Seq<char>)> {
    if MARKER_PREFIX@.is_prefix_of(comment) {
        let rest = comment.skip(MARKER_PREFIX@.len() as int);
        let n = colon_at(rest) as int;
        Some((rest.take(n), if n < rest.len() { rest.skip(n + 1) } else { Seq::empty() }))
    } else {
        None
    }
}

/// What a line says if its key is marked.
pub open spec fn mark_of(line: Seq<char>) -> Option<Mark> {
    match parsed_line(line) {
        Some(key) => match marker_of(key.comment) {
            Some((id, device)) => Some(
                Mark { id, device, key_type: key.key_type, line: trim_of(line) },
            ),
            None => None,
        },
        None => None,
    }
}

/// The marked keys among some lines, in order.
pub open spec fn marks_in(lines: Seq<Seq<char>>) -> Seq<Mark>
    decreases lines.len(),
{
    if lines.len() == 0 {
        Seq::empty()
    } else {
        let before = marks_in(lines.drop_last());
        match mark_of(lines.last()) {
            Some(mark) => before.push(mark),
            None => before,
        }
    }
}

/// What a file reads: nothing if it is not there, an error if it cannot be
/// read or is not text.
pub open spec fn content_of(file: FileRead) -> Result<Seq<char>, KeysError> {
    match file {
        FileRead::Missing => Ok(Seq::empty()),
        FileRead::Bytes(bytes) => if valid_utf8(bytes@) {
            Ok(decode_utf8(bytes@))
        } else {
            Err(KeysError::InvalidData)
        },
        FileRead::Failed(why) => Err(KeysError::Failed(why)),
    }
}

/// The comment of the first line that holds this key material.
pub open spec fn enrolled(lines: Seq<Seq<char>>, material: Seq<char>) -> Option<Seq<char>>
    decreases lines.len(),
{
    if lines.len() == 0 {
        None
    } else {
        match parsed_line(lines[0]) {
            Some(key) => if key.material == material {
                Some(key.comment)
            } else {
                enrolled(lines.drop_first(), material)
            },
            None => enrolled(lines.drop_first(), material),
        }
    }
}

/// The line of a key.
pub open spec fn key_line(key_type: Seq<char>, material: Seq<char>, comment: Seq<char>) -> Seq<char> {
    key_type + " "@ + material + " "@ + comment
}

/// `content`, its last line terminated.
pub open spec fn terminated(content: Seq<char>) -> Seq<char> {
    if content.len() > 0 && content.last() != '\n' {
        content.push('\n')
    } else {
        content
    }
}

/// `content` with a line for a key at its end.
pub open spec fn with_key(
    content: Seq<char>,
    key_type: Seq<char>,
    material: Seq<char>,
    comment: Seq<char>,
) -> Seq<char> {
    terminated(content) + key_line(key_type, material, comment).push('\n')
}

/// The marks of the lines that are picked.
pub open spec fn picked_marks(lines: Seq<Seq<char>>, picks: Seq<bool>) -> Seq<Mark>
    decreases lines.len(),
{
    if lines.len() == 0 {
        Seq::empty()
    } else {
        let before = picked_marks(lines.drop_last(), picks);
        if picks[lines.len() - 1] {
            before.push(mark_of(lines.last())->0)
        } else {
            before
        }
    }
}

/// The lines that are not picked.
pub open spec fn lines_left(lines: Seq<Seq<char>>, picks: Seq<bool>) -> Seq<Seq<char>>
    decreases lines.len(),
{
    if lines.len() == 0 {
        Seq::empty()
    } else {
        let before = lines_left(lines.drop_last(), picks);
        if picks[lines.len() - 1] {
            before
        } else {
            before.push(lines.last())
        }
    }
}

/// A text without the lines that are picked. The others keep their endings, and
/// so every one of their characters.
pub open spec fn text_left(content: Seq<char>, picks: Seq<bool>) -> Seq<char> {
    concat_of(lines_left(segments_of(content), picks))
}

/// Whether `picks` is what `filter` answers, line by line: it is asked of the
/// marked lines only, and the others are not picked.
pub open spec fn answers<F: Fn(&MarkedKey) -> bool>(
    filter: F,
    lines: Seq<Seq<char>>,
    picks: Seq<bool>,
) -> bool {
    picks.len() == lines.len() && forall|i: int|
        0 <= i < lines.len() ==> answers_at(filter, lines[i], #[trigger] picks[i])
}

pub open spec fn answers_at<F: Fn(&MarkedKey) -> bool>(
    filter: F,
    line: Seq<char>,
    pick: bool,
) -> bool {
    match mark_of(line) {
        Some(mark) => exists|key: MarkedKey|
            key@ == mark && #[trigger] call_ensures(filter, (&key,), pick),
        None => !pick,
    }
}

fn first_field(line: &Vec<char>) -> (r: usize)
    ensures
        r == first_field_len(line@, false, false),
        r <= line@.len(),
{
    let mut quoted = false;
    let mut escaped = false;
    let mut i: usize = 0;
    assert(line@.skip(0) == line@);
    while i < line.len()
        invariant
            i <= line@.len(),
            first_field_len(line@, false, false) == i + first_field_len(
                line@.skip(i as int),
                quoted,
                escaped,
            ),
        decreases line.len() - i,
    {
        let c = line[i];
        assert(line@.skip(i as int)[0] == c);
        assert(line@.skip(i as int).drop_first() == line@.skip(i + 1));
        if escaped {
            escaped = false;
        } else if c == '\\' && quoted {
            escaped = true;
        } else if c == '"' {
            quoted = !quoted;
        } else if white(c) && !quoted {
            return i;
        }
        i = i + 1;
    }
    i
}

fn is_key_type(field: &str) -> (r: bool)
    ensures
        r == names_key_type(field@),
{
    begins_with(field, "ssh-") || begins_with(field, "ecdsa-") || begins_with(field, "sk-")
}

/// The line from its key type onward, without a leading options field.
fn skip_options(line: &str) -> (r: String)
    ensures
        r@ == after_options(line@),
{
    let chars = chars_of(line);
    let n = first_field(&chars);
    assert(line@.take(n as int) == chars@.subrange(0, n as int));
    assert(line@.skip(n as int) == chars@.subrange(n as int, chars@.len() as int));
    if n == chars.len() || is_key_type(text_of(&chars, 0, n).as_str()) {
        line.to_owned()
    } else {
        trim_start(text_of(&chars, n, chars.len()).as_str())
    }
}

/// Splits a key line into key type, key material and comment. The key cannot be
/// found by looking for the first field that reads like a key type, since the
/// quoted value of an option may hold one.
pub fn parse_line(line: &str) -> (r: Option<(String, String, String)>)
    ensures
        match r {
            Some((key_type, material, comment)) => parsed_line(line@) == Some(
                (KeyLine { key_type: key_type@, material: material@, comment: comment@ }),
            ),
            None => parsed_line(line@) is None,
        },
{
    let trimmed = trim(line);
    let chars = chars_of(trimmed.as_str());
    if chars.len() == 0 || chars[0] == '#' {
        return None;
    }
    let fields = split_fields(skip_options(trimmed.as_str()).as_str());
    if fields.len() < 2 {
        return None;
    }
    let mut words: Vec<String> = Vec::new();
    let mut i: usize = 2;
    while i < fields.len()
        invariant
            2 <= i <= fields@.len(),
            views(words@) == views(fields@).subrange(2, i as int),
        decreases fields.len() - i,
    {
        let ghost before = views(words@);
        words.push(fields[i].clone());
        assert(views(words@) == before.push(fields@[i as int]@));
        assert(views(words@) == views(fields@).subrange(2, i + 1));
        i = i + 1;
    }
    assert(views(fields@).skip(2) == views(words@));
    Some((fields[0].clone(), fields[1].clone(), join(&words, " ")))
}

fn find_colon(s: &Vec<char>, from: usize) -> (r: usize)
    requires
        from <= s@.len(),
    ensures
        r == from + colon_at(s@.skip(from as int)),
        r <= s@.len(),
{
    let mut i: usize = from;
    while i < s.len()
        invariant
            from <= i <= s@.len(),
            from + colon_at(s@.skip(from as int)) == i + colon_at(s@.skip(i as int)),
        decreases s.len() - i,
    {
        assert(s@.skip(i as int)[0] == s@[i as int]);
        assert(s@.skip(i as int).drop_first() == s@.skip(i + 1));
        if s[i] == ':' {
            return i;
        }
        i = i + 1;
    }
    i
}

/// The line's marked key, if it has one.
fn marked(line: &str) -> (r: Option<MarkedKey>)
    ensures
        match r {
            Some(key) => mark_of(line@) == Some(key@),
            None => mark_of(line@) is None,
        },
{
    let (key_type, _, comment) = parse_line(line)?;
    if !begins_with(comment.as_str(), MARKER_PREFIX) {
        return None;
    }
    let chars = chars_of(comment.as_str());
    let from = chars_of(MARKER_PREFIX).len();
    let ghost rest = comment@.skip(MARKER_PREFIX@.len() as int);
    let colon = find_colon(&chars, from);
    let id = text_of(&chars, from, colon);
    assert(id@ == rest.take(colon - from));
    let device = if colon < chars.len() {
        let device = text_of(&chars, colon + 1, chars.len());
        assert(device@ == rest.skip(colon - from + 1));
        device
    } else {
        String::new()
    };
    Some(MarkedKey { id, device, key_type, line: trim(line) })
}

/// Takes a file that is not there yet as empty, and every other failure as a
/// failure: a file that cannot be read is a file that must not be rewritten.
pub fn read_existing(file: &FileRead) -> (r: Result<String, KeysError>)
    ensures
        match content_of(*file) {
            Ok(content) => r matches Ok(s) && s@ == content,
            Err(e) => r matches Err(err) && err.told() == e.told() && (err is InvalidData <==> e
                is InvalidData),
        },
{
    match file {
        FileRead::Missing => Ok(String::new()),
        FileRead::Bytes(bytes) => match utf8_text(bytes.clone()) {
            Some(content) => Ok(content),
            None => Err(KeysError::InvalidData),
        },
        FileRead::Failed(why) => Err(KeysError::Failed(why.clone())),
    }
}

/// Whether `r` fails as reading the file failed.
pub open spec fn fails_as<T>(r: Result<T, KeysError>, e: KeysError) -> bool {
    r matches Err(err) && err.told() == e.told() && (err is InvalidData <==> e is InvalidData)
}

/// The marked keys of a file.
pub fn marked_keys(file: &FileRead) -> (r: Result<Vec<MarkedKey>, KeysError>)
    ensures
        match content_of(*file) {
            Ok(content) => r matches Ok(keys) && mark_views(keys@) == marks_in(lines_of(content)),
            Err(e) => fails_as(r, e),
        },
{
    let content = match read_existing(file) {
        Ok(content) => content,
        Err(e) => {
            return Err(e);
        },
    };
    let lines = split_lines(content.as_str());
    let mut keys: Vec<MarkedKey> = Vec::new();
    let mut i: usize = 0;
    assert(mark_views(keys@) == marks_in(views(lines@).take(0)));
    while i < lines.len()
        invariant
            i <= lines@.len(),
            mark_views(keys@) == marks_in(views(lines@).take(i as int)),
        decreases lines.len() - i,
    {
        let ghost before = mark_views(keys@);
        assert(views(lines@).take(i + 1).drop_last() == views(lines@).take(i as int));
        assert(views(lines@).take(i + 1).last() == lines@[i as int]@);
        if let Some(key) = marked(lines[i].as_str()) {
            keys.push(key);
            assert(mark_views(keys@) == before.push(key@));
        }
        i = i + 1;
    }
    assert(views(lines@).take(i as int) == views(lines@));
    Ok(keys)
}

/// Adds `<key_type> <key_b64> <comment>` as the last line, unless a line holds
/// the same key material under any comment. The second result is what the file
/// is to hold, if it changes.
pub fn ensure_line(file: &FileRead, key_type: &str, key_b64: &str, comment: &str) -> (r: Result<
    (AddOutcome, Option<String>),
    KeysError,
>)
    ensures
        match content_of(*file) {
            Ok(content) => match enrolled(lines_of(content), key_b64@) {
                Some(there) => r matches Ok((AddOutcome::AlreadyPresent { comment: c }, None))
                    && c@ == there,
                None => r matches Ok((AddOutcome::Added, Some(updated))) && updated@ == with_key(
                    content,
                    key_type@,
                    key_b64@,
                    comment@,
                ),
            },
            Err(e) => fails_as(r, e),
        },
{
    let content = match read_existing(file) {
        Ok(content) => content,
        Err(e) => {
            return Err(e);
        },
    };
    let lines = split_lines(content.as_str());
    let mut i: usize = 0;
    assert(views(lines@).skip(0) == views(lines@));
    while i < lines.len()
        invariant
            i <= lines@.len(),
            views(lines@) == lines_of(content@),
            content_of(*file) == Ok::<Seq<char>, KeysError>(content@),
            enrolled(lines_of(content@), key_b64@) == enrolled(
                views(lines@).skip(i as int),
                key_b64@,
            ),
        decreases lines.len() - i,
    {
        assert(views(lines@).skip(i as int)[0] == lines@[i as int]@);
        assert(views(lines@).skip(i as int).drop_first() == views(lines@).skip(i + 1));
        if let Some((_, material, there)) = parse_line(lines[i].as_str()) {
            if same(material.as_str(), key_b64) {
                return Ok((AddOutcome::AlreadyPresent { comment: there }, None));
            }
        }
        i = i + 1;
    }
    let chars = chars_of(content.as_str());
    let mut updated = content;
    if chars.len() > 0 && chars[chars.len() - 1] != '\n' {
        updated.push('\n');
    }
    let ghost head = updated@;
    updated.append(key_type);
    updated.append(" ");
    updated.append(key_b64);
    updated.append(" ");
    updated.append(comment);
    updated.push('\n');
    assert(updated@ == head + key_line(key_type@, key_b64@, comment@).push('\n'));
    Ok((AddOutcome::Added, Some(updated)))
}

/// Takes out the marked lines that `filter` picks, each with its ending, and
/// says which they were. The second result is what the file is to hold, if it
/// changes: everything else, as it was.
pub fn remove_marked<F: Fn(&MarkedKey) -> bool>(file: &FileRead, filter: F) -> (r: Result<
    (Vec<MarkedKey>, Option<String>),
    KeysError,
>)
    requires
        forall|key: MarkedKey| #[trigger] call_requires(filter, (&key,)),
    ensures
        match content_of(*file) {
            Ok(content) => r matches Ok((removed, updated)) && exists|picks: Seq<bool>|
                {
                    &&& answers(filter, lines_of(content), picks)
                    &&& mark_views(removed@) == #[trigger] picked_marks(lines_of(content), picks)
                    &&& match updated {
                        Some(text) => removed@.len() > 0 && text@ == text_left(content, picks),
                        None => removed@.len() == 0,
                    }
                },
            Err(e) => fails_as(r, e),
        },
{
    let content = match read_existing(file) {
        Ok(content) => content,
        Err(e) => {
            return Err(e);
        },
    };
    let lines = split_lines(content.as_str());
    let segments = split_segments(content.as_str());
    proof {
        segments_make_up_the_text(content@);
    }
    let mut removed: Vec<MarkedKey> = Vec::new();
    let mut kept = String::new();
    let mut i: usize = 0;
    let ghost mut picks: Seq<bool> = Seq::empty();
    assert(mark_views(removed@) == picked_marks(views(lines@).take(0), picks));
    while i < lines.len()
        invariant
            i <= lines@.len(),
            segments@.len() == lines@.len(),
            forall|key: MarkedKey| #[trigger] call_requires(filter, (&key,)),
            answers(filter, views(lines@).take(i as int), picks),
            mark_views(removed@) == picked_marks(views(lines@).take(i as int), picks),
            kept@ == concat_of(lines_left(views(segments@).take(i as int), picks)),
        decreases lines.len() - i,
    {
        let ghost before = picks;
        let ghost done = views(lines@).take(i as int);
        let ghost marks = mark_views(removed@);
        let ghost now = views(lines@).take(i + 1);
        assert(now.drop_last() == done);
        assert(now.last() == lines@[i as int]@);
        let line = lines[i].as_str();
        let mut pick = false;
        if let Some(key) = marked(line) {
            pick = filter(&key);
            assert(answers_at(filter, line@, pick));
            if pick {
                removed.push(key);
                assert(mark_views(removed@) == marks.push(key@));
            }
        }
        let ghost segments_done = views(segments@).take(i as int);
        let ghost segments_now = views(segments@).take(i + 1);
        assert(segments_now.drop_last() == segments_done);
        assert(segments_now.last() == segments@[i as int]@);
        if !pick {
            kept.append(segments[i].as_str());
        }
        proof {
            picks = picks.push(pick);
            lemma_picks_extend(done, before, pick);
            lemma_picks_extend(segments_done, before, pick);
            assert(answers_at(filter, line@, pick));
            assert forall|k: int| 0 <= k < now.len() implies answers_at(
                filter,
                now[k],
                #[trigger] picks[k],
            ) by {
                if k < i {
                    assert(answers_at(filter, done[k], before[k]));
                }
            }
            if !pick {
                let left = lines_left(segments_done, picks);
                assert(left.push(segments_now.last()).drop_last() == left);
            }
        }
        i = i + 1;
    }
    assert(views(lines@).take(i as int) == views(lines@));
    assert(views(segments@).take(i as int) == views(segments@));
    if removed.len() > 0 {
        Ok((removed, Some(kept)))
    } else {
        Ok((removed, None))
    }
}

proof fn lemma_picks_extend(lines: Seq<Seq<char>>, picks: Seq<bool>, more: bool)
    requires
        picks.len() >= lines.len(),
    ensures
        picked_marks(lines, picks.push(more)) == picked_marks(lines, picks),
        lines_left(lines, picks.push(more)) == lines_left(lines, picks),
    decreases lines.len(),
{
    if lines.len() > 0 {
        lemma_picks_extend(lines.drop_last(), picks, more);
    }
}

/// The name of the scratch file that is written beside the file to replace.
/// It holds the process's number, so that two runs never write the same one.
pub fn scratch_name(file_name: Option<&str>, pid: u32) -> (r: String)
    ensures
        r@ == "."@ + (match file_name {
            Some(name) => name@,
            None => "authorized_keys"@,
        }) + ".mpx-"@ + decimal_of(pid as nat) + ".tmp"@,
{
    let name = match file_name {
        Some(name) => name,
        None => "authorized_keys",
    };
    let mut out = cat3(".", name, ".mpx-");
    push_decimal(&mut out, pid as u64);
    out.append(".tmp");
    out
}

/// Whether a key line can be told from its options: a key type without quotes
/// and the material, one word each.
pub open spec fn plain_key(key_type: Seq<char>, material: Seq<char>) -> bool {
    &&& is_word(key_type) && is_word(material)
    &&& names_key_type(key_type)
    &&& forall|i: int| 0 <= i < key_type.len() ==> #[trigger] key_type[i] != '"'
}

/// A comment as it is read back: its words, one space between each two.
pub open spec fn settled(comment: Seq<char>) -> Seq<char> {
    join_of(fields_of(comment), " "@)
}

/// A comment of one word is read back as it is.
pub proof fn one_word_is_settled(comment: Seq<char>)
    requires
        is_word(comment),
    ensures
        settled(comment) == comment,
{
    let empty = Seq::<char>::empty();
    lemma_fields_word(comment, empty);
    assert(comment + empty =~= comment);
    assert(fields_of(comment) =~= seq![comment]);
}

proof fn lemma_first_field(w: Seq<char>, rest: Seq<char>)
    requires
        forall|i: int| 0 <= i < w.len() ==> !is_white(#[trigger] w[i]) && w[i] != '"',
        rest.len() > 0,
        is_white(rest[0]),
    ensures
        first_field_len(w + rest, false, false) == w.len(),
    decreases w.len(),
{
    if w.len() == 0 {
        assert(w + rest == rest);
    } else {
        assert((w + rest)[0] == w[0]);
        assert((w + rest).drop_first() == w.drop_first() + rest);
        assert forall|i: int| 0 <= i < w.drop_first().len() implies !is_white(
            #[trigger] w.drop_first()[i],
        ) && w.drop_first()[i] != '"' by {
            assert(!is_white(w[i + 1]) && w[i + 1] != '"');
        }
        lemma_first_field(w.drop_first(), rest);
    }
}

/// A line that is written for a key is read as the fields it was written from,
/// with one space between each two words of the comment.
pub proof fn written_lines_are_read_back(
    key_type: Seq<char>,
    material: Seq<char>,
    comment: Seq<char>,
)
    requires
        plain_key(key_type, material),
    ensures
        parsed_line(key_line(key_type, material, comment)) == Some(
            KeyLine { key_type, material, comment: settled(comment) },
        ),
{
    reveal_strlit(" ");
    reveal_strlit("ssh-");
    reveal_strlit("ecdsa-");
    reveal_strlit("sk-");
    let line = key_line(key_type, material, comment);
    let front = key_type + " "@ + material;
    let behind = " "@ + comment;
    let rest = trim_end_of(behind);
    assert(line =~= front + behind);
    assert(!is_white(key_type[0]));
    assert(line[0] == key_type[0]);
    assert(!is_white(material[material.len() - 1]));
    assert(front.last() == material.last());
    lemma_trim_behind(front, behind);
    lemma_fields_trimmed(behind);
    let trimmed = front + rest;
    assert(trim_of(line) == trimmed);
    assert(trimmed[0] == key_type[0]);
    let after = " "@ + material + rest;
    assert(trimmed =~= key_type + after);
    assert(after[0] == ' ');
    lemma_first_field(key_type, after);
    assert(trimmed.take(key_type.len() as int) =~= key_type);
    assert(after_options(trimmed) == trimmed);
    assert(trimmed =~= key_type + (" "@ + (material + rest)));
    assert(rest.len() > 0 ==> rest[0] == behind[0]);
    lemma_fields_word(material, rest);
    lemma_fields_blank(material + rest);
    lemma_fields_word(key_type, " "@ + (material + rest));
    lemma_fields_blank(comment);
    assert(fields_of(trimmed) == seq![key_type] + (seq![material] + fields_of(comment)));
    assert(fields_of(trimmed).skip(2) =~= fields_of(comment));
    assert(key_type[0] == 's' || key_type[0] == 'e') by {
        if "ssh-"@.is_prefix_of(key_type) {
            assert(key_type[0] == "ssh-"@[0]);
        } else if "ecdsa-"@.is_prefix_of(key_type) {
            assert(key_type[0] == "ecdsa-"@[0]);
        } else {
            assert(key_type[0] == "sk-"@[0]);
        }
    }
}

/// A carriage return at its end changes nothing of what a line says.
pub proof fn lemma_chomped(line: Seq<char>)
    ensures
        parsed_line(chomp_cr(line)) == parsed_line(line),
        mark_of(chomp_cr(line)) == mark_of(line),
{
    if line.len() > 0 && line.last() == '\r' {
        lemma_trim_push(line.drop_last(), '\r');
        assert(line.drop_last().push('\r') == line);
    }
}

/// Lines that read alike hold the same keys.
proof fn lemma_alike(a: Seq<Seq<char>>, b: Seq<Seq<char>>, material: Seq<char>)
    requires
        a.len() == b.len(),
        forall|i: int| 0 <= i < a.len() ==> b[i] == chomp_cr(#[trigger] a[i]) || b[i] == a[i],
    ensures
        marks_in(a) == marks_in(b),
        enrolled(a, material) == enrolled(b, material),
    decreases a.len(),
{
    if a.len() > 0 {
        assert forall|i: int| 0 <= i < a.drop_last().len() implies b.drop_last()[i] == chomp_cr(
            #[trigger] a.drop_last()[i],
        ) || b.drop_last()[i] == a.drop_last()[i] by {
            assert(b[i] == chomp_cr(a[i]) || b[i] == a[i]);
        }
        assert forall|i: int| 0 <= i < a.drop_first().len() implies b.drop_first()[i] == chomp_cr(
            #[trigger] a.drop_first()[i],
        ) || b.drop_first()[i] == a.drop_first()[i] by {
            assert(b[i + 1] == chomp_cr(a[i + 1]) || b[i + 1] == a[i + 1]);
        }
        lemma_alike(a.drop_last(), b.drop_last(), material);
        lemma_alike(a.drop_first(), b.drop_first(), material);
        lemma_chomped(a[0]);
        lemma_chomped(a.last());
        assert(b[0] == chomp_cr(a[0]) || b[0] == a[0]);
        assert(b[a.len() - 1] == chomp_cr(a[a.len() - 1]) || b[a.len() - 1] == a[a.len() - 1]);
    }
}

proof fn lemma_enrolled_last(lines: Seq<Seq<char>>, line: Seq<char>, material: Seq<char>)
    requires
        enrolled(lines, material) is None,
    ensures
        enrolled(lines.push(line), material) == enrolled(seq![line], material),
    decreases lines.len(),
{
    if lines.len() == 0 {
        assert(lines.push(line) == seq![line]);
    } else {
        assert(lines.push(line).drop_first() == lines.drop_first().push(line));
        lemma_enrolled_last(lines.drop_first(), line, material);
    }
}

proof fn lemma_key_line_unbroken(key_type: Seq<char>, material: Seq<char>, comment: Seq<char>)
    requires
        plain_key(key_type, material),
        unbroken(comment),
    ensures
        unbroken(key_line(key_type, material, comment)),
{
    reveal_strlit(" ");
    let line = key_line(key_type, material, comment);
    assert forall|i: int| 0 <= i < line.len() implies #[trigger] line[i] != '\n' by {
        let a = key_type.len() as int;
        let b = a + 1 + material.len() as int;
        if i < a {
            assert(line[i] == key_type[i]);
            assert(!is_white(key_type[i]));
        } else if a < i && i < b {
            assert(line[i] == material[i - a - 1]);
            assert(!is_white(material[i - a - 1]));
        } else if b < i {
            assert(line[i] == comment[i - b - 1]);
        }
    }
}

/// Adding a key adds one line at the end. The lines before it stay, save that
/// an unterminated last line is terminated, which may take a carriage return
/// into its ending; they hold the same keys.
pub proof fn adding_keeps_the_rest(
    content: Seq<char>,
    key_type: Seq<char>,
    material: Seq<char>,
    comment: Seq<char>,
    other: Seq<char>,
)
    requires
        plain_key(key_type, material),
        unbroken(comment),
    ensures
        terminated(content).is_prefix_of(with_key(content, key_type, material, comment)),
        lines_of(with_key(content, key_type, material, comment)) == lines_of(
            terminated(content),
        ).push(chomp_cr(key_line(key_type, material, comment))),
        lines_of(terminated(content)).len() == lines_of(content).len(),
        forall|i: int|
            0 <= i < lines_of(content).len() ==> {
                let now = lines_of(terminated(content))[i];
                now == #[trigger] lines_of(content)[i] || now == chomp_cr(lines_of(content)[i])
            },
        marks_in(lines_of(terminated(content))) == marks_in(lines_of(content)),
        enrolled(lines_of(terminated(content)), other) == enrolled(lines_of(content), other),
{
    let line = key_line(key_type, material, comment);
    lemma_key_line_unbroken(key_type, material, comment);
    lemma_line_alone(line);
    lemma_lines_append(terminated(content), line.push('\n'));
    assert(lines_of(terminated(content)) + seq![chomp_cr(line)] =~= lines_of(
        terminated(content),
    ).push(chomp_cr(line)));
    if content.len() > 0 && content.last() != '\n' {
        lemma_lines_terminated(content);
    }
    lemma_alike(lines_of(content), lines_of(terminated(content)), other);
}

/// Adding the same key again finds the line that was added.
pub proof fn adding_twice_adds_once(
    content: Seq<char>,
    key_type: Seq<char>,
    material: Seq<char>,
    comment: Seq<char>,
)
    requires
        plain_key(key_type, material),
        unbroken(comment),
        enrolled(lines_of(content), material) is None,
    ensures
        enrolled(lines_of(with_key(content, key_type, material, comment)), material) == Some(
            settled(comment),
        ),
{
    let line = key_line(key_type, material, comment);
    written_lines_are_read_back(key_type, material, comment);
    lemma_chomped(line);
    adding_keeps_the_rest(content, key_type, material, comment, material);
    lemma_enrolled_last(lines_of(terminated(content)), chomp_cr(line), material);
}

/// The marker that names an id and a device.
pub open spec fn marker(id: Seq<char>, device: Seq<char>) -> Seq<char> {
    MARKER_PREFIX@ + id + ":"@ + device
}

/// A marker of an id and a device without white space is one word.
pub proof fn lemma_marker_is_word(id: Seq<char>, device: Seq<char>)
    requires
        forall|i: int| 0 <= i < id.len() ==> !is_white(#[trigger] id[i]),
        forall|i: int| 0 <= i < device.len() ==> !is_white(#[trigger] device[i]),
    ensures
        is_word(marker(id, device)),
{
    reveal_strlit("multiplex:bind:");
    reveal_strlit(":");
    let comment = marker(id, device);
    assert forall|i: int| 0 <= i < comment.len() implies !is_white(#[trigger] comment[i]) by {
        let a = MARKER_PREFIX@.len() as int;
        let b = a + id.len() as int;
        if i < a {
            assert(comment[i] == MARKER_PREFIX@[i]);
        } else if i < b {
            assert(comment[i] == id[i - a]);
        } else if i > b {
            assert(comment[i] == device[i - b - 1]);
        }
    }
}

proof fn lemma_colon_at(id: Seq<char>, rest: Seq<char>)
    requires
        forall|i: int| 0 <= i < id.len() ==> #[trigger] id[i] != ':',
        rest.len() > 0,
        rest[0] == ':',
    ensures
        colon_at(id + rest) == id.len(),
    decreases id.len(),
{
    if id.len() == 0 {
        assert(id + rest == rest);
    } else {
        assert((id + rest)[0] == id[0]);
        assert((id + rest).drop_first() == id.drop_first() + rest);
        assert forall|i: int| 0 <= i < id.drop_first().len() implies #[trigger] id.drop_first()[i]
            != ':' by {
            assert(id[i + 1] != ':');
        }
        lemma_colon_at(id.drop_first(), rest);
    }
}

/// A marker names the id and the device it was made from.
pub proof fn markers_are_read_back(id: Seq<char>, device: Seq<char>)
    requires
        forall|i: int| 0 <= i < id.len() ==> #[trigger] id[i] != ':',
    ensures
        marker_of(marker(id, device)) == Some((id, device)),
{
    reveal_strlit(":");
    let comment = marker(id, device);
    let rest = comment.skip(MARKER_PREFIX@.len() as int);
    assert(rest == id + (":"@ + device));
    lemma_colon_at(id, ":"@ + device);
    assert(MARKER_PREFIX@.is_prefix_of(comment));
    assert(rest.take(id.len() as int) == id);
    assert(rest.skip(id.len() as int + 1) == device);
}

/// A key that was added under a marker is listed last, and taking its line out
/// again leaves the text that was there before, its last line terminated.
pub proof fn added_keys_are_listed_and_can_be_removed(
    content: Seq<char>,
    key_type: Seq<char>,
    material: Seq<char>,
    id: Seq<char>,
    device: Seq<char>,
)
    requires
        plain_key(key_type, material),
        is_word(marker(id, device)),
        forall|i: int| 0 <= i < id.len() ==> #[trigger] id[i] != ':',
    ensures
        ({
            let comment = marker(id, device);
            let text = with_key(content, key_type, material, comment);
            let lines = lines_of(text);
            let mark = Mark { id, device, key_type, line: key_line(key_type, material, comment) };
            let picks = Seq::new(lines.len(), |i: int| i == lines.len() - 1);
            &&& mark_of(lines.last()) == Some(mark)
            &&& marks_in(lines) == marks_in(lines_of(content)).push(mark)
            &&& picked_marks(lines, picks) == seq![mark]
            &&& text_left(text, picks) == terminated(content)
        }),
{
    let comment = marker(id, device);
    let line = key_line(key_type, material, comment);
    let text = with_key(content, key_type, material, comment);
    let lines = lines_of(text);
    let picks = Seq::new(lines.len(), |i: int| i == lines.len() - 1);
    assert forall|i: int| 0 <= i < comment.len() implies #[trigger] comment[i] != '\n' by {
        assert(!is_white(comment[i]));
    }
    one_word_is_settled(comment);
    written_lines_are_read_back(key_type, material, comment);
    markers_are_read_back(id, device);
    adding_keeps_the_rest(content, key_type, material, comment, material);
    assert(line[0] == key_type[0]);
    assert(!is_white(key_type[0]));
    assert(line.last() == comment.last());
    assert(!is_white(comment[comment.len() - 1]));
    lemma_trim_none(line);
    assert(chomp_cr(line) == line);
    assert(lines.drop_last() =~= lines_of(terminated(content)));
    lemma_nothing_picked(lines.drop_last(), picks);
    assert(picked_marks(lines, picks) =~= seq![mark_of(line)->0]);
    lemma_key_line_unbroken(key_type, material, comment);
    lemma_segment_alone(line);
    lemma_segments_append(terminated(content), line.push('\n'));
    let segments = segments_of(text);
    segments_make_up_the_text(text);
    segments_make_up_the_text(terminated(content));
    assert(stripped_all(segments).len() == segments.len());
    assert(segments.drop_last() =~= segments_of(terminated(content)));
    lemma_nothing_picked(segments.drop_last(), picks);
}

proof fn lemma_nothing_picked(lines: Seq<Seq<char>>, picks: Seq<bool>)
    requires
        picks.len() >= lines.len(),
        forall|i: int| 0 <= i < lines.len() ==> !#[trigger] picks[i],
    ensures
        picked_marks(lines, picks) == Seq::<Mark>::empty(),
        lines_left(lines, picks) == lines,
    decreases lines.len(),
{
    if lines.len() > 0 {
        lemma_nothing_picked(lines.drop_last(), picks);
        assert(lines.drop_last().push(lines.last()) == lines);
    }
}

proof fn lemma_left_segments(parts: Seq<Seq<char>>, picks: Seq<bool>)
    requires
        are_segments(parts),
    ensures
        are_segments(lines_left(parts, picks)),
        stripped_all(lines_left(parts, picks)) == lines_left(stripped_all(parts), picks),
        parts.len() > 0 && parts.last().last() == '\n' ==> forall|i: int|
            0 <= i < lines_left(parts, picks).len() ==> (#[trigger] lines_left(parts, picks)[i]).last()
                == '\n',
    decreases parts.len(),
{
    if parts.len() == 0 {
        assert(stripped_all(lines_left(parts, picks)) =~= lines_left(stripped_all(parts), picks));
    } else {
        let before = parts.drop_last();
        let last = parts.last();
        assert(parts[parts.len() - 1] == last);
        assert forall|i: int| 0 <= i < before.len() implies (#[trigger] before[i]).len() > 0
            && unbroken(before[i].drop_last()) && before[i].last() == '\n' by {
            assert(before[i] == parts[i]);
        }
        lemma_left_segments(before, picks);
        if before.len() > 0 {
            assert(before[before.len() - 1].last() == '\n');
        }
        let left = lines_left(parts, picks);
        let kept = lines_left(before, picks);
        assert forall|i: int| 0 <= i < left.len() implies (#[trigger] left[i]).len() > 0
            && unbroken(left[i].drop_last()) && (i < left.len() - 1 || last.last() == '\n'
            ==> left[i].last() == '\n') by {
            if i < kept.len() {
                assert(left[i] == kept[i]);
            }
        }
        assert(stripped_all(parts).drop_last() =~= stripped_all(before));
        assert(stripped_all(parts).last() == stripped(last));
        assert(stripped_all(left) =~= lines_left(stripped_all(parts), picks));
    }
}

/// The text that is left after a removal has exactly the lines that were not
/// picked, in their order; and it is the text as it was if none was picked.
pub proof fn removal_keeps_the_rest(content: Seq<char>, picks: Seq<bool>)
    ensures
        lines_of(text_left(content, picks)) == lines_left(lines_of(content), picks),
        picks.len() == lines_of(content).len() && (forall|i: int|
            0 <= i < picks.len() ==> !#[trigger] picks[i]) ==> text_left(content, picks) == content,
{
    let segments = segments_of(content);
    segments_make_up_the_text(content);
    assert(stripped_all(segments).len() == segments.len());
    lemma_left_segments(segments, picks);
    lemma_lines_of_segments(lines_left(segments, picks));
    if picks.len() == lines_of(content).len() && forall|i: int|
        0 <= i < picks.len() ==> !#[trigger] picks[i] {
        lemma_nothing_picked(segments, picks);
    }
}

proof fn lemma_left_unmarked(lines: Seq<Seq<char>>, picks: Seq<bool>, i: int)
    requires
        0 <= i < lines_left(lines, picks).len(),
    ensures
        exists|k: int|
            0 <= k < lines.len() && !#[trigger] picks[k] && lines_left(lines, picks)[i] == lines[k],
    decreases lines.len(),
{
    let before = lines.drop_last();
    let last = lines.len() - 1;
    if !picks[last] && i == lines_left(lines, picks).len() - 1 {
        assert(lines_left(lines, picks)[i] == lines[last]);
    } else {
        lemma_left_unmarked(before, picks, i);
        let k = choose|k: int|
            0 <= k < before.len() && !#[trigger] picks[k] && lines_left(before, picks)[i]
                == before[k];
        assert(lines_left(lines, picks)[i] == lines[k]);
    }
}

/// Removing every marked key leaves no marked key.
pub proof fn removing_all_leaves_none(content: Seq<char>, picks: Seq<bool>)
    requires
        picks.len() == lines_of(content).len(),
        forall|i: int|
            0 <= i < picks.len() ==> (#[trigger] picks[i] <==> mark_of(lines_of(content)[i])
                is Some),
    ensures
        marks_in(lines_of(text_left(content, picks))) == Seq::<Mark>::empty(),
{
    let left = lines_left(lines_of(content), picks);
    removal_keeps_the_rest(content, picks);
    assert forall|i: int| 0 <= i < left.len() implies mark_of(#[trigger] left[i]) is None by {
        lemma_left_unmarked(lines_of(content), picks, i);
    }
    lemma_no_marks(left);
}

proof fn lemma_no_marks(lines: Seq<Seq<char>>)
    requires
        forall|i: int| 0 <= i < lines.len() ==> mark_of(#[trigger] lines[i]) is None,
    ensures
        marks_in(lines) == Seq::<Mark>::empty(),
    decreases lines.len(),
{
    if lines.len() > 0 {
        assert(mark_of(lines[lines.len() - 1]) is None);
        assert forall|i: int| 0 <= i < lines.drop_last().len() implies mark_of(
            #[trigger] lines.drop_last()[i],
        ) is None by {
            assert(mark_of(lines[i]) is None);
        }
        lemma_no_marks(lines.drop_last());
    }
}

/// A key is already there exactly if some line's key material equals it in full,
/// and then the comment is that of the first such line.
pub proof fn a_key_is_there_if_a_line_holds_all_of_it(lines: Seq<Seq<char>>, material: Seq<char>)
    ensures
        enrolled(lines, material) is Some <==> exists|i: int|
            0 <= i < lines.len() && parsed_line(#[trigger] lines[i]) is Some && parsed_line(
                lines[i],
            )->0.material == material,
        enrolled(lines, material) matches Some(comment) ==> exists|i: int|
            {
                &&& 0 <= i < lines.len()
                &&& parsed_line(#[trigger] lines[i]) is Some
                &&& parsed_line(lines[i])->0.material == material
                &&& parsed_line(lines[i])->0.comment == comment
                &&& forall|j: int|
                    0 <= j < i && parsed_line(#[trigger] lines[j]) is Some ==> parsed_line(
                        lines[j],
                    )->0.material != material
            },
    decreases lines.len(),
{
    if lines.len() > 0 {
        let rest = lines.drop_first();
        a_key_is_there_if_a_line_holds_all_of_it(rest, material);
        let first = parsed_line(lines[0]) is Some && parsed_line(lines[0])->0.material == material;
        if first {
            assert(parsed_line(lines[0]) is Some);
        } else {
            assert forall|j: int| 0 <= j < rest.len() implies #[trigger] rest[j] == lines[j + 1] by {}
            if enrolled(rest, material) is Some {
                let comment = enrolled(rest, material)->0;
                let i = choose|i: int|
                    {
                        &&& 0 <= i < rest.len()
                        &&& parsed_line(#[trigger] rest[i]) is Some
                        &&& parsed_line(rest[i])->0.material == material
                        &&& parsed_line(rest[i])->0.comment == comment
                        &&& forall|j: int|
                            0 <= j < i && parsed_line(#[trigger] rest[j]) is Some ==> parsed_line(
                                rest[j],
                            )->0.material != material
                    };
                assert(lines[i + 1] == rest[i]);
                assert forall|j: int|
                    0 <= j < i + 1 && parsed_line(#[trigger] lines[j]) is Some implies parsed_line(
                    lines[j],
                )->0.material != material by {
                    if j > 0 {
                        assert(rest[j - 1] == lines[j]);
                    }
                }
            }
            if exists|i: int|
                0 <= i < lines.len() && parsed_line(#[trigger] lines[i]) is Some && parsed_line(
                    lines[i],
                )->0.material == material {
                let i = choose|i: int|
                    0 <= i < lines.len() && parsed_line(#[trigger] lines[i]) is Some
                        && parsed_line(lines[i])->0.material == material;
                assert(rest[i - 1] == lines[i]);
            }
        }
    }
}

/// The text after a key was added is the text before, a line feed if its last
/// line lacked one, and one more line: type, material and comment, a space
/// between each two.
pub proof fn adding_appends_one_line(
    content: Seq<char>,
    key_type: Seq<char>,
    material: Seq<char>,
    comment: Seq<char>,
)
    ensures
        ({
            let text = with_key(content, key_type, material, comment);
            let line = key_type + seq![' '] + material + seq![' '] + comment + seq!['\n'];
            &&& content.is_prefix_of(text)
            &&& content.len() == 0 || content[content.len() - 1] == '\n' ==> text == content + line
            &&& content.len() > 0 && content[content.len() - 1] != '\n' ==> text == content
                + seq!['\n'] + line
        }),
{
    reveal_strlit(" ");
    let text = with_key(content, key_type, material, comment);
    let line = key_type + seq![' '] + material + seq![' '] + comment + seq!['\n'];
    assert(" "@ =~= seq![' ']);
    assert(key_line(key_type, material, comment).push('\n') =~= line);
    if content.len() > 0 && content.last() != '\n' {
        assert(text =~= content + seq!['\n'] + line);
    } else {
        assert(text =~= content + line);
    }
}

/// How many of the first `n` answers are `yes`.
pub open spec fn answers_before(picks: Seq<bool>, n: nat, yes: bool) -> nat
    decreases n,
{
    if n == 0 {
        0
    } else {
        answers_before(picks, (n - 1) as nat, yes) + (if picks[n - 1] == yes { 1nat } else { 0nat })
    }
}

/// Every line that is not picked is left, at the place that counts the unpicked
/// lines before it, and nothing else is left; and every picked line's mark is
/// told, at the place that counts the picked lines before it, and no other.
pub proof fn lines_are_left_or_told_one_by_one(
    lines: Seq<Seq<char>>,
    picks: Seq<bool>,
    i: int,
)
    requires
        picks.len() >= lines.len(),
        0 <= i < lines.len(),
    ensures
        lines_left(lines, picks).len() == answers_before(picks, lines.len(), false),
        picked_marks(lines, picks).len() == answers_before(picks, lines.len(), true),
        lines_left(lines, picks).len() + picked_marks(lines, picks).len() == lines.len(),
        !picks[i] ==> {
            let at = answers_before(picks, i as nat, false) as int;
            at < lines_left(lines, picks).len() && lines_left(lines, picks)[at] == lines[i]
        },
        picks[i] ==> {
            let at = answers_before(picks, i as nat, true) as int;
            at < picked_marks(lines, picks).len() && picked_marks(lines, picks)[at] == mark_of(
                lines[i],
            )->0
        },
{
    lemma_left_count(lines, picks);
    if picks[i] {
        lemma_told_at(lines, picks, i);
    } else {
        lemma_left_at(lines, picks, i);
    }
}

proof fn lemma_left_count(lines: Seq<Seq<char>>, picks: Seq<bool>)
    requires
        picks.len() >= lines.len(),
    ensures
        lines_left(lines, picks).len() == answers_before(picks, lines.len(), false),
        picked_marks(lines, picks).len() == answers_before(picks, lines.len(), true),
        lines_left(lines, picks).len() + picked_marks(lines, picks).len() == lines.len(),
    decreases lines.len(),
{
    if lines.len() > 0 {
        lemma_left_count(lines.drop_last(), picks);
    }
}

proof fn lemma_left_at(lines: Seq<Seq<char>>, picks: Seq<bool>, i: int)
    requires
        picks.len() >= lines.len(),
        0 <= i < lines.len(),
        !picks[i],
    ensures
        answers_before(picks, i as nat, false) < lines_left(lines, picks).len(),
        lines_left(lines, picks)[answers_before(picks, i as nat, false) as int] == lines[i],
    decreases lines.len(),
{
    let before = lines.drop_last();
    lemma_left_count(before, picks);
    if i < before.len() {
        lemma_left_at(before, picks, i);
    }
}

proof fn lemma_told_at(lines: Seq<Seq<char>>, picks: Seq<bool>, i: int)
    requires
        picks.len() >= lines.len(),
        0 <= i < lines.len(),
        picks[i],
    ensures
        answers_before(picks, i as nat, true) < picked_marks(lines, picks).len(),
        picked_marks(lines, picks)[answers_before(picks, i as nat, true) as int] == mark_of(
            lines[i],
        )->0,
    decreases lines.len(),
{
    let before = lines.drop_last();
    lemma_left_count(before, picks);
    if i < before.len() {
        lemma_told_at(before, picks, i);
    }
}

proof fn lemma_left_append(a: Seq<Seq<char>>, b: Seq<Seq<char>>, p: Seq<bool>, q: Seq<bool>)
    requires
        p.len() == a.len(),
        q.len() == b.len(),
    ensures
        lines_left(a + b, p + q) == lines_left(a, p) + lines_left(b, q),
    decreases b.len(),
{
    let all = a + b;
    if b.len() == 0 {
        assert(all =~= a);
        assert(p + q =~= p);
        assert(lines_left(a, p) + lines_left(b, q) =~= lines_left(a, p));
    } else {
        let fewer = q.drop_last();
        assert(all.drop_last() =~= a + b.drop_last());
        assert(p + q =~= (p + fewer).push(q.last()));
        lemma_left_append(a, b.drop_last(), p, fewer);
        lemma_picks_extend(all.drop_last(), p + fewer, q.last());
        assert(q =~= fewer.push(q.last()));
        lemma_picks_extend(b.drop_last(), fewer, q.last());
        assert(lines_left(all, p + q) =~= lines_left(a, p) + lines_left(b, q));
    }
}

proof fn lemma_concat_append(a: Seq<Seq<char>>, b: Seq<Seq<char>>)
    ensures
        concat_of(a + b) == concat_of(a) + concat_of(b),
    decreases b.len(),
{
    if b.len() == 0 {
        assert(a + b =~= a);
        assert(concat_of(a) + concat_of(b) =~= concat_of(a));
    } else {
        assert((a + b).drop_last() =~= a + b.drop_last());
        lemma_concat_append(a, b.drop_last());
        assert(concat_of(a + b) =~= concat_of(a) + concat_of(b));
    }
}

/// Removal goes line by line. Where a text is cut behind a line feed, what is
/// left of it is what is left of the two parts; of a single line, terminated or
/// not, nothing is left if it is picked and all of it, ending included, if it is
/// not.
pub proof fn removal_goes_line_by_line(
    a: Seq<char>,
    b: Seq<char>,
    p: Seq<bool>,
    q: Seq<bool>,
    line: Seq<char>,
)
    requires
        a.len() == 0 || a[a.len() - 1] == '\n',
        p.len() == lines_of(a).len(),
        q.len() == lines_of(b).len(),
        line.len() > 0,
        forall|i: int| 0 <= i < line.len() - 1 ==> #[trigger] line[i] != '\n',
    ensures
        lines_of(a + b).len() == p.len() + q.len(),
        text_left(a + b, p + q) == text_left(a, p) + text_left(b, q),
        lines_of(line).len() == 1,
        text_left(line, seq![true]) == Seq::<char>::empty(),
        text_left(line, seq![false]) == line,
{
    segments_make_up_the_text(a);
    segments_make_up_the_text(b);
    lemma_segments_append(a, b);
    lemma_lines_append(a, b);
    assert(stripped_all(segments_of(a)).len() == segments_of(a).len());
    assert(stripped_all(segments_of(b)).len() == segments_of(b).len());
    lemma_left_append(segments_of(a), segments_of(b), p, q);
    lemma_concat_append(lines_left(segments_of(a), p), lines_left(segments_of(b), q));
    let none = Seq::<Seq<char>>::empty();
    assert(segments_of(line) =~= seq![line] && lines_of(line).len() == 1) by {
        if line.last() == '\n' {
            let front = line.drop_last();
            assert(unbroken(front));
            assert(front.push('\n') =~= line);
            lemma_segment_alone(front);
            lemma_line_alone(front);
        } else {
            assert(unbroken(line));
            lemma_whole_line(line);
        }
    }
    assert(seq![line].drop_last() =~= none);
    assert(lines_left(none, seq![true]) =~= none);
    assert(lines_left(none, seq![false]) =~= none);
    assert(lines_left(seq![line], seq![true]) =~= none);
    assert(lines_left(seq![line], seq![false]) =~= seq![line]);
    assert(concat_of(none) =~= Seq::<char>::empty());
    assert(concat_of(seq![line]) =~= line);
}

/// The marked keys of some lines are those of the first lines and those of the
/// rest, and a single line has its own or none.
pub proof fn marks_are_listed_line_by_line(
    a: Seq<Seq<char>>,
    b: Seq<Seq<char>>,
    line: Seq<char>,
)
    ensures
        marks_in(a + b) == marks_in(a) + marks_in(b),
        mark_of(line) matches Some(mark) ==> marks_in(seq![line]) == seq![mark],
        mark_of(line) is None ==> marks_in(seq![line]).len() == 0,
        marks_in(Seq::empty()).len() == 0,
    decreases b.len(),
{
    let none = Seq::<Seq<char>>::empty();
    assert(seq![line].drop_last() =~= none);
    assert(marks_in(none) =~= Seq::<Mark>::empty());
    if mark_of(line) is Some {
        assert(marks_in(seq![line]) =~= seq![mark_of(line)->0]);
    }
    if b.len() == 0 {
        assert(a + b =~= a);
        assert(marks_in(a) + marks_in(b) =~= marks_in(a));
    } else {
        assert((a + b).drop_last() =~= a + b.drop_last());
        marks_are_listed_line_by_line(a, b.drop_last(), line);
        assert(marks_in(a + b) =~= marks_in(a) + marks_in(b));
    }
}

/// A line is marked exactly if its comment begins with the marker's prefix. The
/// id reaches up to the first colon behind that, the device is all that follows
/// it, and the line is kept whole but for white space around it.
pub proof fn a_mark_is_what_the_comment_says(line: Seq<char>, id: Seq<char>, device: Seq<char>)
    requires
        forall|i: int| 0 <= i < id.len() ==> #[trigger] id[i] != ':',
    ensures
        mark_of(line) is Some <==> (parsed_line(line) is Some && "multiplex:bind:"@.is_prefix_of(
            parsed_line(line)->0.comment,
        )),
        mark_of(line) matches Some(mark) ==> {
            let comment = parsed_line(line)->0.comment;
            &&& mark.key_type == parsed_line(line)->0.key_type
            &&& mark.line == trim_of(line)
            &&& comment == "multiplex:bind:"@ + mark.id + ":"@ + mark.device || (comment
                == "multiplex:bind:"@ + mark.id && mark.device.len() == 0)
            &&& forall|i: int| 0 <= i < mark.id.len() ==> #[trigger] mark.id[i] != ':'
        },
        (parsed_line(line) matches Some(key) && key.comment == "multiplex:bind:"@ + id + ":"@
            + device) ==> (mark_of(line) matches Some(mark) && mark.id == id && mark.device
            == device),
        (parsed_line(line) matches Some(key) && key.comment == "multiplex:bind:"@ + id) ==> (mark_of(
            line,
        ) matches Some(mark) && mark.id == id && mark.device.len() == 0),
{
    reveal_strlit(":");
    let prefix = "multiplex:bind:"@;
    if parsed_line(line) is Some {
        let comment = parsed_line(line)->0.comment;
        if prefix.is_prefix_of(comment) {
            let rest = comment.skip(prefix.len() as int);
            let n = colon_at(rest) as int;
            lemma_colon_found(rest);
            assert(comment =~= prefix + rest);
            if n < rest.len() {
                assert(rest =~= rest.take(n) + ":"@ + rest.skip(n + 1));
                assert(comment =~= prefix + rest.take(n) + ":"@ + rest.skip(n + 1));
            } else {
                assert(rest.take(n) =~= rest);
            }
        }
        if comment == prefix + id + ":"@ + device {
            assert(comment =~= marker(id, device));
            markers_are_read_back(id, device);
            assert(prefix.is_prefix_of(comment));
        }
        if comment == prefix + id {
            let rest = comment.skip(prefix.len() as int);
            assert(rest =~= id);
            lemma_colon_found(rest);
            assert(colon_at(rest) == rest.len()) by {
                if colon_at(rest) < rest.len() {
                    assert(id[colon_at(rest) as int] == ':');
                }
            }
            assert(rest.take(rest.len() as int) =~= id);
            assert(prefix.is_prefix_of(comment));
        }
    }
}

proof fn lemma_colon_found(s: Seq<char>)
    ensures
        colon_at(s) <= s.len(),
        forall|i: int| 0 <= i < colon_at(s) ==> #[trigger] s[i] != ':',
        colon_at(s) < s.len() ==> s[colon_at(s) as int] == ':',
    decreases s.len(),
{
    if s.len() > 0 && s[0] != ':' {
        let rest = s.drop_first();
        lemma_colon_found(rest);
        assert forall|i: int| 0 <= i < colon_at(s) implies #[trigger] s[i] != ':' by {
            if i > 0 {
                assert(rest[i - 1] == s[i]);
            }
        }
        if colon_at(s) < s.len() {
            assert(s[colon_at(s) as int] == rest[colon_at(rest) as int]);
        }
    }
}

/// A key's fields are read from its line, whatever white space stands around it.
pub proof fn keys_of_every_type_are_read(
    key_type: Seq<char>,
    material: Seq<char>,
    comment: Seq<char>,
)
    requires
        "ssh-"@.is_prefix_of(key_type) || "ecdsa-"@.is_prefix_of(key_type) || "sk-"@.is_prefix_of(
            key_type,
        ),
        forall|i: int|
            0 <= i < key_type.len() ==> !is_white(#[trigger] key_type[i]) && key_type[i] != '"',
        material.len() > 0,
        forall|i: int| 0 <= i < material.len() ==> !is_white(#[trigger] material[i]),
    ensures
        parsed_line(key_type + " "@ + material + " "@ + comment) matches Some(key) && {
            &&& key.key_type == key_type
            &&& key.material == material
            &&& key.comment == join_of(fields_of(comment), " "@)
        },
{
    reveal_strlit("ssh-");
    reveal_strlit("ecdsa-");
    reveal_strlit("sk-");
    assert(key_type.len() > 0);
    assert(plain_key(key_type, material));
    written_lines_are_read_back(key_type, material, comment);
}

proof fn lemma_field_runs_on(w: Seq<char>, rest: Seq<char>)
    requires
        forall|i: int| 0 <= i < w.len() ==> #[trigger] w[i] != '"' && !is_white(w[i]),
    ensures
        first_field_len(w + rest, false, false) == w.len() + first_field_len(rest, false, false),
    decreases w.len(),
{
    if w.len() == 0 {
        assert(w + rest =~= rest);
    } else {
        assert((w + rest)[0] == w[0]);
        assert((w + rest).drop_first() =~= w.drop_first() + rest);
        assert forall|i: int| 0 <= i < w.drop_first().len() implies #[trigger] w.drop_first()[i]
            != '"' && !is_white(w.drop_first()[i]) by {
            assert(w[i + 1] != '"');
        }
        lemma_field_runs_on(w.drop_first(), rest);
    }
}

proof fn lemma_plain_options(before: Seq<char>, tail: Seq<char>)
    requires
        tail.len() > 0,
        is_white(tail[0]),
        tail[0] != '"',
        forall|i: int|
            0 <= i < before.len() ==> !is_white(#[trigger] before[i]) && before[i] != '"',
    ensures
        first_field_len(before + tail, false, false) == before.len(),
{
    lemma_field_runs_on(before, tail);
}

proof fn lemma_options_skipped(
    field: Seq<char>,
    key_type: Seq<char>,
    material: Seq<char>,
    comment: Seq<char>,
)
    requires
        plain_key(key_type, material),
        field.len() > 0,
        !is_white(field[0]),
        field[0] != '#',
        !names_key_type(field),
        first_field_len(
            field + (" "@ + key_line(key_type, material, comment)),
            false,
            false,
        ) == field.len(),
    ensures
        parsed_line(field + (" "@ + key_line(key_type, material, comment))) == parsed_line(
            key_line(key_type, material, comment),
        ),
{
    reveal_strlit(" ");
    let line = key_line(key_type, material, comment);
    let whole = field + (" "@ + line);
    let head = key_type + " "@ + material;
    let behind = " "@ + comment;
    let front = field + (" "@ + head);
    let rest = trim_end_of(behind);
    written_lines_are_read_back(key_type, material, comment);
    assert(whole =~= front + behind);
    assert(!is_white(material[material.len() - 1]));
    assert(front.last() == material.last());
    lemma_trim_behind(front, behind);
    lemma_fields_trimmed(behind);
    let trimmed = front + rest;
    assert(whole[0] == field[0]);
    assert(trim_of(whole) == trimmed);
    let after = " "@ + (head + rest);
    assert(trimmed =~= field + after);
    lemma_first_field_of_prefix(whole, trimmed, false, false, field.len());
    assert(first_field_len(trimmed, false, false) == field.len());
    assert(trimmed.take(field.len() as int) =~= field);
    assert(trimmed.skip(field.len() as int) =~= after);
    assert(after.drop_first() =~= head + rest);
    assert(!is_white(key_type[0]));
    assert((head + rest)[0] == key_type[0]);
    assert(after[0] == ' ');
    reveal_with_fuel(trim_start_of, 3);
    assert(trim_start_of(after) == head + rest);
    assert(after_options(trimmed) == head + rest);
    assert(head + rest =~= key_type + (" "@ + (material + rest)));
    assert(rest.len() > 0 ==> rest[0] == behind[0]);
    lemma_fields_word(material, rest);
    lemma_fields_blank(material + rest);
    lemma_fields_word(key_type, " "@ + (material + rest));
    lemma_fields_blank(comment);
    assert(fields_of(head + rest) == seq![key_type] + (seq![material] + fields_of(comment)));
    assert(fields_of(head + rest).skip(2) =~= fields_of(comment));
}

proof fn lemma_first_field_of_prefix(
    s: Seq<char>,
    t: Seq<char>,
    quoted: bool,
    escaped: bool,
    n: nat,
)
    requires
        t.is_prefix_of(s),
        first_field_len(s, quoted, escaped) == n,
        n < t.len(),
    ensures
        first_field_len(t, quoted, escaped) == n,
    decreases s.len(),
{
    assert(t[0] == s[0]);
    assert(t.drop_first().is_prefix_of(s.drop_first()));
    if n > 0 {
        if escaped {
            lemma_first_field_of_prefix(s.drop_first(), t.drop_first(), quoted, false, (n - 1) as nat);
        } else if s[0] == '\\' && quoted {
            lemma_first_field_of_prefix(s.drop_first(), t.drop_first(), quoted, true, (n - 1) as nat);
        } else if s[0] == '"' {
            lemma_first_field_of_prefix(
                s.drop_first(),
                t.drop_first(),
                !quoted,
                false,
                (n - 1) as nat,
            );
        } else {
            lemma_first_field_of_prefix(s.drop_first(), t.drop_first(), quoted, false, (n - 1) as nat);
        }
    }
}

/// Blank lines and comments hold no key.
pub proof fn blank_lines_and_comments_hold_no_key(blank: Seq<char>, rest: Seq<char>)
    requires
        forall|i: int| 0 <= i < blank.len() ==> is_white(#[trigger] blank[i]),
    ensures
        parsed_line(blank) is None,
        parsed_line(blank + seq!['#'] + rest) is None,
    decreases blank.len(),
{
    let line = blank + seq!['#'] + rest;
    lemma_trim_blank(blank, seq!['#'] + rest);
    assert(line =~= blank + (seq!['#'] + rest));
    let front = seq!['#'];
    lemma_trim_behind(front, rest);
    assert(trim_of(line)[0] == '#');
    lemma_trim_blank(blank, Seq::empty());
    assert(blank + Seq::<char>::empty() =~= blank);
    assert(trim_of(blank).len() == 0);
}

/// What reading a file comes to: a missing one reads as empty, UTF-8 as its
/// text, and anything else as an error.
pub proof fn only_text_can_be_edited(file: FileRead)
    ensures
        file is Missing ==> content_of(file) == Ok::<Seq<char>, KeysError>(Seq::empty()),
        (file matches FileRead::Bytes(bytes) && valid_utf8(bytes@)) ==> (content_of(file) matches Ok(
            content,
        ) && encode_utf8(content) == file->Bytes_0@),
        (file matches FileRead::Bytes(bytes) && !valid_utf8(bytes@)) ==> content_of(file) == Err::<
            Seq<char>,
            KeysError,
        >(KeysError::InvalidData),
        file matches FileRead::Failed(why) ==> (content_of(file) matches Err(e) && e.told() == why@),
{
    if let FileRead::Bytes(bytes) = file {
        if valid_utf8(bytes@) {
            decode_utf8_encode_utf8(bytes@);
        }
    }
}

/// The filter is asked of every marked line, by its mark, and of no other: a line
/// without a mark is never picked, and one with a mark exactly if the filter says
/// so.
pub proof fn the_filter_is_asked_of_marked_lines<F: Fn(&MarkedKey) -> bool>(
    filter: F,
    lines: Seq<Seq<char>>,
    picks: Seq<bool>,
    i: int,
)
    requires
        answers(filter, lines, picks),
        0 <= i < lines.len(),
    ensures
        picks.len() == lines.len(),
        mark_of(lines[i]) is None ==> !picks[i],
        mark_of(lines[i]) matches Some(mark) ==> exists|key: MarkedKey|
            key@ == mark && #[trigger] call_ensures(filter, (&key,), picks[i]),
{
    assert(answers_at(filter, lines[i], picks[i]));
}

/// A marked key says all that it holds, in the order of a list; and a failure is
/// passed on with its text.
pub proof fn marked_keys_say_all_they_hold(
    keys: Seq<MarkedKey>,
    i: int,
    r: Result<(), KeysError>,
    e: KeysError,
)
    requires
        0 <= i < keys.len(),
    ensures
        mark_views(keys).len() == keys.len(),
        mark_views(keys)[i] == (Mark {
            id: keys[i].id@,
            device: keys[i].device@,
            key_type: keys[i].key_type@,
            line: keys[i].line@,
        }),
        fails_as(r, e) ==> (r matches Err(err) && err.told() == e.told()),
{
}

/// A key takes two words: one alone is no key, and neither is one behind options.
pub proof fn one_word_is_no_key(options: Seq<char>, w: Seq<char>)
    requires
        is_word(w),
        is_word(options),
        !"ssh-"@.is_prefix_of(options),
        !"ecdsa-"@.is_prefix_of(options),
        !"sk-"@.is_prefix_of(options),
        forall|i: int| 0 <= i < options.len() ==> #[trigger] options[i] != '"',
    ensures
        parsed_line(w) is None,
        parsed_line(options + " "@ + w) is None,
{
    reveal_strlit(" ");
    let empty = Seq::<char>::empty();
    assert(!is_white(w[0]) && !is_white(w[w.len() - 1]));
    lemma_trim_none(w);
    lemma_fields_word(w, empty);
    assert(w + empty =~= w);
    assert(fields_of(w) =~= seq![w]);
    // The first word of a single one is the whole line, whatever is quoted in it.
    lemma_word_alone(w);
    let line = options + " "@ + w;
    assert(!is_white(options[0]));
    assert(line[0] == options[0]);
    assert(line.last() == w.last());
    lemma_trim_none(line);
    let tail = " "@ + w;
    assert(line =~= options + tail);
    assert(tail[0] == ' ');
    lemma_plain_options(options, tail);
    assert(line.take(options.len() as int) =~= options);
    assert(line.skip(options.len() as int) =~= tail);
    assert(tail.drop_first() =~= w);
    reveal_with_fuel(trim_start_of, 3);
    assert(after_options(line) == w);
}

proof fn lemma_word_alone(w: Seq<char>)
    requires
        is_word(w),
    ensures
        after_options(w) == w,
{
    lemma_word_is_first_field(w, false, false);
}

proof fn lemma_word_is_first_field(w: Seq<char>, quoted: bool, escaped: bool)
    requires
        forall|i: int| 0 <= i < w.len() ==> !is_white(#[trigger] w[i]),
    ensures
        first_field_len(w, quoted, escaped) == w.len(),
    decreases w.len(),
{
    if w.len() > 0 {
        let rest = w.drop_first();
        assert forall|i: int| 0 <= i < rest.len() implies !is_white(#[trigger] rest[i]) by {
            assert(!is_white(w[i + 1]));
        }
        assert(!is_white(w[0]));
        lemma_word_is_first_field(rest, quoted, false);
        lemma_word_is_first_field(rest, quoted, true);
        lemma_word_is_first_field(rest, !quoted, false);
    }
}

/// Whether a text is one whole field of options: characters that are not white
/// space, and quoted parts in which anything may stand, a quote or a backslash
/// only behind a backslash. `quoted` tells whether it starts inside quotes.
pub open spec fn is_whole_field(s: Seq<char>, quoted: bool) -> bool
    decreases s.len(),
{
    if s.len() == 0 {
        !quoted
    } else if s[0] == '"' {
        is_whole_field(s.skip(1), !quoted)
    } else if quoted && s[0] == '\\' {
        s.len() >= 2 && is_whole_field(s.skip(2), true)
    } else {
        (quoted || !is_white(s[0])) && is_whole_field(s.skip(1), quoted)
    }
}

proof fn lemma_whole_field(s: Seq<char>, tail: Seq<char>, quoted: bool)
    requires
        is_whole_field(s, quoted),
        tail.len() > 0,
        is_white(tail[0]),
        tail[0] != '"',
    ensures
        first_field_len(s + tail, quoted, false) == s.len(),
    decreases s.len(),
{
    let all = s + tail;
    if s.len() == 0 {
        assert(all =~= tail);
    } else {
        assert(all[0] == s[0]);
        assert(all.drop_first() =~= s.skip(1) + tail);
        if s[0] == '"' {
            lemma_whole_field(s.skip(1), tail, !quoted);
        } else if quoted && s[0] == '\\' {
            let rest = s.skip(1) + tail;
            assert(rest.drop_first() =~= s.skip(2) + tail);
            lemma_whole_field(s.skip(2), tail, true);
            assert(first_field_len(rest, true, true) == 1 + first_field_len(
                rest.drop_first(),
                true,
                false,
            ));
        } else {
            lemma_whole_field(s.skip(1), tail, quoted);
        }
    }
}

/// Whatever options stand before a key, it is read as the key alone is.
pub proof fn keys_are_read_behind_any_options(
    options: Seq<char>,
    key_type: Seq<char>,
    material: Seq<char>,
    comment: Seq<char>,
)
    requires
        options.len() > 0,
        is_whole_field(options, false),
        options[0] != '#',
        !"ssh-"@.is_prefix_of(options),
        !"ecdsa-"@.is_prefix_of(options),
        !"sk-"@.is_prefix_of(options),
        "ssh-"@.is_prefix_of(key_type) || "ecdsa-"@.is_prefix_of(key_type) || "sk-"@.is_prefix_of(
            key_type,
        ),
        forall|i: int|
            0 <= i < key_type.len() ==> !is_white(#[trigger] key_type[i]) && key_type[i] != '"',
        material.len() > 0,
        forall|i: int| 0 <= i < material.len() ==> !is_white(#[trigger] material[i]),
    ensures
        parsed_line(options + " "@ + key_type + " "@ + material + " "@ + comment) == Some(
            KeyLine { key_type, material, comment: join_of(fields_of(comment), " "@) },
        ),
{
    reveal_strlit(" ");
    reveal_strlit("ssh-");
    reveal_strlit("ecdsa-");
    reveal_strlit("sk-");
    assert(plain_key(key_type, material));
    written_lines_are_read_back(key_type, material, comment);
    let line = key_line(key_type, material, comment);
    let tail = " "@ + line;
    assert(tail[0] == ' ');
    lemma_whole_field(options, tail, false);
    assert(!is_white(options[0]));
    lemma_options_skipped(options, key_type, material, comment);
    assert(options + " "@ + key_type + " "@ + material + " "@ + comment =~= options + tail);
}

} // verus!
