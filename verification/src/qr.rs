//! QR codes in the terminal: unicode half blocks, two modules to a character
//! row. Block characters draw the light modules, the orientation that phone
//! scanners read reliably from a terminal. Half blocks keep the modules square,
//! so the way to a smaller code is fewer bytes, not denser glyphs.
//!
//! Error correction stays at its lowest level: the code is read off a lit
//! screen from close by.

use qrcode::render::unicode;
use qrcode::{EcLevel, QrCode};
use vstd::prelude::*;
use vstd::string::*;
use crate::text::{lines_of, split_lines, views};

verus! {

/// The block of characters that a text's QR code is drawn as, if it fits one.
pub uninterp spec fn qr_art(payload: Seq<char>) -> Option<Seq<char>>;

/// Calls `QrCode::with_error_correction_level` at level L and renders the code
/// in half blocks, with a quiet zone and the light modules drawn. Trusted: what
/// comes of it depends on the text alone.
#[verifier::external_body]
pub fn render(payload: &str) -> (r: Option<String>)
    ensures
        match r {
            Some(art) => qr_art(payload@) == Some(art@),
            None => qr_art(payload@) is None,
        },
{
    let code = QrCode::with_error_correction_level(payload.as_bytes(), EcLevel::L).ok()?;
    let mut renderer = code.render::<unicode::Dense1x2>();
    renderer.dark_color(unicode::Dense1x2::Light).light_color(unicode::Dense1x2::Dark);
    Some(renderer.quiet_zone(true).build())
}

/// The length of the longest of some lines; 0 if there is none.
pub open spec fn widest_of(lines: Seq<Seq<char>>) -> nat
    decreases lines.len(),
{
    if lines.len() == 0 {
        0
    } else {
        let before = widest_of(lines.drop_last());
        if lines.last().len() > before { lines.last().len() } else { before }
    }
}

/// The length of the longest of some lines; 0 if there is none.
pub fn widest(lines: &Vec<String>) -> (r: usize)
    ensures
        r == widest_of(views(lines@)),
{
    let mut most: usize = 0;
    let mut i: usize = 0;
    assert(views(lines@).take(0) == Seq::<Seq<char>>::empty());
    while i < lines.len()
        invariant
            i <= lines@.len(),
            most == widest_of(views(lines@).take(i as int)),
        decreases lines.len() - i,
    {
        let len = lines[i].as_str().unicode_len();
        assert(views(lines@).take(i + 1).drop_last() == views(lines@).take(i as int));
        if len > most {
            most = len;
        }
        i = i + 1;
    }
    assert(views(lines@).take(i as int) == views(lines@));
    most
}

/// How many terminal columns a rendered block takes.
pub fn width(art: &str) -> (r: usize)
    ensures
        r == widest_of(lines_of(art@)),
{
    widest(&split_lines(art))
}

/// No line is wider than the widest.
pub proof fn lemma_widest(lines: Seq<Seq<char>>)
    ensures
        forall|i: int| 0 <= i < lines.len() ==> (#[trigger] lines[i]).len() <= widest_of(lines),
    decreases lines.len(),
{
    if lines.len() > 0 {
        lemma_widest(lines.drop_last());
        assert forall|i: int| 0 <= i < lines.len() implies (#[trigger] lines[i]).len() <= widest_of(
            lines,
        ) by {
            if i < lines.len() - 1 {
                assert(lines[i] == lines.drop_last()[i]);
            }
        }
    }
}

/// The width is that of a line, unless there is none, and no line is wider.
pub proof fn a_block_is_as_wide_as_one_of_its_lines(lines: Seq<Seq<char>>)
    ensures
        lines.len() == 0 ==> widest_of(lines) == 0,
        lines.len() > 0 ==> exists|i: int|
            0 <= i < lines.len() && (#[trigger] lines[i]).len() == widest_of(lines),
        forall|i: int| 0 <= i < lines.len() ==> (#[trigger] lines[i]).len() <= widest_of(lines),
    decreases lines.len(),
{
    lemma_widest(lines);
    if lines.len() > 0 {
        let before = lines.drop_last();
        let last = lines.len() - 1;
        a_block_is_as_wide_as_one_of_its_lines(before);
        if lines.last().len() > widest_of(before) || before.len() == 0 {
            assert(lines[last].len() == widest_of(lines));
        } else {
            let i = choose|i: int|
                0 <= i < before.len() && (#[trigger] before[i]).len() == widest_of(before);
            assert(lines[i].len() == widest_of(lines));
        }
    }
}

} // verus!
