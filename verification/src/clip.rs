//! Clipboard delivery. Local sessions use the platform's tool; SSH sessions use
//! OSC 52, so that the payload lands on the clipboard of the local terminal.
//! Inside tmux the sequence is wrapped for passthrough.

use vstd::prelude::*;
use vstd::string::*;
use vstd::utf8::*;
use crate::text::{cat3, chars_of};
use crate::util::{b64_fits, b64std, b64std_of};

verus! {

/// What copying came to.
#[derive(Debug, PartialEq, Eq)]
pub enum CopyOutcome {
    /// The payload is on a clipboard; the text says by which way.
    Copied(&'static str),
    Failed,
}

/// A program that takes what is to be copied on its input.
#[derive(Debug, PartialEq, Eq)]
pub enum Tool {
    Pbcopy,
    WlCopy,
    Xclip,
    Xsel,
}

impl Tool {
    pub open spec fn named(&self) -> Seq<char> {
        match self {
            Tool::Pbcopy => "pbcopy"@,
            Tool::WlCopy => "wl-copy"@,
            Tool::Xclip => "xclip"@,
            Tool::Xsel => "xsel"@,
        }
    }

    /// The program's name.
    pub fn name(&self) -> (r: &'static str)
        ensures
            r@ == self.named(),
    {
        match self {
            Tool::Pbcopy => "pbcopy",
            Tool::WlCopy => "wl-copy",
            Tool::Xclip => "xclip",
            Tool::Xsel => "xsel",
        }
    }

    /// Its arguments.
    pub fn args(&self) -> (r: Vec<&'static str>)
        ensures
            match self {
                Tool::Pbcopy => r@.len() == 0,
                Tool::WlCopy => r@.len() == 0,
                Tool::Xclip => r@.len() == 2 && r@[0]@ == "-selection"@ && r@[1]@ == "clipboard"@,
                Tool::Xsel => r@.len() == 2 && r@[0]@ == "--clipboard"@ && r@[1]@ == "--input"@,
            },
    {
        match self {
            Tool::Pbcopy => Vec::new(),
            Tool::WlCopy => Vec::new(),
            Tool::Xclip => vec!["-selection", "clipboard"],
            Tool::Xsel => vec!["--clipboard", "--input"],
        }
    }
}

/// What a session has to copy with.
pub struct Desktop {
    pub macos: bool,
    /// `WAYLAND_DISPLAY` is set.
    pub wayland: bool,
    /// `DISPLAY` is set.
    pub x11: bool,
    pub has_wl_copy: bool,
    pub has_xclip: bool,
    pub has_xsel: bool,
}

/// The platform's tool.
pub fn local_tool(desktop: &Desktop) -> (r: Option<Tool>)
    ensures
        r == (if desktop.macos {
            Some(Tool::Pbcopy)
        } else if desktop.wayland && desktop.has_wl_copy {
            Some(Tool::WlCopy)
        } else if desktop.x11 && desktop.has_xclip {
            Some(Tool::Xclip)
        } else if desktop.x11 && desktop.has_xsel {
            Some(Tool::Xsel)
        } else {
            None
        }),
{
    if desktop.macos {
        return Some(Tool::Pbcopy);
    }
    if desktop.wayland && desktop.has_wl_copy {
        return Some(Tool::WlCopy);
    }
    if desktop.x11 {
        if desktop.has_xclip {
            return Some(Tool::Xclip);
        }
        if desktop.has_xsel {
            return Some(Tool::Xsel);
        }
    }
    None
}

/// What is to be tried next.
#[derive(Debug, PartialEq, Eq)]
pub enum CopyStep {
    /// Pipe the payload to a tool.
    Pipe(Tool),
    /// Write the OSC 52 sequence to the terminal.
    Osc52,
    Done(CopyOutcome),
}

/// What is tried first: the platform's tool, but not over SSH, where it would
/// copy on the wrong machine.
pub fn copy(over_ssh: bool, tool: Option<Tool>) -> (r: CopyStep)
    ensures
        r == (match tool {
            Some(tool) => if over_ssh { CopyStep::Osc52 } else { CopyStep::Pipe(tool) },
            None => CopyStep::Osc52,
        }),
{
    match tool {
        Some(tool) => if over_ssh {
            CopyStep::Osc52
        } else {
            CopyStep::Pipe(tool)
        },
        None => CopyStep::Osc52,
    }
}

/// What follows a tool: it is enough if it worked.
pub fn after_pipe(tool: &Tool, worked: bool) -> (r: CopyStep)
    ensures
        worked ==> (r matches CopyStep::Done(CopyOutcome::Copied(way)) && way@ == tool.named()),
        !worked ==> r == CopyStep::Osc52,
{
    if worked {
        CopyStep::Done(CopyOutcome::Copied(tool.name()))
    } else {
        CopyStep::Osc52
    }
}

/// What the terminal's sequence came to.
pub fn after_osc52(over_ssh: bool, written: bool) -> (r: CopyOutcome)
    ensures
        written ==> (r matches CopyOutcome::Copied(way) && way@ == (if over_ssh {
            "OSC 52 → your local terminal"@
        } else {
            "OSC 52"@
        })),
        !written ==> r == CopyOutcome::Failed,
{
    if written {
        CopyOutcome::Copied(
            if over_ssh {
                "OSC 52 → your local terminal"
            } else {
                "OSC 52"
            },
        )
    } else {
        CopyOutcome::Failed
    }
}

/// `s` with every escape character doubled.
pub open spec fn escapes_doubled(s: Seq<char>) -> Seq<char>
    decreases s.len(),
{
    if s.len() == 0 {
        Seq::empty()
    } else if s.last() == '\x1b' {
        escapes_doubled(s.drop_last()).push('\x1b').push('\x1b')
    } else {
        escapes_doubled(s.drop_last()).push(s.last())
    }
}

/// The sequence that sets the terminal's clipboard.
pub open spec fn osc52_of(payload: Seq<char>) -> Seq<char> {
    "\x1b]52;c;"@ + b64std_of(encode_utf8(payload)) + "\x07"@
}

fn double_escapes(s: &str) -> (r: String)
    ensures
        r@ == escapes_doubled(s@),
{
    let chars = chars_of(s);
    let mut out = String::new();
    let mut i: usize = 0;
    while i < chars.len()
        invariant
            chars@ == s@,
            i <= chars@.len(),
            out@ == escapes_doubled(chars@.take(i as int)),
        decreases chars.len() - i,
    {
        assert(chars@.take(i + 1).drop_last() == chars@.take(i as int));
        if chars[i] == '\x1b' {
            out.push('\x1b');
        }
        out.push(chars[i]);
        i = i + 1;
    }
    assert(chars@.take(i as int) == chars@);
    out
}

/// The OSC 52 sequence for a payload. tmux swallows escapes that it does not
/// know unless they are wrapped, with the escape characters inside doubled.
pub fn osc52(payload: &str, in_tmux: bool) -> (r: String)
    requires
        b64_fits(encode_utf8(payload@).len()),
    ensures
        r@ == (if in_tmux {
            "\x1bPtmux;"@ + escapes_doubled(osc52_of(payload@)) + "\x1b\\"@
        } else {
            osc52_of(payload@)
        }),
{
    let sequence = cat3("\x1b]52;c;", b64std(payload.as_bytes()).as_str(), "\x07");
    if in_tmux {
        cat3("\x1bPtmux;", double_escapes(sequence.as_str()).as_str(), "\x1b\\")
    } else {
        sequence
    }
}

/// What someone inside tmux has to know.
pub fn tmux_passthrough_hint(in_tmux: bool) -> (r: Option<&'static str>)
    ensures
        r is Some <==> in_tmux,
        r matches Some(hint) ==> hint@
            == "inside tmux, OSC 52 needs `set -g allow-passthrough on` in the host's tmux.conf"@,
{
    if in_tmux {
        Some("inside tmux, OSC 52 needs `set -g allow-passthrough on` in the host's tmux.conf")
    } else {
        None
    }
}

/// Escape characters are doubled one by one, and no other character is changed.
pub proof fn escapes_are_doubled_one_by_one(a: Seq<char>, b: Seq<char>, c: char)
    ensures
        escapes_doubled(a + b) == escapes_doubled(a) + escapes_doubled(b),
        escapes_doubled(seq![c]) == (if c == '\x1b' { seq![c, c] } else { seq![c] }),
        escapes_doubled(Seq::empty()).len() == 0,
    decreases b.len(),
{
    let none = Seq::<char>::empty();
    assert(seq![c].drop_last() =~= none);
    assert(escapes_doubled(none) =~= none);
    assert(escapes_doubled(seq![c]) =~= (if c == '\x1b' { seq![c, c] } else { seq![c] }));
    if b.len() == 0 {
        assert(a + b =~= a);
        assert(escapes_doubled(a) + escapes_doubled(b) =~= escapes_doubled(a));
    } else {
        assert((a + b).drop_last() =~= a + b.drop_last());
        escapes_are_doubled_one_by_one(a, b.drop_last(), c);
        assert(escapes_doubled(a + b) =~= escapes_doubled(a) + escapes_doubled(b));
    }
}

/// The clipboard sequence carries the whole payload in base64 between its start
/// and its end.
pub proof fn the_sequence_carries_the_payload(payload: Seq<char>)
    ensures
        osc52_of(payload) == "\x1b]52;c;"@ + b64std_of(encode_utf8(payload)) + "\x07"@,
{
}

/// The names of the tools.
pub proof fn tools_have_their_names()
    ensures
        Tool::Pbcopy.named() == "pbcopy"@,
        Tool::WlCopy.named() == "wl-copy"@,
        Tool::Xclip.named() == "xclip"@,
        Tool::Xsel.named() == "xsel"@,
{
}

} // verus!
