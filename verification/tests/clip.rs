use mpx::clip::{
    after_osc52, after_pipe, copy, local_tool, osc52, tmux_passthrough_hint, CopyOutcome, CopyStep,
    Desktop, Tool,
};

fn desktop() -> Desktop {
    Desktop {
        macos: false,
        wayland: false,
        x11: false,
        has_wl_copy: true,
        has_xclip: true,
        has_xsel: true,
    }
}

#[test]
fn the_platform_picks_the_tool() {
    assert_eq!(local_tool(&desktop()), None);
    assert_eq!(local_tool(&Desktop { macos: true, ..desktop() }), Some(Tool::Pbcopy));
    assert_eq!(local_tool(&Desktop { wayland: true, x11: true, ..desktop() }), Some(Tool::WlCopy));
    assert_eq!(
        local_tool(&Desktop { wayland: true, x11: true, has_wl_copy: false, ..desktop() }),
        Some(Tool::Xclip)
    );
    assert_eq!(
        local_tool(&Desktop { x11: true, has_xclip: false, ..desktop() }),
        Some(Tool::Xsel)
    );
    assert_eq!(
        local_tool(&Desktop { x11: true, has_xclip: false, has_xsel: false, ..desktop() }),
        None
    );
    assert_eq!(Tool::Xclip.args(), ["-selection", "clipboard"]);
    assert_eq!(Tool::Xsel.args(), ["--clipboard", "--input"]);
    assert_eq!(Tool::Pbcopy.args(), Vec::<&str>::new());
    assert_eq!(Tool::WlCopy.name(), "wl-copy");
}

#[test]
fn tools_first_but_not_over_ssh() {
    assert_eq!(copy(false, Some(Tool::Xclip)), CopyStep::Pipe(Tool::Xclip));
    assert_eq!(copy(true, Some(Tool::Xclip)), CopyStep::Osc52);
    assert_eq!(copy(false, None), CopyStep::Osc52);
    assert_eq!(
        after_pipe(&Tool::Xclip, true),
        CopyStep::Done(CopyOutcome::Copied("xclip"))
    );
    assert_eq!(after_pipe(&Tool::Xclip, false), CopyStep::Osc52);
    assert_eq!(after_osc52(false, true), CopyOutcome::Copied("OSC 52"));
    assert_eq!(
        after_osc52(true, true),
        CopyOutcome::Copied("OSC 52 → your local terminal")
    );
    assert_eq!(after_osc52(true, false), CopyOutcome::Failed);
}

#[test]
fn the_clipboard_sequence() {
    assert_eq!(osc52("fo", false), "\x1b]52;c;Zm8=\x07");
    assert_eq!(osc52("fo", true), "\x1bPtmux;\x1b\x1b]52;c;Zm8=\x07\x1b\\");
    assert_eq!(tmux_passthrough_hint(false), None);
    assert!(tmux_passthrough_hint(true).unwrap().contains("allow-passthrough on"));
}
