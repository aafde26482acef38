use mpx::util::{b64std, b64url, b64url_decode, device_slug, hex, hex_decode, note, ok, wait, warn};

#[test]
fn slugs() {
    assert_eq!(device_slug("Jhen's Vision Pro"), "jhen-s-vision-pro");
    assert_eq!(device_slug("  ---  "), "device");
    assert_eq!(device_slug(""), "device");
    assert_eq!(
        device_slug("A very long device display name here"),
        "a-very-long-device-displ"
    );
    assert_eq!(device_slug("iPad Pro 13\""), "ipad-pro-13");
}

#[test]
fn hex_roundtrip() {
    let data = [0u8, 1, 0xab, 0xff];
    assert_eq!(hex_decode(&hex(&data)).unwrap(), data);
    assert_eq!(hex_decode("AB").unwrap(), [0xab]);
    assert!(hex_decode("abc").is_none());
}

/// Multi-byte characters must be rejected, not indexed into.
#[test]
fn hex_rejects_multibyte_input_without_panicking() {
    for bad in ["€€", "ab€€", "😀", "ππ", "\u{0}\u{0}"] {
        assert!(hex_decode(bad).is_none(), "{bad:?} should not decode");
    }
}

#[test]
fn hex_is_lowercase_and_two_digits_a_byte() {
    assert_eq!(hex(&[0, 9, 10, 0x5f, 0xff]), "00090a5fff");
    assert_eq!(hex(&[]), "");
    assert_eq!(hex_decode("").unwrap(), Vec::<u8>::new());
    assert_eq!(hex_decode("aF09").unwrap(), [0xaf, 0x09]);
    for bad in ["g0", "0g", "0x", " 0", "+1"] {
        assert!(hex_decode(bad).is_none(), "{bad:?} should not decode");
    }
}

#[test]
fn a_cut_slug_ends_without_a_dash() {
    // The dash is the 24th character; it goes.
    assert_eq!(
        device_slug("abcdefghijklmnopqrstuvw xyz"),
        "abcdefghijklmnopqrstuvw"
    );
    assert_eq!(
        device_slug("abcdefghijklmnopqrstuvwxyz"),
        "abcdefghijklmnopqrstuvwx"
    );
    assert_eq!(device_slug("Ünï 5"), "n-5");
    assert_eq!(device_slug("--A__B--"), "a-b");
}

#[test]
fn base64_forms() {
    assert_eq!(b64url(&[0xfb, 0xff, 0xbf]), "-_-_");
    assert_eq!(b64std(&[0xfb, 0xff, 0xbf]), "+/+/");
    assert_eq!(b64url(&[]), "");
    assert_eq!(b64url(b"f"), "Zg");
    assert_eq!(b64url(b"fo"), "Zm8");
    assert_eq!(b64url(b"foobar"), "Zm9vYmFy");
    assert_eq!(b64std(b"f"), "Zg==");
    assert_eq!(b64std(b"fo"), "Zm8=");
    assert_eq!(b64std(b"foo"), "Zm9v");
}

#[test]
fn base64_decodes_only_the_canonical_form() {
    for len in 0..40usize {
        let data: Vec<u8> = (0..len).map(|i| (i * 37 + len) as u8).collect();
        assert_eq!(b64url_decode(&b64url(&data)).unwrap(), data);
    }
    // Padding, a stray bit, a lone character, the other alphabet.
    for bad in ["Zg==", "Zh", "Z", "+/+/", "Z g", "Zm9vé"] {
        assert!(b64url_decode(bad).is_none(), "{bad:?} should not decode");
    }
}

#[test]
fn lines_with_and_without_style() {
    assert_eq!(ok("done", false), "+ done");
    assert_eq!(ok("done", true), "\x1b[32m✓\x1b[0m done");
    assert_eq!(note("aside", false), "aside");
    assert_eq!(note("aside", true), "\x1b[2maside\x1b[0m");
    assert_eq!(warn("mind", false), "! mind");
    assert_eq!(warn("mind", true), "\x1b[33m!\x1b[0m mind");
    assert_eq!(wait("soon", false), "~ soon");
    assert_eq!(wait("soon", true), "\x1b[33m◌\x1b[0m soon");
}
