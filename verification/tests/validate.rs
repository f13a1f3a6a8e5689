use storkitty::validate::{validate_name, validate_path};

#[test]
fn test_validate_path() {
    assert!(validate_path("/data"));
}

#[test]
fn test_validate_name() {
    assert!(validate_name("demo"));
}

#[test]
fn test_validate_name_length() {
    let long_name = "a".repeat(256);
    assert!(!validate_name(&long_name));
    let max_name = "a".repeat(255);
    assert!(validate_name(&max_name));
}

#[test]
fn name_length_counts_bytes() {
    // 85 characters of three bytes each are 255 bytes, one more is 258.
    assert!(validate_name(&"\u{4e2d}".repeat(85)));
    assert!(!validate_name(&"\u{4e2d}".repeat(86)));
    // 127 characters of two bytes and one of one byte are 255 bytes.
    let mut name = "\u{e9}".repeat(127);
    name.push('a');
    assert!(validate_name(&name));
    name.push('a');
    assert!(!validate_name(&name));
}

#[test]
fn name_must_not_be_empty_or_blank() {
    assert!(!validate_name(""));
    assert!(!validate_name(" "));
    assert!(!validate_name("   "));
    assert!(!validate_name("\u{3000}"));
    assert!(!validate_name("\u{a0}\u{2003}"));
    assert!(validate_name(" a"));
}

#[test]
fn name_must_not_be_reserved() {
    for name in [".", "..", "CON", "PRN", "AUX", "NUL", "COM1", "COM9", "LPT1", "LPT9"] {
        assert!(!validate_name(name), "{}", name);
    }
    for digit in 1..10 {
        assert!(!validate_name(&format!("COM{}", digit)));
        assert!(!validate_name(&format!("lpt{}", digit)));
    }
    assert!(!validate_name("con"));
    assert!(!validate_name("Com3"));
    assert!(!validate_name("lpt5"));
    assert!(!validate_name("nUl"));
    assert!(validate_name("COM0"));
    assert!(validate_name("COM10"));
    assert!(validate_name("CONSOLE"));
    assert!(validate_name("nul.txt"));
}

#[test]
fn only_dots_and_device_names_are_reserved() {
    assert!(validate_name(".DS_Store"));
    assert!(validate_name(".ds_store"));
    assert!(validate_name("Thumbs.db"));
    assert!(validate_name(".git"));
    assert!(validate_path("docs/.DS_Store"));
    assert!(validate_path(".DS_Store/x"));
}

#[test]
fn name_must_not_hold_separators() {
    assert!(!validate_name("a/b"));
    assert!(!validate_name("a\\b"));
    assert!(!validate_name("/"));
}

#[test]
fn name_must_not_hold_forbidden_characters() {
    for c in ['<', '>', ':', '"', '|', '?', '*'] {
        let name = format!("a{}b", c);
        assert!(!validate_name(&name), "{}", name);
    }
    assert!(validate_name("a+b=c,d;e'f[g]h{i}j~k!l@m#n$o%p^q&r(s)t"));
}

#[test]
fn name_must_not_hold_control_characters() {
    assert!(!validate_name("a\u{0}b"));
    assert!(!validate_name("a\tb"));
    assert!(!validate_name("a\nb"));
    assert!(!validate_name("a\u{1f}b"));
    assert!(!validate_name("a\u{7f}b"));
    assert!(!validate_name("a\u{80}b"));
    assert!(!validate_name("a\u{9f}b"));
    assert!(validate_name("a\u{a0}b"));
    assert!(validate_name("a\u{7e}b"));
}

#[test]
fn name_must_not_end_in_space_or_dot() {
    assert!(!validate_name("a "));
    assert!(!validate_name("a."));
    assert!(validate_name("a.b"));
    assert!(validate_name(".a"));
    assert!(validate_name("a..b"));
    assert!(validate_name("a\u{3000}"));
}

#[test]
fn name_agrees_with_std_on_every_character_class() {
    // The classes of white space and of control codes are those of std.
    let mut code: u32 = 0;
    while code <= 0x3100 {
        if let Some(c) = char::from_u32(code) {
            let blank: String = [c].iter().collect();
            let expected_blank = !c.is_whitespace()
                && !c.is_control()
                && !"<>:\"|?*/\\. ".contains(c);
            assert_eq!(validate_name(&blank), expected_blank, "U+{:04X}", code);
        }
        code += 1;
    }
}

#[test]
fn path_must_not_be_empty() {
    assert!(!validate_path(""));
}

#[test]
fn path_must_not_start_at_home() {
    assert!(!validate_path("~/notes"));
    assert!(validate_path("~"));
    assert!(validate_path("a/~/b"));
    assert!(validate_path("~a/b"));
}

#[test]
fn path_must_not_have_a_drive_prefix() {
    assert!(!validate_path("C:\\data"));
    assert!(!validate_path("c:/data"));
    assert!(!validate_path("a:b"));
}

#[test]
fn path_with_two_dots_is_refused() {
    assert!(!validate_path(".."));
    assert!(!validate_path("../etc"));
    assert!(!validate_path("docs/../../etc/passwd"));
    assert!(!validate_path("a/b/.."));
    assert!(!validate_path("a..b/c"));
    assert!(!validate_path("a/b..."));
    assert!(validate_path("a/.b/c.d"));
}

#[test]
fn path_is_checked_piece_by_piece() {
    assert!(validate_path("docs/reports/q1.txt"));
    assert!(validate_path("/a//b/"));
    assert!(validate_path("/"));
    assert!(!validate_path("docs/CON/x"));
    assert!(!validate_path("docs/a?b"));
    assert!(!validate_path("docs/ /x"));
    assert!(!validate_path("docs/x."));
    assert!(!validate_path("docs/./x"));
    let long = format!("docs/{}/x", "a".repeat(256));
    assert!(!validate_path(&long));
    let fits = format!("docs/{}/x", "a".repeat(255));
    assert!(validate_path(&fits));
}
