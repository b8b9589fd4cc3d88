use subnet_calc::normalize::normalize_input;

#[test]
fn fullwidth_digits() {
    assert_eq!(normalize_input("１９２．１６８．１．１／２４"), "192.168.1.1/24");
}

#[test]
fn multiple_spaces() {
    assert_eq!(
        normalize_input("192.168.1.1   255.255.255.0"),
        "192.168.1.1 255.255.255.0"
    );
}

#[test]
fn spaces_around_slash() {
    assert_eq!(normalize_input("10.0.0.1 / 8"), "10.0.0.1/8");
}

#[test]
fn mixed_input() {
    assert_eq!(
        normalize_input("  １９２．１６８．１．１   ／   ２４  "),
        "192.168.1.1/24"
    );
}

#[test]
fn trim_whitespace() {
    assert_eq!(normalize_input("  192.168.1.1  "), "192.168.1.1");
}

#[test]
fn empty_string() {
    assert_eq!(normalize_input(""), "");
}

// Further cases the normaliser handles.

#[test]
fn ideographic_space_and_tabs() {
    assert_eq!(normalize_input("10.0.0.1\u{3000}\t\t255.0.0.0"), "10.0.0.1 255.0.0.0");
    assert_eq!(normalize_input("\u{3000}10.0.0.1\u{3000}"), "10.0.0.1");
}

#[test]
fn fullwidth_letters() {
    assert_eq!(normalize_input("ＡＢｃ"), "ABc");
}

#[test]
fn other_characters_kept() {
    assert_eq!(normalize_input("a\nb"), "a\nb");
    assert_eq!(normalize_input("中文"), "中文");
}

#[test]
fn several_slashes() {
    assert_eq!(normalize_input(" a / b /c "), "a/b/c");
    assert_eq!(normalize_input("/"), "/");
}

#[test]
fn normalizing_twice_changes_nothing() {
    for s in ["  １９２．１６８．１．１   ／   ２４  ", "a  b / c", "", "  x\t\ty  "] {
        let once = normalize_input(s);
        assert_eq!(normalize_input(&once), once);
    }
}

#[test]
fn normalized_text_has_the_promised_shape() {
    for s in ["\u{3000} ａ \t\t b ／ c\u{3000}", "x\n / \ny", "  ", "１２３／　４５６"] {
        let n = normalize_input(s);
        let cs: Vec<char> = n.chars().collect();
        if let (Some(f), Some(l)) = (cs.first(), cs.last()) {
            assert!(!f.is_whitespace() && !l.is_whitespace());
        }
        for (i, c) in cs.iter().enumerate() {
            assert_ne!(*c, '\t');
            let code = *c as u32;
            assert!(!(0xFF10..=0xFF5A).contains(&code) || !(code <= 0xFF19 || (0xFF21..=0xFF3A).contains(&code) || code >= 0xFF41));
            assert!(code != 0xFF0E && code != 0xFF0F && code != 0x3000);
            if i + 1 < cs.len() {
                assert!(!(*c == ' ' && cs[i + 1] == ' '));
                if c.is_whitespace() {
                    assert_ne!(cs[i + 1], '/');
                }
                if cs[i + 1].is_whitespace() {
                    assert_ne!(*c, '/');
                }
            }
        }
    }
    assert_eq!(normalize_input("x\n / \ny"), "x/y");
}
