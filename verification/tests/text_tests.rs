use cac::text::{chars_of, is_space_char, split_lines, string_of};
use cac::{without_user, Contributor};

#[test]
fn whitespace_matches_std_for_every_char() {
    for u in 0u32..=0x10FFFF {
        if let Some(c) = char::from_u32(u) {
            assert_eq!(is_space_char(c), c.is_whitespace(), "mismatch at U+{:04X}", u);
        }
    }
}

#[test]
fn split_lines_matches_std_lines() {
    let samples = [
        "",
        "\n",
        "a",
        "a\n",
        "a\r\nb",
        "a\r\n\r\nb\n",
        "\r",
        "x\r",
        "x\r\r\n",
        "one\ntwo\n\nthree",
        "üñí\ncødé\r\n",
    ];
    for s in samples.iter() {
        let ours: Vec<String> = split_lines(&chars_of(s)).iter().map(|l| string_of(l)).collect();
        let std: Vec<String> = s.lines().map(|l| l.to_string()).collect();
        assert_eq!(ours, std, "lines of {:?}", s);
    }
}

#[test]
fn user_match_ignores_unicode_case() {
    let cs = vec![
        Contributor { name: "Jörg".to_string(), email: "JÖRG@Example.org".to_string() },
        Contributor { name: "Ann".to_string(), email: "ann@example.org".to_string() },
    ];
    let me = Some(Contributor { name: "J".to_string(), email: "jörg@example.org".to_string() });
    let kept = without_user(&cs, &me);
    assert_eq!(kept.len(), 1);
    assert_eq!(kept[0].name, "Ann");
}
