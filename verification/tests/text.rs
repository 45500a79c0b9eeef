use sloc::order::{str_eq, str_le};
use sloc::text::{
    blank, char_is_whitespace, chars_of, find_first, has_prefix, occurs_at, push_number,
    push_signed, rest_from, text_of, trimmed,
};

fn chars(s: &str) -> Vec<char> {
    s.chars().collect()
}

#[test]
fn whitespace_is_unicode_white_space() {
    for code in 0..=0x10ffffu32 {
        if let Some(c) = char::from_u32(code) {
            assert_eq!(char_is_whitespace(c), c.is_whitespace(), "U+{:04X}", code);
        }
    }
}

#[test]
fn chars_and_back() {
    assert_eq!(chars_of("aé\u{1F600}"), vec!['a', 'é', '\u{1F600}']);
    assert_eq!(chars_of(""), Vec::<char>::new());
    assert_eq!(text_of(&['a', 'é', '\u{1F600}']), "aé\u{1F600}");
    assert_eq!(text_of(&[]), "");
}

#[test]
fn trimming_matches_std() {
    for s in ["", " ", "a", "  a b \t", "\u{a0}x\u{2003}", "\n\r x", "x\u{200b}", " \u{3000} "] {
        let v = chars(s);
        assert_eq!(trimmed(&v).to_vec(), chars(s.trim()), "{:?}", s);
        assert_eq!(blank(&v), s.trim().is_empty(), "{:?}", s);
    }
}

#[test]
fn searching_matches_std() {
    let lines = ["", "a", "abcabc", "aaa", "xx/*yy*/", "é/*ü*/é", "/*/"];
    let patterns = ["", "a", "abc", "bc", "aa", "/*", "*/", "é", "zz", "abcabcabc"];
    for line in lines {
        for pattern in patterns {
            let l = chars(line);
            let p = chars(pattern);
            let expected = line.find(pattern).map(|b| line[..b].chars().count());
            assert_eq!(find_first(&l, &p), expected, "{:?} in {:?}", pattern, line);
            assert_eq!(has_prefix(&l, &p), line.starts_with(pattern));
            for i in 0..=l.len() + 1 {
                let at = i + p.len() <= l.len() && l[i..i + p.len()] == p[..];
                assert_eq!(occurs_at(&l, &p, i), at);
            }
        }
    }
    assert_eq!(rest_from(&chars("abc"), 1).to_vec(), chars("bc"));
    assert_eq!(rest_from(&chars("abc"), 3).to_vec(), chars(""));
}

#[test]
fn numbers_as_text() {
    for n in [0usize, 7, 10, 99, 100, 12345, usize::MAX] {
        let mut s = String::from(">");
        push_number(&mut s, n);
        assert_eq!(s, format!(">{}", n));
    }
    for i in [0i64, 1, -1, 10, -10, 1234, -98765, i64::MAX, i64::MIN] {
        let mut s = String::from(">");
        push_signed(&mut s, i);
        assert_eq!(s, format!(">{}", i));
    }
}

#[test]
fn text_order_matches_std() {
    let texts = ["", "a", "A", "ab", "b", "é", "z", "a/b", "a.b", "a-b", "\u{10000}", "\u{ffff}"];
    for a in texts {
        for b in texts {
            assert_eq!(str_le(a, b), a <= b, "{:?} <= {:?}", a, b);
            assert_eq!(str_eq(a, b), a == b);
        }
    }
}
