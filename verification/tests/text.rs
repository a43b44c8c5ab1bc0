use ovoice::cut::{cap_str, tail_str, truncate};
use ovoice::decimal::{read_i32, read_u64, write_i64, write_padded, write_u64};
use ovoice::lines::{join_strs, lines_of, sort_strs, sort_strs_down, split_str};
use ovoice::paths::{extension_of_name, join_path, stem_of_name, within};
use ovoice::text::{begins, blank, has, str_eq, trimmed};
use ovoice::wire::parse_json;

fn chars(s: &str) -> Vec<char> {
    s.chars().collect()
}

#[test]
fn numbers_are_written_and_read() {
    for n in [0, 7, 10, 99, 1_785_024_000_000, u64::MAX] {
        assert_eq!(write_u64(n), n.to_string());
        assert_eq!(read_u64(&chars(&n.to_string())), Some(n));
    }
    assert_eq!(write_i64(-12), "-12");
    assert_eq!(write_i64(i64::MIN), i64::MIN.to_string());
    assert_eq!(write_padded(7, 2), "07");
    assert_eq!(write_padded(123, 2), "123");
    assert_eq!(read_u64(&chars("18446744073709551616")), None);
    assert_eq!(read_u64(&chars("")), None);
    assert_eq!(read_u64(&chars("+5")), Some(5));
    assert_eq!(read_i32(&chars("-2147483648")), Some(i32::MIN));
    assert_eq!(read_i32(&chars("2147483648")), None);
}

#[test]
fn texts_are_taken_apart_and_put_together() {
    for s in ["", "a", "a-b", "-a--b-"] {
        let want: Vec<String> = s.split('-').map(|x| x.to_string()).collect();
        assert_eq!(split_str(s, '-'), want, "{s:?}");
        assert_eq!(join_strs(&want, "-"), s);
    }
    for s in ["", "a", "a\n", "a\r\nb", "\n\n", "a\rb\n"] {
        let want: Vec<String> = s.lines().map(|x| x.to_string()).collect();
        assert_eq!(lines_of(s), want, "{s:?}");
    }
    let v = vec!["b".to_string(), "é".to_string(), "a".to_string(), "Z".to_string()];
    let mut want = v.clone();
    want.sort();
    assert_eq!(sort_strs(v.clone()), want);
    want.reverse();
    assert_eq!(sort_strs_down(v), want);
}

#[test]
fn blanks_are_those_of_unicode() {
    for s in ["", "  a ", "\u{3000}字\u{a0}", "\u{200b}x", "\t\r\n", "\u{85}a\u{2028}"] {
        assert_eq!(trimmed(s), s.trim(), "{s:?}");
        assert_eq!(blank(s), s.trim().is_empty(), "{s:?}");
    }
    assert!(has("abc", "bc") && has("abc", "") && !has("abc", "cb"));
    assert!(begins("abc", "ab") && !begins("a", "ab"));
    assert!(str_eq("字", "字") && !str_eq("字", "文"));
}

#[test]
fn texts_are_cut_between_characters() {
    assert_eq!(cap_str("字字", 4, "…"), "字…");
    assert_eq!(cap_str("字字", 6, "…"), "字字");
    assert_eq!(truncate("abcdef", 3), "abc…");
    assert_eq!(tail_str("字字a", 4), "字a");
    assert_eq!(tail_str("字字a", 3), "a");
}

#[test]
fn paths_are_joined_and_looked_into() {
    assert_eq!(join_path("/a", "b"), "/a/b");
    assert_eq!(join_path("/a/", "b"), "/a/b");
    assert_eq!(join_path("/a", "/b"), "/b");
    assert_eq!(extension_of_name("a.tar.gz").as_deref(), Some("gz"));
    assert_eq!(extension_of_name(".hidden"), None);
    assert_eq!(stem_of_name("a.tar.gz"), "a.tar");
    assert!(within("/a/b/c", "/a/b"));
    assert!(!within("/a/bc", "/a/b"));
}

#[test]
fn json_is_read() {
    let v = parse_json(r#"{"a":[1,-2,1.5,null,true,"x\n"],"b":{"c":"字"},"a2":18446744073709551615}"#)
        .unwrap();
    let a = v.array_at("a").unwrap();
    assert_eq!(a[0].as_u64(), Some(1));
    assert_eq!(a[1].as_i64(), Some(-2));
    assert_eq!(a[1].as_u64(), None);
    assert_eq!(a[2].as_u64(), None);
    assert!(a[3].is_null());
    assert_eq!(a[4].as_bool(), Some(true));
    assert_eq!(a[5].as_str(), Some("x\n"));
    assert_eq!(v.get("b").unwrap().text_at("c"), "字");
    assert_eq!(v.u64_at("a2"), Some(u64::MAX));
    assert_eq!(parse_json(r#"{"k":1,"k":2}"#).unwrap().u64_at("k"), Some(2));
    assert!(parse_json("{").is_err());
}
