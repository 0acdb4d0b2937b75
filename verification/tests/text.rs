use kiro_rs::canonical::canonicalize_cache_value;
use kiro_rs::fingerprint::{fingerprint, write_hash_chunk};
use kiro_rs::json::JsonValue;
use kiro_rs::text::{
    contains, eq_ignore_ascii_case, is_whitespace, parse_unsigned, parse_whole, starts_with,
    to_ascii_lowercase, to_ascii_uppercase, trim, trim_start, write_decimal, write_signed,
};
use kiro_rs::tokens::estimate_approx_tokens;

fn floating_estimate(text: &str) -> i32 {
    if text.is_empty() {
        return 0;
    }
    let length = text.chars().count();
    if length < 5 {
        return ((length as f64) / 3.0).ceil().max(1.0) as i32;
    }
    let (mut regular, mut digits, mut symbols, mut others) = (0f64, 0f64, 0f64, 0f64);
    for c in text.chars() {
        if (c as u32) >= 0x80 {
            others += 1.0;
        } else if c.is_ascii_digit() {
            digits += 1.0;
        } else if c.is_ascii_punctuation() {
            symbols += 1.0;
        } else {
            regular += 1.0;
        }
    }
    let estimated = (regular / 4.5 + digits / 2.0 + symbols / 1.5 + others / 1.5).ceil() as i32;
    estimated.max(1)
}

#[test]
fn whitespace_is_that_of_unicode() {
    for code in 0..=0x10ffffu32 {
        if let Some(c) = char::from_u32(code) {
            assert_eq!(is_whitespace(c), c.is_whitespace(), "U+{code:04x}");
        }
    }
}

#[test]
fn estimates_agree_with_floating_point() {
    let mut state: u64 = 7;
    let mut next = |bound: u64| {
        state = state.wrapping_mul(6364136223846793005).wrapping_add(1442695040888963407);
        (state >> 33) % bound
    };
    for _ in 0..4000 {
        let mut text = String::new();
        for (sample, bound) in [('a', 40), ('7', 40), ('{', 40), ('é', 40)] {
            for _ in 0..next(bound) {
                text.push(sample);
            }
        }
        assert_eq!(estimate_approx_tokens(&text), floating_estimate(&text), "{text}");
    }
    for regular in 0..120usize {
        for symbols in 0..30usize {
            let text = "a".repeat(regular) + &"!".repeat(symbols);
            assert_eq!(estimate_approx_tokens(&text), floating_estimate(&text), "{text}");
        }
    }
}

#[test]
fn estimates_are_exact() {
    assert_eq!(estimate_approx_tokens(""), 0);
    assert_eq!(estimate_approx_tokens("a"), 1);
    assert_eq!(estimate_approx_tokens("abcd"), 2);
    assert_eq!(estimate_approx_tokens("aaaaaaaaa"), 2);
    assert_eq!(estimate_approx_tokens("0123456789"), 5);
    assert_eq!(estimate_approx_tokens("!!!!!!"), 4);
    assert_eq!(estimate_approx_tokens("韩文韩文韩文"), 4);
}

#[test]
fn trimming_and_searching_agree_with_std() {
    for text in ["", " ", "\u{3000}a b\u{a0}\t", "a", "\n\nabc", "x y  "] {
        assert_eq!(trim(text), text.trim());
        assert_eq!(trim_start(text), text.trim_start());
        for needle in ["", "a", "b", "ab", "y ", "abc"] {
            assert_eq!(contains(text, needle), text.contains(needle));
            assert_eq!(starts_with(text, needle), text.starts_with(needle));
        }
    }
}

#[test]
fn ascii_case_agrees_with_std() {
    let text = "aZ @[`{ ÀÉß İ 韩 09";
    assert_eq!(to_ascii_lowercase(text), text.to_ascii_lowercase());
    assert_eq!(to_ascii_uppercase(text), text.to_ascii_uppercase());
    assert!(eq_ignore_ascii_case("Ephemeral", "ePHEMERAL"));
    assert!(!eq_ignore_ascii_case("É", "é"));
}

#[test]
fn numbers_agree_with_std() {
    for text in [
        "0", "00", "+7", "-7", "", "+", "18446744073709551615", "18446744073709551616", "1_0", "9a",
        "99999999999999999999999999",
    ] {
        assert_eq!(parse_unsigned(text, u64::MAX), text.parse::<u64>().ok(), "{text}");
    }
    assert_eq!(parse_whole("+7", 100), None);
    assert_eq!(parse_whole("100", 100), Some(100));
    assert_eq!(parse_whole("101", 100), None);
    for n in [0, 9, 10, 4711, u64::MAX] {
        assert_eq!(write_decimal(n), n.to_string());
    }
    for n in [0, -1, i32::MIN, i32::MAX, 42] {
        assert_eq!(write_signed(n), n.to_string());
    }
}

#[test]
fn strings_are_quoted_as_json() {
    for code in 0..0x3000u32 {
        if let Some(c) = char::from_u32(code) {
            let text = format!("a{c}b");
            let shown = canonicalize_cache_value(&JsonValue::Text(text.clone()));
            assert_eq!(shown, serde_json::to_string(&text).unwrap());
        }
    }
}

#[test]
fn documents_are_parsed() {
    let value = JsonValue::parse(r#" {"a": [1, -2.5e1, "x", null, true]} "#).expect("a document");
    assert_eq!(canonicalize_cache_value(&value), r#"{"a":[1,-25.0,"x",null,true]}"#);
    assert_eq!(canonicalize_cache_value(&value.duplicate()), canonicalize_cache_value(&value));
    assert!(value.get("b").is_none());
    assert!(JsonValue::parse("not-json").is_none());
    assert!(JsonValue::parse("{} {}").is_none());
    assert!(JsonValue::parse("").is_none());
}

#[test]
fn fingerprints_are_digests_of_frames() {
    let mut bytes = Vec::new();
    assert_eq!(
        fingerprint(&bytes)[..4],
        [0xe3, 0xb0, 0xc4, 0x42],
        "the digest of nothing"
    );
    write_hash_chunk(&mut bytes, "韩文");
    write_hash_chunk(&mut bytes, "");
    assert_eq!(bytes, "6\0韩文\00\0\0".as_bytes());
}

#[test]
fn frames_keep_chunks_apart() {
    let framed = |chunks: &[&str]| {
        let mut bytes = Vec::new();
        for chunk in chunks {
            write_hash_chunk(&mut bytes, chunk);
        }
        bytes
    };
    assert_ne!(framed(&["ab", "c"]), framed(&["a", "bc"]));
    assert_ne!(framed(&["a"]), framed(&["a", ""]));
    assert_ne!(fingerprint(&framed(&["ab", "c"])), fingerprint(&framed(&["a", "bc"])));
}

#[test]
fn estimates_are_bounded_and_grow_with_the_text() {
    let texts = ["", "a", "ab", "abcd", "abcde", "a1!é 韩", "{\"k\": [1, 22, 333]}", "韩文 0123 ... word"];
    for text in texts {
        let tokens = estimate_approx_tokens(text);
        assert_eq!(tokens == 0, text.is_empty());
        assert!(tokens >= 0 && tokens as usize <= text.chars().count(), "{text}");
        let backwards: String = text.chars().rev().collect();
        assert_eq!(estimate_approx_tokens(&backwards), tokens, "{text}");
        for more in texts {
            assert!(estimate_approx_tokens(&format!("{text}{more}")) >= tokens, "{text}{more}");
        }
    }
}

#[test]
fn quoted_strings_are_unambiguous() {
    let row = |texts: &[&str]| {
        let items = texts.iter().map(|text| JsonValue::Text(text.to_string())).collect();
        canonicalize_cache_value(&JsonValue::Array(items))
    };
    assert_ne!(row(&["a\",\"b"]), row(&["a", "b"]));
    assert_ne!(row(&["\\", "n"]), row(&["\n"]));
    assert_ne!(row(&["\\n"]), row(&["\n"]));
    assert_ne!(row(&["\\u0007"]), row(&["\u{7}"]));
}
