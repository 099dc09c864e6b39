use sagelib::text::{chars_of, split_paragraph_chunks, string_of, tokenize_str};
use sagelib::CoreSemanticChunker;

#[test]
fn chunker_separator_is_taken_leftmost_without_overlap() {
    assert_eq!(split_paragraph_chunks("a\n\n\nb"), vec!["a", "b"]);
    assert_eq!(split_paragraph_chunks("\n\n\n\n"), Vec::<String>::new());
    assert_eq!(split_paragraph_chunks(""), Vec::<String>::new());
    assert_eq!(split_paragraph_chunks("x\r\n\r\ny"), vec!["x\r\n\r\ny"]);
    assert_eq!(split_paragraph_chunks("  lead\ttrail \u{3000}"), vec!["lead\ttrail"]);
}

#[test]
fn chunker_matches_std_split_and_trim() {
    let docs = [
        "one\n\ntwo",
        "\n\n one \n\n\n\n two\n\n",
        "a\nb\n\nc\n\n\n\n\nd",
        "\u{00a0}x\u{2028}\n\n\u{85}y",
        "no separator at all",
    ];
    let chunker = CoreSemanticChunker::new();
    for doc in docs {
        let expected: Vec<String> = doc
            .split("\n\n")
            .map(|s| s.trim().to_string())
            .filter(|s| !s.is_empty())
            .collect();
        assert_eq!(chunker.chunk(doc), expected, "{:?}", doc);
    }
}

#[test]
fn tokenizer_lowercases_and_drops_punctuation() {
    assert_eq!(tokenize_str("Hello, World!"), vec!["hello", "world"]);
    assert_eq!(tokenize_str("ABC-def 42x"), vec!["abcdef", "42x"]);
    assert_eq!(tokenize_str(" -- ... ?? "), Vec::<String>::new());
    assert_eq!(tokenize_str("tab\tsep\nnew\u{3000}line"), vec!["tab", "sep", "new", "line"]);
    assert_eq!(tokenize_str("ÜBER Straße ΣΟΦΟΣ"), vec!["über", "straße", "σοφος"]);
}

#[test]
fn tokenizer_matches_std_pipeline() {
    let texts = ["It's 3 o'clock; time-to go!", "  MiXeD   CaSe\tWORDS ", "émigré ÉCOLE ĲSSEL"];
    for text in texts {
        let expected: Vec<String> = text
            .split_whitespace()
            .map(|w| w.chars().filter(|c| c.is_alphanumeric()).collect::<String>().to_lowercase())
            .filter(|w| !w.is_empty())
            .collect();
        assert_eq!(tokenize_str(text), expected, "{:?}", text);
    }
}

#[test]
fn chars_and_strings_round_trip() {
    let v = chars_of("héllo");
    assert_eq!(v, vec!['h', 'é', 'l', 'l', 'o']);
    assert_eq!(string_of(&v, 1, 4), "éll");
    assert_eq!(string_of(&v, 2, 2), "");
}

#[test]
fn chunks_are_trimmed_and_hold_no_blank_line() {
    let doc = "\n\n\n a\nb \n\n\n\n\nc\n\n \n \n\nd\n";
    let chunks = split_paragraph_chunks(doc);
    assert_eq!(chunks, vec!["a\nb", "c", "d"]);
    for c in &chunks {
        assert!(!c.is_empty());
        assert!(!c.contains("\n\n"));
        assert_eq!(c.trim(), c.as_str());
    }
}

#[test]
fn whitespace_class_is_the_white_space_table() {
    let listed = |u: u32| {
        (0x09..=0x0D).contains(&u)
            || u == 0x20
            || u == 0x85
            || u == 0xA0
            || u == 0x1680
            || (0x2000..=0x200A).contains(&u)
            || u == 0x2028
            || u == 0x2029
            || u == 0x202F
            || u == 0x205F
            || u == 0x3000
    };
    for u in 0u32..=0x10FFFF {
        if let Some(c) = char::from_u32(u) {
            assert_eq!(c.is_whitespace(), listed(u), "U+{:04X}", u);
        }
    }
}

#[test]
fn lowercase_never_shortens_and_keeps_empty_empty() {
    for u in 0u32..=0x10FFFF {
        if let Some(c) = char::from_u32(u) {
            let s = c.to_string();
            assert!(s.to_lowercase().chars().count() >= 1, "U+{:04X}", u);
        }
    }
    assert_eq!("".to_lowercase(), "");
    assert_eq!(tokenize_str("... !!! --"), Vec::<String>::new());
}

#[test]
fn chunking_a_blank_line_join_concatenates() {
    let docs = ["a\n\nb", "x\n", "\n\ny\n\n", "", " p \n\n\n q", "\nz"];
    let chunker = CoreSemanticChunker::new();
    for a in docs {
        for b in docs {
            let joined = format!("{}\n\n{}", a, b);
            let mut expected = chunker.chunk(a);
            expected.extend(chunker.chunk(b));
            assert_eq!(chunker.chunk(&joined), expected, "{:?} + {:?}", a, b);
        }
    }
}

#[test]
fn rechunking_joined_chunks_is_stable() {
    let chunker = CoreSemanticChunker::new();
    for doc in ["one\n\ntwo\n\n\nthree", "  x \n y \n\n\n\n z ", "", "\n\n\n"] {
        let r = chunker.chunk(doc);
        assert_eq!(chunker.chunk(&r.join("\n\n")), r);
    }
}
