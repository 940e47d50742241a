use hashtags::error::Error;
use hashtags::tag::{extract_tags, is_space, is_tag_character};
use regex::Regex;

/// The tags that the pattern of the tag grammar finds, each once, sorted.
fn tags_by_pattern(note: &str) -> Vec<&str> {
    let re = Regex::new(r"((^|\s)#[^\s\t\.\?#,]+)").unwrap();
    let mut tags = Vec::<&str>::new();
    for m in re.find_iter(note) {
        let start = m.start() + note[m.start()..].find("#").unwrap() + 1;
        tags.push(&note[start..m.end()]);
    }
    tags.sort();
    tags.dedup();
    tags
}

#[test]
fn tag_test_basic() {
    assert!(extract_tags("kdfkjsdkfjsf").is_err());
    assert_eq!(extract_tags("ss #ss #tt # sdkjfk #yy").unwrap(), vec!["ss", "tt", "yy"]);
    assert_eq!(extract_tags("#ss").unwrap(), vec!["ss"]);
    assert_eq!(extract_tags("#ss #tt #ss").unwrap(), vec!["ss", "tt"]);
}

#[test]
fn tag_test_utf8() {
    assert!(extract_tags("我家門前有小河").is_err());
    assert_eq!(
        extract_tags("ss #測試 #哎呦 # sdkjfk #幹嘛").unwrap(),
        vec!["哎呦", "幹嘛", "測試"]
    );
    assert_eq!(extract_tags("#再測").unwrap(), vec!["再測"]);
    assert_eq!(
        extract_tags("ss #幹嘛 #測試  # sdkjfk #幹嘛").unwrap(),
        vec!["幹嘛", "測試"]
    );
}

#[test]
fn text_without_tags_is_refused() {
    assert_eq!(extract_tags(""), Err(Error::NoTagsFound));
    assert_eq!(extract_tags("#"), Err(Error::NoTagsFound));
    assert_eq!(extract_tags("# "), Err(Error::NoTagsFound));
    assert_eq!(extract_tags("no tag at all"), Err(Error::NoTagsFound));
    assert_eq!(extract_tags("a#b"), Err(Error::NoTagsFound));
    assert_eq!(extract_tags("##a"), Err(Error::NoTagsFound));
    assert_eq!(extract_tags(" #. #? #, ##"), Err(Error::NoTagsFound));
}

#[test]
fn tag_needs_start_or_whitespace_before_it() {
    assert_eq!(extract_tags("x#a #b").unwrap(), vec!["b"]);
    assert_eq!(extract_tags("#a#b").unwrap(), vec!["a"]);
    assert_eq!(extract_tags("\t#a\n#b\r#c").unwrap(), vec!["a", "b", "c"]);
    assert_eq!(extract_tags("\u{3000}#wide \u{a0}#nbsp").unwrap(), vec!["nbsp", "wide"]);
    assert_eq!(extract_tags(".#a ,#b ?#c !#d").is_err(), true);
}

#[test]
fn tag_ends_at_the_first_character_that_is_none_of_its_own() {
    assert_eq!(extract_tags("#a.b").unwrap(), vec!["a"]);
    assert_eq!(extract_tags("#a?b").unwrap(), vec!["a"]);
    assert_eq!(extract_tags("#a,b").unwrap(), vec!["a"]);
    assert_eq!(extract_tags("#a#b").unwrap(), vec!["a"]);
    assert_eq!(extract_tags("#a b").unwrap(), vec!["a"]);
    assert_eq!(extract_tags("#a\u{2003}b").unwrap(), vec!["a"]);
    assert_eq!(extract_tags("#a-b_c!d:e;f/g").unwrap(), vec!["a-b_c!d:e;f/g"]);
}

#[test]
fn tags_are_case_sensitive_and_sorted_by_code_point() {
    assert_eq!(extract_tags("#b #a #B #A #ab #a").unwrap(), vec!["A", "B", "a", "ab", "b"]);
    assert_eq!(extract_tags("#é #z #日本 #Z").unwrap(), vec!["Z", "z", "é", "日本"]);
    assert_eq!(extract_tags("#10 #9 #1").unwrap(), vec!["1", "10", "9"]);
}

#[test]
fn duplicate_tags_collapse() {
    assert_eq!(extract_tags("#x #x #x").unwrap(), vec!["x"]);
    assert_eq!(extract_tags("#x\n#y #x, #y.").unwrap(), vec!["x", "y"]);
}

#[test]
fn extracting_from_the_extracted_tags_gives_them_again() {
    let first = extract_tags("note #c with #a, #b and #a again").unwrap();
    let mut text = String::new();
    for t in &first {
        text.push_str(" #");
        text.push_str(t);
    }
    assert_eq!(extract_tags(&text).unwrap(), first);
}

#[test]
fn whitespace_is_the_unicode_property() {
    let mut c = 0u32;
    while c <= 0x10ffff {
        if let Some(ch) = char::from_u32(c) {
            assert_eq!(is_space(ch), ch.is_whitespace(), "U+{:04X}", c);
            let plain = !ch.is_whitespace() && ch != '.' && ch != '?' && ch != '#' && ch != ',';
            assert_eq!(is_tag_character(ch), plain, "U+{:04X}", c);
        }
        c += 1;
    }
}

#[test]
fn extraction_agrees_with_the_pattern() {
    let pieces = [
        "#", "a", "b", " ", "\t", ".", "?", ",", "\n", "測", "\u{3000}", "#a", " #", "##", "é",
    ];
    let mut state: u64 = 0x2545_f491_4f6c_dd1d;
    let mut round = 0;
    while round < 4000 {
        let mut text = String::new();
        let mut k = 0;
        state = state.wrapping_mul(6364136223846793005).wrapping_add(1442695040888963407);
        let len = (state >> 33) % 12;
        while k < len {
            state = state.wrapping_mul(6364136223846793005).wrapping_add(1442695040888963407);
            text.push_str(pieces[((state >> 33) % (pieces.len() as u64)) as usize]);
            k += 1;
        }
        let expected = tags_by_pattern(&text);
        match extract_tags(&text) {
            Ok(tags) => assert_eq!(tags, expected, "text {:?}", text),
            Err(e) => {
                assert_eq!(e, Error::NoTagsFound);
                assert!(expected.is_empty(), "text {:?}", text);
            }
        }
        round += 1;
    }
}
