use hashtags::tokenizer::simple::SimpleTokenizer;
use hashtags::tokenizer::Tokenizer;

#[test]
fn simple_test_basic() {
    let t = SimpleTokenizer::new();
    let f = t.tokenize("a,b,c,d").unwrap();
    assert_eq!(f.ands, vec!["a", "b", "c", "d"]);
    let f = t.tokenize("a,b,c|d|e").unwrap();
    assert_eq!(f.ands, vec!["a", "b"]);
    assert_eq!(f.ors, vec!["c", "d", "e"]);
}

#[test]
fn simple_test_utf8() {
    let t = SimpleTokenizer::new();
    let f = t.tokenize("台積電,聯電,ETF").unwrap();
    assert_eq!(f.ands, vec!["台積電", "聯電", "ETF"]);
    let f = t.tokenize("台積電,聯電,ETF|台達電|華碩").unwrap();
    assert_eq!(f.ands, vec!["台積電", "聯電"]);
    assert_eq!(f.ors, vec!["ETF", "台達電", "華碩"]);
}

#[test]
fn and_only_filter_has_no_or_tags() {
    let t = SimpleTokenizer::new();
    let f = t.tokenize("a,b,c,d").unwrap();
    assert!(f.ors.is_empty());
    let f = t.tokenize("single").unwrap();
    assert_eq!(f.ands, vec!["single"]);
    assert!(f.ors.is_empty());
}

#[test]
fn empty_filter_gives_two_empty_lists() {
    let t = SimpleTokenizer::new();
    let f = t.tokenize("").unwrap();
    assert!(f.ands.is_empty());
    assert!(f.ors.is_empty());
}

#[test]
fn or_only_filter_has_no_and_tags() {
    let t = SimpleTokenizer::new();
    let f = t.tokenize("a|b").unwrap();
    assert!(f.ands.is_empty());
    assert_eq!(f.ors, vec!["a", "b"]);
}

#[test]
fn bars_cut_the_last_term_only() {
    let t = SimpleTokenizer::new();
    let f = t.tokenize("a|b,c").unwrap();
    assert_eq!(f.ands, vec!["a|b", "c"]);
    assert!(f.ors.is_empty());
    let f = t.tokenize("a|b,c|d").unwrap();
    assert_eq!(f.ands, vec!["a|b"]);
    assert_eq!(f.ors, vec!["c", "d"]);
}

#[test]
fn empty_terms_are_kept() {
    let t = SimpleTokenizer::new();
    let f = t.tokenize("a,,b").unwrap();
    assert_eq!(f.ands, vec!["a", "", "b"]);
    let f = t.tokenize("a,").unwrap();
    assert_eq!(f.ands, vec!["a", ""]);
    let f = t.tokenize(",").unwrap();
    assert_eq!(f.ands, vec!["", ""]);
    let f = t.tokenize("a,b|").unwrap();
    assert_eq!(f.ands, vec!["a"]);
    assert_eq!(f.ors, vec!["b", ""]);
    let f = t.tokenize("|").unwrap();
    assert!(f.ands.is_empty());
    assert_eq!(f.ors, vec!["", ""]);
}

#[test]
fn terms_joined_again_give_the_filter() {
    let t = SimpleTokenizer::new();
    for q in ["a,b,c", "x", "台積電,聯電|ETF|華碩", "a,,b|", ",|,"] {
        let f = t.tokenize(q).unwrap();
        let mut parts: Vec<String> = f.ands.iter().map(|s| s.to_string()).collect();
        if !f.ors.is_empty() {
            parts.push(f.ors.join("|"));
        }
        assert_eq!(parts.join(","), q);
    }
}
