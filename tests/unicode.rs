use conllx_utils::{
    cleanup, normalization_from, normalize, simplify_punct_str, simplify_unicode,
    simplify_unicode_punct, Conversion, Normalization, Token,
};

#[test]
fn punctuation_maps_to_ascii() {
    assert!(matches!(simplify_unicode_punct('«'), Conversion::Char('"')));
    assert!(matches!(simplify_unicode_punct('∖'), Conversion::Char('\\')));
    assert!(matches!(simplify_unicode_punct('’'), Conversion::Char('\'')));
    match simplify_unicode_punct('…') {
        Conversion::String(s) => assert_eq!(s, "..."),
        _ => panic!("expected a string"),
    }
    assert!(matches!(simplify_unicode_punct('a'), Conversion::Unchanged('a')));
}

#[test]
fn strings_are_simplified() {
    assert_eq!(
        simplify_unicode("«Hallo» – sagte er… ≤3", Normalization::Identity),
        "\"Hallo\" - sagte er... <=3"
    );
    assert_eq!(simplify_punct_str(""), "");
    assert_eq!(simplify_punct_str("‖x‖"), "||x||");
}

#[test]
fn normalization_forms() {
    let composed = "\u{e9}";
    let decomposed = "e\u{301}";
    assert_eq!(normalize(composed, Normalization::NFD), decomposed);
    assert_eq!(normalize(decomposed, Normalization::NFC), composed);
    assert_eq!(normalize("\u{fb01}", Normalization::NFKD), "fi");
    assert_eq!(normalize("\u{fb01}", Normalization::NFKC), "fi");
    assert_eq!(normalize("\u{fb01}", Normalization::NFC), "\u{fb01}");
    assert_eq!(normalize(decomposed, Normalization::Identity), decomposed);
}

#[test]
fn normalization_precedes_simplification() {
    assert_eq!(simplify_unicode("e\u{301}…", Normalization::NFC), "\u{e9}...");
    assert_eq!(simplify_unicode("\u{2033}", Normalization::NFKC), "\u{2032}\u{2032}".replace('\u{2032}', "'"));
}

#[test]
fn normalizations_by_name() {
    assert_eq!(normalization_from("none"), Some(Normalization::Identity));
    assert_eq!(normalization_from("nfkc"), Some(Normalization::NFKC));
    assert_eq!(normalization_from("nfd"), Some(Normalization::NFD));
    assert_eq!(normalization_from("NFD"), None);
}

#[test]
fn cleanup_rewrites_forms_only() {
    let mut t = Token::new("„Ja“".to_string());
    t.lemma = Some("„ja“".to_string());
    let mut sentence = vec![t, Token::new("e\u{301}".to_string())];
    cleanup(&mut sentence, Normalization::NFC);
    assert_eq!(sentence[0].form, "\"Ja\"");
    assert_eq!(sentence[0].lemma.as_deref(), Some("„ja“"));
    assert_eq!(sentence[1].form, "\u{e9}");
}
