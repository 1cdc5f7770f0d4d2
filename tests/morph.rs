use conllx_utils::{attributes_of_tag, expand_tdz_morph, MorphAttribute, MorphError, Token};

fn tagged(pos: &str, features: &str) -> Token {
    let mut t = Token::new("w".to_string());
    t.pos = Some(pos.to_string());
    t.features = Some(features.to_string());
    t
}

#[test]
fn pper_expands_keeping_code() {
    let mut t = tagged("PPER", "nsm1");
    assert_eq!(expand_tdz_morph(&mut t, true), Ok(()));
    assert_eq!(
        t.features.as_deref(),
        Some("case:nominative|number:singular|gender:masculine|person:1|morph:nsm1")
    );
}

#[test]
fn pper_expands_dropping_code() {
    let mut t = tagged("PPER", "nsm1");
    assert_eq!(expand_tdz_morph(&mut t, false), Ok(()));
    assert_eq!(
        t.features.as_deref(),
        Some("case:nominative|number:singular|gender:masculine|person:1")
    );
}

#[test]
fn wrong_length_is_rejected() {
    let mut t = tagged("PPER", "ns");
    assert_eq!(expand_tdz_morph(&mut t, true), Err(MorphError::IncorrectLength));
    assert_eq!(t.features.as_deref(), Some("ns"));
}

#[test]
fn wrong_char_is_rejected_with_position() {
    let mut t = tagged("PPER", "nsmX");
    assert_eq!(expand_tdz_morph(&mut t, true), Err(MorphError::IncorrectChar(3, 'X')));
    assert_eq!(t.features.as_deref(), Some("nsmX"));
}

#[test]
fn first_wrong_char_is_reported() {
    let mut t = tagged("ART", "xyz");
    assert_eq!(expand_tdz_morph(&mut t, false), Err(MorphError::IncorrectChar(0, 'x')));
}

#[test]
fn sentinel_features_are_kept() {
    for preserve in [true, false] {
        let mut t = tagged("NN", "--");
        let before = t.clone();
        assert_eq!(expand_tdz_morph(&mut t, preserve), Ok(()));
        assert_eq!(t, before);
    }
}

#[test]
fn unknown_tag_is_kept() {
    let mut t = tagged("ADV", "xyz");
    let before = t.clone();
    assert_eq!(expand_tdz_morph(&mut t, true), Ok(()));
    assert_eq!(t, before);
}

#[test]
fn missing_tag_or_features_is_kept() {
    let mut t = Token::new("w".to_string());
    t.features = Some("nsm".to_string());
    let before = t.clone();
    assert_eq!(expand_tdz_morph(&mut t, true), Ok(()));
    assert_eq!(t, before);

    let mut u = Token::new("w".to_string());
    u.pos = Some("NN".to_string());
    let before = u.clone();
    assert_eq!(expand_tdz_morph(&mut u, true), Ok(()));
    assert_eq!(u, before);
}

#[test]
fn finite_verb_and_underspecified_values() {
    let mut t = tagged("VVFIN", "3sit");
    assert_eq!(expand_tdz_morph(&mut t, false), Ok(()));
    assert_eq!(
        t.features.as_deref(),
        Some("person:3|number:singular|mood:indicative|tense:past")
    );

    let mut u = tagged("NN", "a**");
    assert_eq!(expand_tdz_morph(&mut u, false), Ok(()));
    assert_eq!(
        u.features.as_deref(),
        Some("case:accusative|number:underspecified|gender:underspecified")
    );
}

#[test]
fn mood_has_no_underspecified_code() {
    let mut t = tagged("VAFIN", "3s*s");
    assert_eq!(expand_tdz_morph(&mut t, false), Err(MorphError::IncorrectChar(2, '*')));
}

#[test]
fn only_features_change() {
    let mut t = tagged("APPR", "d");
    t.head = Some(2);
    t.head_rel = Some("PP".to_string());
    assert_eq!(expand_tdz_morph(&mut t, true), Ok(()));
    assert_eq!(t.features.as_deref(), Some("case:dative|morph:d"));
    assert_eq!(t.head, Some(2));
    assert_eq!(t.head_rel.as_deref(), Some("PP"));
    assert_eq!(t.pos.as_deref(), Some("APPR"));
}

#[test]
fn tag_schemas() {
    assert_eq!(
        attributes_of_tag("PPER"),
        Some(vec![
            MorphAttribute::Case,
            MorphAttribute::Number,
            MorphAttribute::Gender,
            MorphAttribute::Person
        ])
    );
    assert_eq!(attributes_of_tag("VVIMP"), Some(vec![MorphAttribute::Number]));
    assert_eq!(attributes_of_tag("ADV"), None);
    assert_eq!(MorphAttribute::Tense.as_str(), "tense");
    assert_eq!(MorphAttribute::Mood.long_value('k'), Some("subjunctive"));
    assert_eq!(MorphAttribute::Mood.long_value('*'), None);
}

#[test]
fn sentence_expansion_stops_at_first_error() {
    let mut sentence = vec![tagged("ART", "nsm"), tagged("NN", "nsX"), tagged("ART", "asf")];
    assert_eq!(
        conllx_utils::expand_sentence(&mut sentence, false),
        Err(MorphError::IncorrectChar(2, 'X'))
    );
    assert_eq!(
        sentence[0].features.as_deref(),
        Some("case:nominative|number:singular|gender:masculine")
    );
    assert_eq!(sentence[1].features.as_deref(), Some("nsX"));
    assert_eq!(sentence[2].features.as_deref(), Some("asf"));
}

#[test]
fn sentence_expansion_covers_every_token() {
    let mut sentence = vec![tagged("ART", "gpf"), tagged("ADV", "--"), tagged("VVIMP", "p")];
    assert_eq!(conllx_utils::expand_sentence(&mut sentence, true), Ok(()));
    assert_eq!(
        sentence[0].features.as_deref(),
        Some("case:genitive|number:plural|gender:feminine|morph:gpf")
    );
    assert_eq!(sentence[1].features.as_deref(), Some("--"));
    assert_eq!(sentence[2].features.as_deref(), Some("number:plural|morph:p"));
}

#[test]
fn error_messages() {
    assert_eq!(MorphError::IncorrectLength.message(), "Incorrect morphology features length");
    assert_eq!(
        MorphError::IncorrectChar(3, 'X').message(),
        "Incorrect character 'X' at position 3"
    );
}
