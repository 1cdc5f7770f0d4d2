use conllx_utils::{
    count_agreement, count_feature_agreement, decimal_string, diff_indices, feature_value,
    layer_callback, match_indexes, CompareError, Layer, Token,
};

fn token(form: &str, pos: &str, head: usize, rel: &str) -> Token {
    let mut t = Token::new(form.to_string());
    t.pos = Some(pos.to_string());
    t.head = Some(head);
    t.head_rel = Some(rel.to_string());
    t
}

#[test]
fn layers_are_found_by_name() {
    assert_eq!(layer_callback("form"), Some(Layer::Form));
    assert_eq!(layer_callback("headrel"), Some(Layer::HeadRel));
    assert_eq!(layer_callback("pheadrel"), Some(Layer::PHeadRel));
    assert_eq!(layer_callback("cpos"), Some(Layer::CPos));
    assert_eq!(layer_callback("Form"), None);
    assert_eq!(layer_callback(""), None);
    assert_eq!(Layer::PHead.name(), "phead");
}

#[test]
fn layer_values() {
    let mut t = token("Haus", "NN", 12, "OBJA");
    t.features = Some("case:accusative".to_string());
    assert_eq!(Layer::Form.value(&t).as_deref(), Some("Haus"));
    assert_eq!(Layer::Pos.value(&t).as_deref(), Some("NN"));
    assert_eq!(Layer::Head.value(&t).as_deref(), Some("12"));
    assert_eq!(Layer::HeadRel.value(&t).as_deref(), Some("OBJA"));
    assert_eq!(Layer::Features.value(&t).as_deref(), Some("case:accusative"));
    assert_eq!(Layer::Lemma.value(&t), None);
    assert_eq!(Layer::PHead.value(&t), None);
}

#[test]
fn decimal_digits() {
    assert_eq!(decimal_string(0), "0");
    assert_eq!(decimal_string(7), "7");
    assert_eq!(decimal_string(10), "10");
    assert_eq!(decimal_string(1234), "1234");
    assert_eq!(decimal_string(usize::MAX), usize::MAX.to_string());
}

#[test]
fn differing_tokens_are_listed() {
    let gold = vec![
        token("Er", "PPER", 2, "SUBJ"),
        token("schläft", "VVFIN", 0, "ROOT"),
        token("gut", "ADJD", 2, "ADV"),
    ];
    let mut parsed = gold.clone();
    parsed[0].head_rel = Some("OBJA".to_string());
    parsed[2].head = Some(1);
    assert_eq!(diff_indices(&gold, &parsed, &[Layer::HeadRel]), Ok(vec![0]));
    assert_eq!(diff_indices(&gold, &parsed, &[Layer::Head]), Ok(vec![2]));
    assert_eq!(diff_indices(&gold, &parsed, &[Layer::Head, Layer::HeadRel]), Ok(vec![0, 2]));
    assert_eq!(diff_indices(&gold, &parsed, &[Layer::Form]), Ok(vec![]));
    assert_eq!(diff_indices(&gold, &gold, &[]), Ok(vec![]));
}

#[test]
fn sentences_of_different_length_are_rejected() {
    let a = vec![token("a", "X", 0, "ROOT")];
    let b = vec![token("a", "X", 0, "ROOT"), token("b", "X", 1, "Y")];
    assert_eq!(diff_indices(&a, &b, &[Layer::Form]), Err(CompareError::DifferentLength(1, 2)));
}

#[test]
fn matching_tokens_are_listed() {
    let mut sentence = vec![
        token("Haus", "NN", 0, "ROOT"),
        token("und", "KON", 1, "KON"),
        token("Hof", "NN", 2, "CJ"),
    ];
    sentence[1].lemma = Some("und".to_string());
    assert_eq!(match_indexes(&sentence, Layer::Pos, |v: &str| v == "NN"), vec![0, 2]);
    assert_eq!(match_indexes(&sentence, Layer::Form, |v: &str| v.starts_with('H')), vec![0, 2]);
    assert_eq!(match_indexes(&sentence, Layer::Lemma, |_: &str| true), vec![1]);
    assert_eq!(match_indexes(&sentence, Layer::Head, |v: &str| v == "1"), vec![1]);
    assert!(match_indexes(&sentence, Layer::Pos, |_: &str| false).is_empty());
}

#[test]
fn agreement_is_counted_per_token_and_layer() {
    let gold = vec![
        token("Er", "PPER", 2, "SUBJ"),
        token("schläft", "VVFIN", 0, "ROOT"),
        token("gut", "ADJD", 2, "ADV"),
    ];
    let mut parsed = gold.clone();
    parsed[0].head_rel = Some("OBJA".to_string());
    parsed[2].head = Some(1);
    assert_eq!(count_agreement(&gold, &parsed, &[Layer::Head]), Ok(2));
    assert_eq!(count_agreement(&gold, &parsed, &[Layer::HeadRel]), Ok(2));
    assert_eq!(count_agreement(&gold, &parsed, &[Layer::Head, Layer::HeadRel]), Ok(4));
    assert_eq!(count_agreement(&gold, &gold, &[Layer::Form, Layer::Pos, Layer::Lemma]), Ok(9));
    assert_eq!(count_agreement(&gold, &parsed, &[]), Ok(0));
    assert_eq!(
        count_agreement(&gold, &parsed[..2], &[Layer::Head]),
        Err(CompareError::DifferentLength(3, 2))
    );
}

#[test]
fn feature_values_are_looked_up() {
    let mut t = token("Haus", "NN", 0, "ROOT");
    t.features = Some("case:nominative|number:singular|proper".to_string());
    assert_eq!(feature_value(&t, "number").as_deref(), Some("singular"));
    assert_eq!(feature_value(&t, "case").as_deref(), Some("nominative"));
    assert_eq!(feature_value(&t, "proper"), None);
    assert_eq!(feature_value(&t, "gender"), None);
    t.features = None;
    assert_eq!(feature_value(&t, "case"), None);
}

#[test]
fn feature_agreement_is_counted() {
    let mut gold = vec![token("a", "ART", 2, "DET"), token("b", "NN", 0, "ROOT")];
    gold[0].features = Some("case:nominative|number:singular".to_string());
    gold[1].features = Some("case:nominative".to_string());
    let mut parsed = gold.clone();
    parsed[1].features = Some("case:accusative".to_string());
    assert_eq!(count_feature_agreement(&gold, &parsed, "case"), Ok(1));
    assert_eq!(count_feature_agreement(&gold, &parsed, "number"), Ok(2));
    assert_eq!(
        count_feature_agreement(&gold, &parsed[..1], "case"),
        Err(CompareError::DifferentLength(2, 1))
    );
}
