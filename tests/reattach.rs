use conllx_utils::{reattach_aux_pps, Token};

fn token(form: &str, pos: &str, head: usize, rel: &str) -> Token {
    let mut t = Token::new(form.to_string());
    t.pos = Some(pos.to_string());
    t.head = Some(head);
    t.head_rel = Some(rel.to_string());
    t.p_head = Some(head);
    t.p_head_rel = Some(rel.to_string());
    t
}

fn fronted_pp() -> Vec<Token> {
    vec![
        token("Im", "APPR", 3, "PP"),
        token("Garten", "NN", 1, "PN"),
        token("hat", "VAFIN", 0, "ROOT"),
        token("er", "PPER", 3, "SUBJ"),
        token("gespielt", "VVPP", 3, "AUX"),
    ]
}

#[test]
fn pp_moves_to_content_verb() {
    let mut sentence = fronted_pp();
    reattach_aux_pps(&mut sentence);
    let mut expected = fronted_pp();
    expected[0].head = Some(5);
    assert_eq!(sentence, expected);
    // The projective analysis is left alone.
    assert_eq!(sentence[0].p_head, Some(3));
    assert_eq!(sentence[0].head_rel.as_deref(), Some("PP"));
}

#[test]
fn reattachment_is_idempotent() {
    let mut once = fronted_pp();
    reattach_aux_pps(&mut once);
    let mut twice = once.clone();
    reattach_aux_pps(&mut twice);
    assert_eq!(once, twice);
}

#[test]
fn aux_chain_is_followed_to_its_end() {
    let mut sentence = vec![
        token("Darauf", "PROAV", 2, "OBJP"),
        token("wird", "VAFIN", 0, "ROOT"),
        token("er", "PPER", 2, "SUBJ"),
        token("gewartet", "VVPP", 5, "AUX"),
        token("haben", "VAINF", 2, "AUX"),
    ];
    reattach_aux_pps(&mut sentence);
    let heads: Vec<Option<usize>> = sentence.iter().map(|t| t.head).collect();
    assert_eq!(heads, vec![Some(4), Some(0), Some(2), Some(5), Some(2)]);
}

#[test]
fn content_verb_head_is_unchanged() {
    let sentence = vec![
        token("Im", "APPR", 2, "PP"),
        token("spielt", "VVFIN", 0, "ROOT"),
        token("er", "PPER", 2, "SUBJ"),
    ];
    let mut changed = sentence.clone();
    reattach_aux_pps(&mut changed);
    assert_eq!(changed, sentence);
}

#[test]
fn non_verb_head_and_other_relations_are_unchanged() {
    let sentence = vec![
        token("mit", "APPR", 2, "PP"),
        token("Haus", "NN", 3, "OBJA"),
        token("hat", "VAFIN", 0, "ROOT"),
        token("gebaut", "VVPP", 3, "AUX"),
        token("er", "PPER", 3, "SUBJ"),
    ];
    let mut changed = sentence.clone();
    reattach_aux_pps(&mut changed);
    assert_eq!(changed, sentence);
}

#[test]
fn cyclic_aux_chain_terminates() {
    let mut sentence = vec![
        token("Im", "APPR", 2, "PP"),
        token("hat", "VAFIN", 3, "AUX"),
        token("wird", "VAFIN", 2, "AUX"),
    ];
    reattach_aux_pps(&mut sentence);
    // From token 2 the chain reaches token 3, whose AUX dependent is token 2
    // again; it stops at token 3, the last token before the revisit.
    let heads: Vec<Option<usize>> = sentence.iter().map(|t| t.head).collect();
    assert_eq!(heads, vec![Some(3), Some(3), Some(2)]);
}
