use conllx_utils::{check_cycles, first_matching_edge, sentence_to_graph, Direction, Token};

fn token(form: &str, head: Option<usize>, rel: Option<&str>) -> Token {
    let mut t = Token::new(form.to_string());
    t.head = head;
    t.head_rel = rel.map(|r| r.to_string());
    t
}

fn sorted(mut cycles: Vec<Vec<usize>>) -> Vec<Vec<usize>> {
    for c in cycles.iter_mut() {
        c.sort();
    }
    cycles.sort();
    cycles
}

#[test]
fn nodes_match_offsets() {
    let sentence = vec![
        token("a", Some(2), Some("DET")),
        token("b", Some(0), Some("ROOT")),
        token("c", None, None),
    ];
    let graph = sentence_to_graph(&sentence, false);
    assert_eq!(graph.node_count(), 3);
    for i in 0..3 {
        let node = graph.node(i);
        assert_eq!(node.offset, i);
        assert_eq!(node.token, &sentence[i]);
    }
}

#[test]
fn empty_sentence_has_empty_graph() {
    let sentence: Vec<Token> = Vec::new();
    let graph = sentence_to_graph(&sentence, false);
    assert_eq!(graph.node_count(), 0);
    assert!(check_cycles(&sentence, false).is_empty());
}

#[test]
fn edges_run_from_head_to_dependent() {
    let sentence = vec![
        token("a", Some(2), Some("DET")),
        token("b", Some(0), Some("ROOT")),
        token("c", Some(2), None),
    ];
    let graph = sentence_to_graph(&sentence, false);
    let det = |w: &Option<String>| w.as_deref() == Some("DET");
    let unlabeled = |w: &Option<String>| w.is_none();
    assert_eq!(first_matching_edge(&graph, 1, Direction::Outgoing, det), Some(0));
    assert_eq!(first_matching_edge(&graph, 1, Direction::Outgoing, unlabeled), Some(2));
    assert_eq!(first_matching_edge(&graph, 0, Direction::Incoming, det), Some(1));
    assert_eq!(first_matching_edge(&graph, 0, Direction::Outgoing, det), None);
    assert_eq!(first_matching_edge(&graph, 1, Direction::Incoming, |_: &Option<String>| true), None);
}

#[test]
fn latest_edge_is_scanned_first() {
    let sentence = vec![
        token("a", Some(2), Some("X")),
        token("b", Some(0), Some("ROOT")),
        token("c", Some(2), Some("X")),
    ];
    let graph = sentence_to_graph(&sentence, false);
    let x = |w: &Option<String>| w.as_deref() == Some("X");
    assert_eq!(first_matching_edge(&graph, 1, Direction::Outgoing, x), Some(2));
}

#[test]
fn projective_heads_give_projective_graph() {
    let mut a = token("a", Some(0), Some("ROOT"));
    a.p_head = Some(2);
    a.p_head_rel = Some("P".to_string());
    let mut b = token("b", Some(1), Some("OBJ"));
    b.p_head = Some(0);
    let sentence = vec![a, b];
    let plain = sentence_to_graph(&sentence, false);
    let projective = sentence_to_graph(&sentence, true);
    let any = |_: &Option<String>| true;
    assert_eq!(first_matching_edge(&plain, 0, Direction::Outgoing, any), Some(1));
    assert_eq!(first_matching_edge(&projective, 1, Direction::Outgoing, any), Some(0));
    assert_eq!(first_matching_edge(&projective, 0, Direction::Outgoing, any), None);
}

#[test]
fn clean_sentence_has_no_cycles() {
    let sentence = vec![
        token("a", Some(0), Some("ROOT")),
        token("b", Some(1), Some("X")),
        token("c", Some(2), Some("X")),
        token("d", Some(1), Some("X")),
    ];
    assert!(check_cycles(&sentence, false).is_empty());
}

#[test]
fn three_cycle_is_reported_once() {
    // Tokens 2, 3 and 4 (offsets 1, 2, 3) form a cycle; the rest hang off the root.
    let sentence = vec![
        token("a", Some(0), Some("ROOT")),
        token("b", Some(4), Some("X")),
        token("c", Some(2), Some("X")),
        token("d", Some(3), Some("X")),
        token("e", Some(1), Some("X")),
    ];
    let cycles = sorted(check_cycles(&sentence, false));
    assert_eq!(cycles, vec![vec![1, 2, 3]]);
}

#[test]
fn two_cycles_are_reported() {
    let sentence = vec![
        token("a", Some(2), None),
        token("b", Some(1), None),
        token("c", Some(4), None),
        token("d", Some(3), None),
        token("e", Some(0), None),
    ];
    let cycles = sorted(check_cycles(&sentence, false));
    assert_eq!(cycles, vec![vec![0, 1], vec![2, 3]]);
}

#[test]
fn self_attached_token_is_not_reported() {
    let sentence = vec![token("a", Some(0), None), token("b", Some(2), None)];
    assert!(check_cycles(&sentence, false).is_empty());
    let single = vec![token("a", Some(1), None)];
    assert!(check_cycles(&single, false).is_empty());
}

#[test]
fn cycle_report_is_deterministic() {
    let sentence = vec![
        token("a", Some(2), None),
        token("b", Some(1), None),
        token("c", Some(4), None),
        token("d", Some(3), None),
    ];
    assert_eq!(check_cycles(&sentence, false), check_cycles(&sentence, false));
}

#[test]
fn cycles_follow_the_chosen_variant() {
    let mut a = token("a", Some(2), None);
    a.p_head = Some(0);
    let mut b = token("b", Some(1), None);
    b.p_head = Some(1);
    let sentence = vec![a, b];
    assert_eq!(sorted(check_cycles(&sentence, false)), vec![vec![0, 1]]);
    assert!(check_cycles(&sentence, true).is_empty());
}
