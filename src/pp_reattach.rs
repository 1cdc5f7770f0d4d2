use vstd::prelude::*;
use vstd::set_lib::{lemma_int_range, lemma_len_subset, set_int_range};
use vstd::string::StrSliceExecFns;

use crate::graph::{
    first_matching_edge, incident, is_first_match, lemma_sentence_edges_shape, sentence_edges,
    sentence_to_graph, Direction, DependencyGraph, MAX_GRAPH_SIZE,
};
use crate::text::str_eq;
use crate::token::{heads_in_range, Token};

verus! {

/// The relation is `AUX`: an auxiliary or modal verb governs its content verb.
pub open spec fn is_aux_label(l: Option<String>) -> bool {
    l.is_some() && l.unwrap()@ == "AUX"@
}

/// The relation is `PP` or `OBJP`: a prepositional phrase or object.
pub open spec fn is_pp_label(l: Option<String>) -> bool {
    l.is_some() && (l.unwrap()@ == "PP"@ || l.unwrap()@ == "OBJP"@)
}

/// The tag is a verb tag: it starts with `V`.
pub open spec fn is_verb_tag(pos: Option<String>) -> bool {
    pos.is_some() && pos.unwrap()@.len() > 0 && pos.unwrap()@[0] == 'V'
}

/// Token `d` is attached to token `v` by an `AUX` relation.
pub open spec fn is_aux_dependent(s: Seq<Token>, v: int, d: int) -> bool {
    s[d].head == Some((v + 1) as usize) && is_aux_label(s[d].head_rel)
}

/// The last token before position `m` that is an `AUX` dependent of `v`.
pub open spec fn last_aux_dependent(s: Seq<Token>, v: int, m: int) -> Option<int>
    decreases m,
{
    if m <= 0 {
        None
    } else if is_aux_dependent(s, v, m - 1) {
        Some(m - 1)
    } else {
        last_aux_dependent(s, v, m - 1)
    }
}

/// Where following `AUX` relations from `v` ends, the tokens of `path`
/// having been passed already: each step goes to the last `AUX` dependent,
/// until there is none or it was passed before (the chain runs into a
/// cycle), and then the token reached is the result. `fuel` bounds the
/// steps; a chain of different tokens cannot outlast the fuel that
/// `content_verb` gives.
pub open spec fn follow_aux(s: Seq<Token>, v: int, path: Seq<int>, fuel: nat) -> int
    decreases fuel,
{
    if fuel == 0 {
        v
    } else {
        match last_aux_dependent(s, v, s.len() as int) {
            Some(d) => if path.push(v).contains(d) {
                v
            } else {
                follow_aux(s, d, path.push(v), (fuel - 1) as nat)
            },
            None => v,
        }
    }
}

/// The content verb of verb `v`: the end of its chain of `AUX` relations,
/// or, where the chain runs into a cycle, the last token before it comes
/// back to a token it passed.
pub open spec fn content_verb(s: Seq<Token>, v: int) -> int {
    follow_aux(s, v, Seq::empty(), (s.len() + 1) as nat)
}

/// The new head of token `i`, if it is a PP or prepositional object attached
/// to a verb whose content verb is another token.
pub open spec fn pp_new_head(s: Seq<Token>, i: int) -> Option<usize> {
    let t = s[i];
    if t.head.is_some() && t.head.unwrap() != 0 && is_pp_label(t.head_rel) && is_verb_tag(
        s[t.head.unwrap() - 1].pos,
    ) && content_verb(s, t.head.unwrap() - 1) != t.head.unwrap() - 1 {
        Some((content_verb(s, t.head.unwrap() - 1) + 1) as usize)
    } else {
        None
    }
}

/// The sentence after PP re-attachment: each PP or prepositional object of
/// a verb is attached to that verb's content verb instead; nothing else changes.
pub open spec fn reattached(s: Seq<Token>) -> Seq<Token> {
    Seq::new(
        s.len(),
        |i: int|
            match pp_new_head(s, i) {
                Some(h) => Token { head: Some(h), ..s[i] },
                None => s[i],
            },
    )
}

proof fn lemma_last_aux_dependent_is(s: Seq<Token>, v: int, d: int, m: int)
    requires
        0 <= d < m,
        is_aux_dependent(s, v, d),
        forall|d2: int| d < d2 < m ==> !is_aux_dependent(s, v, d2),
    ensures
        last_aux_dependent(s, v, m) == Some(d),
    decreases m,
{
    if m - 1 != d {
        lemma_last_aux_dependent_is(s, v, d, m - 1);
    }
}

proof fn lemma_last_aux_dependent_none(s: Seq<Token>, v: int, m: int)
    requires
        forall|d: int| 0 <= d < m ==> !is_aux_dependent(s, v, d),
    ensures
        last_aux_dependent(s, v, m).is_none(),
    decreases m,
{
    if m > 0 {
        lemma_last_aux_dependent_none(s, v, m - 1);
    }
}

fn is_aux(l: &Option<String>) -> (r: bool)
    ensures
        r == is_aux_label(*l),
{
    match l {
        Some(s) => str_eq(s.as_str(), "AUX"),
        None => false,
    }
}

fn is_pp_relation(l: &Option<String>) -> (r: bool)
    ensures
        r == is_pp_label(*l),
{
    match l {
        Some(s) => str_eq(s.as_str(), "PP") || str_eq(s.as_str(), "OBJP"),
        None => false,
    }
}

fn is_verb(pos: &Option<String>) -> (r: bool)
    ensures
        r == is_verb_tag(*pos),
{
    match pos {
        Some(p) => p.as_str().unicode_len() > 0 && p.as_str().get_char(0) == 'V',
        None => false,
    }
}

/// The token that the first `AUX` edge leaving `verb` enters, or `None`.
fn aux_step(graph: &DependencyGraph<'_>, verb: usize) -> (r: Option<usize>)
    requires
        graph.wf(),
        verb < graph.node_count_spec(),
        graph.edges() == sentence_edges(graph@.0, false),
    ensures
        match r {
            Some(d) => last_aux_dependent(graph@.0, verb as int, graph@.0.len() as int)
                == Some(d as int) && d < graph@.0.len(),
            None => last_aux_dependent(
                graph@.0,
                verb as int,
                graph@.0.len() as int,
            ).is_none(),
        },
{
    let ghost s = graph@.0;
    let ghost edges = graph.edges();
    let pred = |w: &Option<String>| -> (b: bool)
        ensures
            b == is_aux_label(*w),
        { is_aux(w) };
    let r = first_matching_edge(graph, verb, Direction::Outgoing, pred);
    proof {
        lemma_sentence_edges_shape(s, false);
        match r {
            Some(x) => {
                let e = choose|e: int|
                    is_first_match(edges, verb as int, Direction::Outgoing, pred, e) && #[trigger] edges[e].1 == x;
                let d = x as int;
                assert(edges[e].1 == x);
                assert(is_aux_dependent(s, verb as int, d));
                assert forall|d2: int| d < d2 < s.len() implies !is_aux_dependent(s, verb as int, d2) by {
                    if is_aux_dependent(s, verb as int, d2) {
                        assert(s[d2].head_of(false) == Some((verb + 1) as usize));
                        let e2 = choose|e2: int| 0 <= e2 < edges.len() && #[trigger] edges[e2].1 == d2;
                        if e2 <= e {
                            if e2 < e {
                                assert(edges[e2].1 < edges[e].1);
                            }
                        }
                        assert(edges[e2].0 == verb);
                        assert(incident(edges[e2], verb as int, Direction::Outgoing));
                        assert(pred.ensures((&edges[e2].2,), false));
                    }
                }
                lemma_last_aux_dependent_is(s, verb as int, d, s.len() as int);
            },
            None => {
                assert forall|d: int| 0 <= d < s.len() implies !is_aux_dependent(s, verb as int, d) by {
                    if is_aux_dependent(s, verb as int, d) {
                        assert(s[d].head_of(false) == Some((verb + 1) as usize));
                        let e = choose|e: int| 0 <= e < edges.len() && #[trigger] edges[e].1 == d;
                        assert(edges[e].0 == verb);
                        assert(incident(edges[e], verb as int, Direction::Outgoing));
                        assert(pred.ensures((&edges[e].2,), false));
                    }
                }
                lemma_last_aux_dependent_none(s, verb as int, s.len() as int);
            },
        }
    }
    r
}

/// Finds the content verb of `verb` by following `AUX` edges, and stops
/// before a token that it has passed already.
fn resolve_verb(graph: &DependencyGraph<'_>, verb: usize) -> (r: usize)
    requires
        graph.wf(),
        verb < graph.node_count_spec(),
        graph.edges() == sentence_edges(graph@.0, false),
    ensures
        r == content_verb(graph@.0, verb as int),
        r < graph@.0.len(),
{
    let ghost s = graph@.0;
    let n = graph.node_count();
    let mut visited: Vec<bool> = Vec::new();
    let mut k: usize = 0;
    while k < n
        invariant
            k <= n,
            visited@ == Seq::new(k as nat, |i: int| false),
        decreases n - k,
    {
        visited.push(false);
        assert(visited@ =~= Seq::new((k + 1) as nat, |i: int| false));
        k = k + 1;
    }
    let ghost mut path: Seq<int> = Seq::empty();
    let mut v = verb;
    let mut fuel: usize = n + 1;
    while fuel > 0
        invariant
            graph.wf(),
            s == graph@.0,
            n == s.len(),
            n == graph.node_count_spec(),
            graph.edges() == sentence_edges(s, false),
            v < n,
            visited@.len() == n,
            forall|i: int| 0 <= i < n ==> #[trigger] visited@[i] == path.contains(i),
            content_verb(s, verb as int) == follow_aux(s, v as int, path, fuel as nat),
        decreases fuel,
    {
        match aux_step(graph, v) {
            Some(d) => {
                let ghost before = path;
                visited.set(v, true);
                proof {
                    path = path.push(v as int);
                    assert forall|i: int| 0 <= i < n implies #[trigger] visited@[i] == path.contains(i) by {
                        if i == v {
                            assert(path[before.len() as int] == i);
                        } else {
                            if before.contains(i) {
                                let j = choose|j: int| 0 <= j < before.len() && before[j] == i;
                                assert(path[j] == i);
                            }
                            if path.contains(i) {
                                let j = choose|j: int| 0 <= j < path.len() && path[j] == i;
                                assert(j < before.len() && before[j] == i);
                            }
                        }
                    }
                }
                if visited[d] {
                    return v;
                }
                v = d;
            },
            None => {
                return v;
            },
        }
        fuel = fuel - 1;
    }
    v
}

/// The re-attachments that `s` needs, as `(dependent, new head)` pairs with
/// 1-based heads, one per dependent, in ascending order of the dependents.
fn find_reattachments(graph: &DependencyGraph<'_>) -> (r: Vec<(usize, usize)>)
    requires
        graph.wf(),
        heads_in_range(graph@.0, false),
        graph.edges() == sentence_edges(graph@.0, false),
    ensures
        forall|k: int|
            0 <= k < r.len() ==> (#[trigger] r[k]).0 < graph@.0.len() && pp_new_head(
                graph@.0,
                r[k].0 as int,
            ) == Some(r[k].1),
        forall|i: int|
            0 <= i < graph@.0.len() && (#[trigger] pp_new_head(graph@.0, i)).is_some()
                ==> exists|k: int| 0 <= k < r.len() && r[k].0 == i,
        forall|k1: int, k2: int| 0 <= k1 < k2 < r.len() ==> r[k1].0 < r[k2].0,
{
    let ghost s = graph@.0;
    let n = graph.node_count();
    let mut updates: Vec<(usize, usize)> = Vec::new();
    let mut dependent: usize = 0;
    while dependent < n
        invariant
            graph.wf(),
            s == graph@.0,
            n == s.len(),
            n == graph.node_count_spec(),
            heads_in_range(s, false),
            graph.edges() == sentence_edges(s, false),
            dependent <= n,
            forall|k: int|
                0 <= k < updates.len() ==> (#[trigger] updates[k]).0 < dependent && pp_new_head(
                    s,
                    updates[k].0 as int,
                ) == Some(updates[k].1),
            forall|i: int|
                0 <= i < dependent && (#[trigger] pp_new_head(s, i)).is_some() ==> exists|k: int|
                    0 <= k < updates.len() && updates[k].0 == i,
            forall|k1: int, k2: int| 0 <= k1 < k2 < updates.len() ==> updates[k1].0 < updates[k2].0,
        decreases n - dependent,
    {
        let token = graph.node(dependent).token;
        let ghost i = dependent as int;
        let ghost before = updates@;
        assert(s[i].head_of(false) == token.head);
        match token.head {
            Some(head) => {
                if head != 0 && is_pp_relation(&token.head_rel) {
                    let head_token = graph.node(head - 1).token;
                    if is_verb(&head_token.pos) {
                        let content = resolve_verb(graph, head - 1);
                        if content != head - 1 {
                            updates.push((dependent, content + 1));
                            assert(pp_new_head(s, i) == Some((content + 1) as usize));
                            assert(updates[updates.len() - 1].0 == i);
                        }
                    }
                }
            },
            None => {},
        }
        proof {
            assert forall|k: int| 0 <= k < updates.len() implies (#[trigger] updates[k]).0 < dependent + 1
                && pp_new_head(s, updates[k].0 as int) == Some(updates[k].1) by {
                if k < before.len() {
                    assert(updates[k] == before[k]);
                }
            }
            assert forall|j: int|
                0 <= j < dependent + 1 && (#[trigger] pp_new_head(s, j)).is_some() implies exists|k: int|
                0 <= k < updates.len() && updates[k].0 == j by {
                if j < dependent {
                    let k = choose|k: int| 0 <= k < before.len() && before[k].0 == j;
                    assert(updates[k] == before[k]);
                } else {
                    assert(updates.len() == before.len() + 1);
                    assert(updates[before.len() as int].0 == j);
                }
            }
        }
        dependent = dependent + 1;
    }
    updates
}

/// Re-attaches each PP or prepositional object (`PP`, `OBJP`) whose head is
/// an auxiliary or modal verb to that verb's content verb, found by
/// following `AUX` relations. The updates are found on the sentence as it
/// was and then applied; only `head` fields change.
pub fn reattach_aux_pps(sentence: &mut Vec<Token>)
    requires
        old(sentence)@.len() < MAX_GRAPH_SIZE,
        heads_in_range(old(sentence)@, false),
    ensures
        final(sentence)@ == reattached(old(sentence)@),
{
    let ghost s = sentence@;
    let updates = {
        let graph = sentence_to_graph(sentence.as_slice(), false);
        find_reattachments(&graph)
    };
    let mut k: usize = 0;
    while k < updates.len()
        invariant
            sentence@.len() == s.len(),
            k <= updates.len(),
            forall|j: int|
                0 <= j < updates.len() ==> (#[trigger] updates[j]).0 < s.len() && pp_new_head(
                    s,
                    updates[j].0 as int,
                ) == Some(updates[j].1),
            forall|i: int|
                0 <= i < s.len() && (#[trigger] pp_new_head(s, i)).is_some() ==> exists|j: int|
                    0 <= j < updates.len() && updates[j].0 == i,
            forall|i: int|
                0 <= i < s.len() ==> #[trigger] sentence@[i] == if exists|j: int|
                    0 <= j < k && updates[j].0 == i {
                    reattached(s)[i]
                } else {
                    s[i]
                },
        decreases updates.len() - k,
    {
        let (dependent, head) = updates[k];
        sentence[dependent].head = Some(head);
        proof {
            assert forall|i: int| 0 <= i < s.len() implies #[trigger] sentence@[i] == if exists|j: int|
                0 <= j < k + 1 && updates[j].0 == i {
                reattached(s)[i]
            } else {
                s[i]
            } by {
                if i == dependent {
                    assert(updates[k as int].0 == i);
                } else {
                    if exists|j: int| 0 <= j < k + 1 && updates[j].0 == i {
                        let j = choose|j: int| 0 <= j < k + 1 && updates[j].0 == i;
                        assert(j < k);
                    }
                }
            }
        }
        k = k + 1;
    }
    proof {
        assert forall|i: int| 0 <= i < s.len() implies #[trigger] sentence@[i] == reattached(s)[i] by {
            if pp_new_head(s, i).is_some() {
                let j = choose|j: int| 0 <= j < updates.len() && updates[j].0 == i;
            }
        }
        assert(sentence@ =~= reattached(s));
    }
}

/// Token `i` is a PP or prepositional object attached to a verb.
pub open spec fn is_pp_of_verb(s: Seq<Token>, i: int) -> bool {
    let t = s[i];
    t.head.is_some() && t.head.unwrap() != 0 && is_pp_label(t.head_rel) && is_verb_tag(
        s[t.head.unwrap() - 1].pos,
    )
}

/// `rank` shows that the `AUX` relations of `s` form no cycle: ranks lie
/// in `0..s.len()` and each `AUX` dependent ranks above its head.
pub open spec fn aux_ranked(s: Seq<Token>, rank: Seq<int>) -> bool {
    &&& rank.len() == s.len()
    &&& forall|i: int| 0 <= i < s.len() ==> 0 <= #[trigger] rank[i] < s.len()
    &&& forall|v: int, d: int|
        0 <= v < s.len() && 0 <= d < s.len() && #[trigger] is_aux_dependent(s, v, d) ==> rank[v]
            < rank[d]
}

proof fn lemma_last_aux_dependent_range(s: Seq<Token>, v: int, m: int)
    ensures
        last_aux_dependent(s, v, m).is_some() ==> 0 <= last_aux_dependent(s, v, m).unwrap() < m
            && is_aux_dependent(s, v, last_aux_dependent(s, v, m).unwrap()),
    decreases m,
{
    if m > 0 {
        lemma_last_aux_dependent_range(s, v, m - 1);
    }
}

proof fn lemma_follow_aux_range(s: Seq<Token>, v: int, path: Seq<int>, fuel: nat)
    requires
        0 <= v < s.len(),
    ensures
        0 <= follow_aux(s, v, path, fuel) < s.len(),
    decreases fuel,
{
    lemma_last_aux_dependent_range(s, v, s.len() as int);
    if fuel > 0 {
        match last_aux_dependent(s, v, s.len() as int) {
            Some(d) => if !path.push(v).contains(d) {
                lemma_follow_aux_range(s, d, path.push(v), (fuel - 1) as nat)
            },
            None => {},
        }
    }
}

proof fn lemma_follow_aux_ends(s: Seq<Token>, rank: Seq<int>, v: int, path: Seq<int>, fuel: nat)
    requires
        aux_ranked(s, rank),
        0 <= v < s.len(),
        forall|j: int| 0 <= j < path.len() ==> 0 <= #[trigger] path[j] < s.len() && rank[path[j]] < rank[v],
        rank[v] + fuel > s.len(),
    ensures
        last_aux_dependent(s, follow_aux(s, v, path, fuel), s.len() as int).is_none(),
    decreases fuel,
{
    lemma_last_aux_dependent_range(s, v, s.len() as int);
    assert(0 <= rank[v] < s.len());
    match last_aux_dependent(s, v, s.len() as int) {
        Some(d) => {
            assert(rank[v] < rank[d]);
            let p2 = path.push(v);
            assert forall|j: int| 0 <= j < p2.len() implies 0 <= #[trigger] p2[j] < s.len() && rank[p2[j]] < rank[d] by {
                if j < path.len() {
                    assert(p2[j] == path[j]);
                }
            }
            if p2.contains(d) {
                let j = choose|j: int| 0 <= j < p2.len() && p2[j] == d;
            }
            lemma_follow_aux_ends(s, rank, d, p2, (fuel - 1) as nat);
        },
        None => {},
    }
}

proof fn lemma_last_aux_dependent_same(s: Seq<Token>, s2: Seq<Token>, v: int, m: int)
    requires
        m <= s.len(),
        forall|d: int| 0 <= d < m ==> is_aux_dependent(s, v, d) == is_aux_dependent(s2, v, d),
    ensures
        last_aux_dependent(s, v, m) == last_aux_dependent(s2, v, m),
    decreases m,
{
    if m > 0 {
        lemma_last_aux_dependent_same(s, s2, v, m - 1);
    }
}

proof fn lemma_follow_aux_same(s: Seq<Token>, s2: Seq<Token>, v: int, path: Seq<int>, fuel: nat)
    requires
        s.len() == s2.len(),
        forall|w: int, d: int|
            0 <= d < s.len() ==> #[trigger] is_aux_dependent(s, w, d) == is_aux_dependent(s2, w, d),
    ensures
        follow_aux(s, v, path, fuel) == follow_aux(s2, v, path, fuel),
    decreases fuel,
{
    lemma_last_aux_dependent_same(s, s2, v, s.len() as int);
    if fuel > 0 {
        match last_aux_dependent(s, v, s.len() as int) {
            Some(d) => if !path.push(v).contains(d) {
                lemma_follow_aux_same(s, s2, d, path.push(v), (fuel - 1) as nat)
            },
            None => {},
        }
    }
}

proof fn lemma_distinct_in_range(p: Seq<int>, n: int)
    requires
        0 <= n,
        p.no_duplicates(),
        forall|j: int| 0 <= j < p.len() ==> 0 <= #[trigger] p[j] < n,
    ensures
        p.len() <= n,
{
    p.unique_seq_to_set();
    lemma_int_range(0, n);
    assert(p.to_set().subset_of(set_int_range(0, n)));
    lemma_len_subset(p.to_set(), set_int_range(0, n));
}

proof fn lemma_follow_aux_fuel(s: Seq<Token>, v: int, path: Seq<int>, fuel: nat, extra: nat)
    requires
        0 <= v < s.len(),
        path.no_duplicates(),
        forall|j: int| 0 <= j < path.len() ==> 0 <= #[trigger] path[j] < s.len(),
        !path.contains(v),
        path.len() + fuel > s.len(),
    ensures
        follow_aux(s, v, path, fuel) == follow_aux(s, v, path, fuel + extra),
    decreases fuel,
{
    if fuel == 0 {
        lemma_distinct_in_range(path, s.len() as int);
    } else {
        lemma_last_aux_dependent_range(s, v, s.len() as int);
        match last_aux_dependent(s, v, s.len() as int) {
            Some(d) => {
                let p2 = path.push(v);
                if !p2.contains(d) {
                    assert(p2.no_duplicates()) by {
                        assert forall|i: int, j: int|
                            0 <= i < p2.len() && 0 <= j < p2.len() && i != j implies p2[i] != p2[j] by {
                            if i < path.len() && j < path.len() {
                                assert(p2[i] == path[i] && p2[j] == path[j]);
                            } else if i < path.len() {
                                assert(p2[i] == path[i]);
                            } else if j < path.len() {
                                assert(p2[j] == path[j]);
                            }
                        }
                    }
                    assert forall|j: int| 0 <= j < p2.len() implies 0 <= #[trigger] p2[j] < s.len() by {
                        if j < path.len() {
                            assert(p2[j] == path[j]);
                        }
                    }
                    lemma_follow_aux_fuel(s, d, p2, (fuel - 1) as nat, extra);
                    assert((fuel + extra - 1) as nat == ((fuel - 1) as nat + extra) as nat);
                }
            },
            None => {},
        }
    }
}

/// The bound on the steps in `content_verb` is never what stops it: with
/// more fuel the result is the same, so the content verb is the end of the
/// `AUX` chain or the last token before the chain comes back to one it passed.
pub proof fn lemma_content_verb_fuel_suffices(s: Seq<Token>, v: int, extra: nat)
    requires
        0 <= v < s.len(),
    ensures
        content_verb(s, v) == follow_aux(s, v, Seq::empty(), (s.len() + 1 + extra) as nat),
{
    lemma_follow_aux_fuel(s, v, Seq::empty(), (s.len() + 1) as nat, extra);
}

/// A sentence in which no verb governing a PP or prepositional object has
/// an `AUX` dependent is left unchanged by re-attachment.
pub proof fn lemma_reattach_noop_on_content_verbs(s: Seq<Token>)
    requires
        forall|i: int|
            0 <= i < s.len() && #[trigger] is_pp_of_verb(s, i) ==> forall|d: int|
                0 <= d < s.len() ==> !#[trigger] is_aux_dependent(s, s[i].head.unwrap() - 1, d),
    ensures
        reattached(s) == s,
{
    assert forall|i: int| 0 <= i < s.len() implies #[trigger] reattached(s)[i] == s[i] by {
        if is_pp_of_verb(s, i) {
            let v = s[i].head.unwrap() - 1;
            lemma_last_aux_dependent_none(s, v, s.len() as int);
            assert(content_verb(s, v) == v);
        }
    }
    assert(reattached(s) =~= s);
}

/// Re-attaching twice gives what re-attaching once gives, where the `AUX`
/// relations form no cycle (as a ranking of the tokens shows).
pub proof fn lemma_reattach_idempotent(s: Seq<Token>, rank: Seq<int>)
    requires
        s.len() < usize::MAX,
        heads_in_range(s, false),
        aux_ranked(s, rank),
    ensures
        reattached(reattached(s)) == reattached(s),
{
    let s1 = reattached(s);
    reveal_strlit("AUX");
    reveal_strlit("PP");
    reveal_strlit("OBJP");
    assert("AUX"@.len() == 3 && "PP"@.len() == 2 && "OBJP"@.len() == 4);
    assert forall|w: int, d: int| 0 <= d < s.len() implies #[trigger] is_aux_dependent(s, w, d)
        == is_aux_dependent(s1, w, d) by {
        if is_pp_label(s[d].head_rel) {
            assert(!is_aux_label(s[d].head_rel));
        }
    }
    assert forall|i: int| 0 <= i < s.len() implies #[trigger] reattached(s1)[i] == s1[i] by {
        let t = s[i];
        if t.head.is_some() && t.head.unwrap() != 0 {
            assert(heads_in_range(s, false));
            assert(s[i].head_of(false) == t.head);
            let v = t.head.unwrap() - 1;
            let fuel = (s.len() + 1) as nat;
            lemma_follow_aux_same(s, s1, v, Seq::empty(), fuel);
            if pp_new_head(s, i).is_some() {
                let c = content_verb(s, v);
                lemma_follow_aux_range(s, v, Seq::empty(), fuel);
                lemma_follow_aux_ends(s, rank, v, Seq::empty(), fuel);
                lemma_follow_aux_same(s, s1, c, Seq::empty(), fuel);
                assert(follow_aux(s, c, Seq::empty(), fuel) == c);
                assert(s1[i].head == Some((c + 1) as usize));
            }
        }
    }
    assert(reattached(s1) =~= s1);
}

} // verus!
