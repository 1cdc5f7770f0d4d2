use vstd::prelude::*;

verus! {

/// One word of a sentence with its annotation layers.
///
/// Head indices are 1-based positions in the sentence; `0` is the virtual
/// root and `None` means that the token is unattached.
#[derive(Clone, Debug, PartialEq, Eq)]
pub struct Token {
    pub form: String,
    pub lemma: Option<String>,
    pub cpos: Option<String>,
    pub pos: Option<String>,
    pub features: Option<String>,
    pub head: Option<usize>,
    pub head_rel: Option<String>,
    pub p_head: Option<usize>,
    pub p_head_rel: Option<String>,
}

/// The characters of an optional string.
pub open spec fn opt_str_view(o: Option<String>) -> Option<Seq<char>> {
    match o {
        Some(s) => Some(s@),
        None => None,
    }
}

impl Token {
    /// The head of the plain (`projective == false`) or projective analysis.
    pub open spec fn head_of(self, projective: bool) -> Option<usize> {
        if projective {
            self.p_head
        } else {
            self.head
        }
    }

    /// The relation label of the plain or projective analysis.
    pub open spec fn rel_of(self, projective: bool) -> Option<String> {
        if projective {
            self.p_head_rel
        } else {
            self.head_rel
        }
    }

    /// A token with the given form and no other annotation.
    pub fn new(form: String) -> (r: Token)
        ensures
            r.form == form,
            r.lemma.is_none(),
            r.cpos.is_none(),
            r.pos.is_none(),
            r.features.is_none(),
            r.head.is_none(),
            r.head_rel.is_none(),
            r.p_head.is_none(),
            r.p_head_rel.is_none(),
    {
        Token {
            form,
            lemma: None,
            cpos: None,
            pos: None,
            features: None,
            head: None,
            head_rel: None,
            p_head: None,
            p_head_rel: None,
        }
    }
}

/// Every head of the chosen analysis is the root or a position of the sentence.
pub open spec fn heads_in_range(s: Seq<Token>, projective: bool) -> bool {
    forall|i: int|
        0 <= i < s.len() ==> match #[trigger] s[i].head_of(projective) {
            Some(h) => h <= s.len(),
            None => true,
        }
}

} // verus!
