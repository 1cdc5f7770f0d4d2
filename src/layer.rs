use vstd::prelude::*;
use vstd::string::StringExecFns;

use crate::text::str_eq;
use crate::token::{opt_str_view, Token};

verus! {

/// An annotation layer of a token.
#[derive(Clone, Copy, Debug, PartialEq, Eq)]
pub enum Layer {
    Form,
    Lemma,
    CPos,
    Pos,
    Features,
    Head,
    HeadRel,
    PHead,
    PHeadRel,
}

/// The character of a decimal digit.
pub open spec fn digit_char(d: nat) -> char {
    (48 + d) as char
}

/// The decimal digits of `n`, most significant first, without leading zeros.
pub open spec fn decimal(n: nat) -> Seq<char>
    decreases n,
{
    if n < 10 {
        seq![digit_char(n)]
    } else {
        decimal(n / 10).push(digit_char(n % 10))
    }
}

fn push_decimal(out: &mut String, n: usize)
    ensures
        final(out)@ == old(out)@ + decimal(n as nat),
    decreases n,
{
    if n >= 10 {
        push_decimal(out, n / 10);
    }
    let d = (n % 10) as u8;
    out.push((48u8 + d) as char);
    assert(final(out)@ =~= old(out)@ + decimal(n as nat));
}

/// The decimal representation of `n`.
pub fn decimal_string(n: usize) -> (r: String)
    ensures
        r@ == decimal(n as nat),
{
    let mut out = String::new();
    push_decimal(&mut out, n);
    assert(out@ =~= decimal(n as nat));
    out
}

/// The name of each layer, as `layer_callback` accepts it.
pub open spec fn layer_name(l: Layer) -> Seq<char> {
    match l {
        Layer::Form => "form"@,
        Layer::Lemma => "lemma"@,
        Layer::CPos => "cpos"@,
        Layer::Pos => "pos"@,
        Layer::Features => "features"@,
        Layer::Head => "head"@,
        Layer::HeadRel => "headrel"@,
        Layer::PHead => "phead"@,
        Layer::PHeadRel => "pheadrel"@,
    }
}

/// The layer called `name`, if there is one.
pub open spec fn layer_named(name: Seq<char>) -> Option<Layer> {
    if name == "cpos"@ {
        Some(Layer::CPos)
    } else if name == "features"@ {
        Some(Layer::Features)
    } else if name == "form"@ {
        Some(Layer::Form)
    } else if name == "head"@ {
        Some(Layer::Head)
    } else if name == "headrel"@ {
        Some(Layer::HeadRel)
    } else if name == "phead"@ {
        Some(Layer::PHead)
    } else if name == "pheadrel"@ {
        Some(Layer::PHeadRel)
    } else if name == "lemma"@ {
        Some(Layer::Lemma)
    } else if name == "pos"@ {
        Some(Layer::Pos)
    } else {
        None
    }
}

/// The value of layer `l` of token `t`, heads written in decimal.
pub open spec fn layer_value(l: Layer, t: Token) -> Option<Seq<char>> {
    match l {
        Layer::Form => Some(t.form@),
        Layer::Lemma => opt_str_view(t.lemma),
        Layer::CPos => opt_str_view(t.cpos),
        Layer::Pos => opt_str_view(t.pos),
        Layer::Features => opt_str_view(t.features),
        Layer::Head => match t.head {
            Some(h) => Some(decimal(h as nat)),
            None => None,
        },
        Layer::HeadRel => opt_str_view(t.head_rel),
        Layer::PHead => match t.p_head {
            Some(h) => Some(decimal(h as nat)),
            None => None,
        },
        Layer::PHeadRel => opt_str_view(t.p_head_rel),
    }
}

/// Looks up the layer called `layer` (`form`, `lemma`, `cpos`, `pos`,
/// `features`, `head`, `headrel`, `phead` or `pheadrel`).
pub fn layer_callback(layer: &str) -> (r: Option<Layer>)
    ensures
        r == layer_named(layer@),
{
    if str_eq(layer, "cpos") {
        Some(Layer::CPos)
    } else if str_eq(layer, "features") {
        Some(Layer::Features)
    } else if str_eq(layer, "form") {
        Some(Layer::Form)
    } else if str_eq(layer, "head") {
        Some(Layer::Head)
    } else if str_eq(layer, "headrel") {
        Some(Layer::HeadRel)
    } else if str_eq(layer, "phead") {
        Some(Layer::PHead)
    } else if str_eq(layer, "pheadrel") {
        Some(Layer::PHeadRel)
    } else if str_eq(layer, "lemma") {
        Some(Layer::Lemma)
    } else if str_eq(layer, "pos") {
        Some(Layer::Pos)
    } else {
        None
    }
}

fn copy_opt(o: &Option<String>) -> (r: Option<String>)
    ensures
        opt_str_view(r) == opt_str_view(*o),
{
    match o {
        Some(s) => Some(String::from_str(s.as_str())),
        None => None,
    }
}

impl Layer {
    /// The name of this layer.
    pub fn name(&self) -> (r: &'static str)
        ensures
            r@ == layer_name(*self),
    {
        match self {
            Layer::Form => "form",
            Layer::Lemma => "lemma",
            Layer::CPos => "cpos",
            Layer::Pos => "pos",
            Layer::Features => "features",
            Layer::Head => "head",
            Layer::HeadRel => "headrel",
            Layer::PHead => "phead",
            Layer::PHeadRel => "pheadrel",
        }
    }

    /// The value of this layer of `token`, `None` where the token has none.
    pub fn value(&self, token: &Token) -> (r: Option<String>)
        ensures
            opt_str_view(r) == layer_value(*self, *token),
    {
        match self {
            Layer::Form => Some(String::from_str(token.form.as_str())),
            Layer::Lemma => copy_opt(&token.lemma),
            Layer::CPos => copy_opt(&token.cpos),
            Layer::Pos => copy_opt(&token.pos),
            Layer::Features => copy_opt(&token.features),
            Layer::Head => match token.head {
                Some(h) => Some(decimal_string(h)),
                None => None,
            },
            Layer::HeadRel => copy_opt(&token.head_rel),
            Layer::PHead => match token.p_head {
                Some(h) => Some(decimal_string(h)),
                None => None,
            },
            Layer::PHeadRel => copy_opt(&token.p_head_rel),
        }
    }
}

/// Why two sentences could not be compared.
#[derive(Clone, Copy, Debug, PartialEq, Eq)]
pub enum CompareError {
    /// The sentences have these different numbers of tokens.
    DifferentLength(usize, usize),
}

/// The two tokens differ in at least one of the layers.
pub open spec fn differs(layers: Seq<Layer>, t1: Token, t2: Token) -> bool {
    exists|k: int| 0 <= k < layers.len() && layer_value(#[trigger] layers[k], t1) != layer_value(layers[k], t2)
}

fn opt_eq(a: &Option<String>, b: &Option<String>) -> (r: bool)
    ensures
        r == (opt_str_view(*a) == opt_str_view(*b)),
{
    match (a, b) {
        (Some(x), Some(y)) => str_eq(x.as_str(), y.as_str()),
        (None, None) => true,
        _ => false,
    }
}

fn tokens_differ(layers: &[Layer], t1: &Token, t2: &Token) -> (r: bool)
    ensures
        r == differs(layers@, *t1, *t2),
{
    let mut k: usize = 0;
    while k < layers.len()
        invariant
            k <= layers@.len(),
            forall|j: int| 0 <= j < k ==> layer_value(#[trigger] layers@[j], *t1) == layer_value(layers@[j], *t2),
        decreases layers.len() - k,
    {
        let l = layers[k];
        if !opt_eq(&l.value(t1), &l.value(t2)) {
            return true;
        }
        k = k + 1;
    }
    false
}

/// The offsets, in ascending order, of the tokens of two sentences of equal
/// length that differ in at least one of `layers`.
pub fn diff_indices(tokens1: &[Token], tokens2: &[Token], layers: &[Layer]) -> (r: Result<
    Vec<usize>,
    CompareError,
>)
    ensures
        tokens1@.len() != tokens2@.len() ==> r == Err::<Vec<usize>, CompareError>(
            CompareError::DifferentLength(tokens1@.len() as usize, tokens2@.len() as usize),
        ),
        tokens1@.len() == tokens2@.len() ==> r.is_ok(),
        r.is_ok() ==> {
            let v = r.unwrap()@;
            &&& forall|k: int|
                0 <= k < v.len() ==> #[trigger] v[k] < tokens1@.len() && differs(
                    layers@,
                    tokens1@[v[k] as int],
                    tokens2@[v[k] as int],
                )
            &&& forall|k1: int, k2: int| 0 <= k1 < k2 < v.len() ==> v[k1] < v[k2]
            &&& forall|i: int|
                0 <= i < tokens1@.len() && differs(layers@, tokens1@[i], tokens2@[i]) ==> exists|
                    k: int,
                | 0 <= k < v.len() && v[k] == i
        },
{
    if tokens1.len() != tokens2.len() {
        return Err(CompareError::DifferentLength(tokens1.len(), tokens2.len()));
    }
    let n = tokens1.len();
    let mut indices: Vec<usize> = Vec::new();
    let mut i: usize = 0;
    while i < n
        invariant
            n == tokens1@.len(),
            n == tokens2@.len(),
            i <= n,
            forall|k: int|
                0 <= k < indices.len() ==> #[trigger] indices[k] < i && differs(
                    layers@,
                    tokens1@[indices[k] as int],
                    tokens2@[indices[k] as int],
                ),
            forall|k1: int, k2: int| 0 <= k1 < k2 < indices.len() ==> indices[k1] < indices[k2],
            forall|j: int|
                0 <= j < i && differs(layers@, tokens1@[j], tokens2@[j]) ==> exists|k: int|
                    0 <= k < indices.len() && indices[k] == j,
        decreases n - i,
    {
        if tokens_differ(layers, &tokens1[i], &tokens2[i]) {
            let ghost before = indices@;
            indices.push(i);
            proof {
                assert forall|j: int|
                    0 <= j < i + 1 && differs(layers@, tokens1@[j], tokens2@[j]) implies exists|k: int|
                    0 <= k < indices.len() && indices[k] == j by {
                    if j < i {
                        let k = choose|k: int| 0 <= k < before.len() && before[k] == j;
                        assert(indices[k] == before[k]);
                    } else {
                        assert(indices[before.len() as int] == j);
                    }
                }
            }
        }
        i = i + 1;
    }
    let r: Result<Vec<usize>, CompareError> = Ok(indices);
    assert(r.unwrap()@ == indices@);
    r
}

/// The offsets, in ascending order, of the tokens whose value of `layer`
/// `is_match` accepts; tokens without a value are skipped.
pub fn match_indexes<F>(tokens: &[Token], layer: Layer, is_match: F) -> (r: Vec<usize>) where
    F: Fn(&str) -> bool,

    requires
        forall|x: &str| is_match.requires((x,)),
    ensures
        forall|k1: int, k2: int| 0 <= k1 < k2 < r.len() ==> r[k1] < r[k2],
        forall|k: int|
            0 <= k < r.len() ==> #[trigger] r[k] < tokens@.len() && layer_value(layer, tokens@[r[k] as int]).is_some()
                && exists|x: &str|
                x@ == layer_value(layer, tokens@[r[k] as int]).unwrap() && is_match.ensures((x,), true),
        forall|i: int|
            0 <= i < tokens@.len() && layer_value(layer, tokens@[i]).is_some() && !(exists|k: int|
                0 <= k < r.len() && r[k] == i) ==> exists|x: &str|
                x@ == layer_value(layer, tokens@[i]).unwrap() && is_match.ensures((x,), false),
{
    let mut indexes: Vec<usize> = Vec::new();
    let mut i: usize = 0;
    while i < tokens.len()
        invariant
            forall|x: &str| is_match.requires((x,)),
            i <= tokens@.len(),
            forall|k1: int, k2: int| 0 <= k1 < k2 < indexes.len() ==> indexes[k1] < indexes[k2],
            forall|k: int|
                0 <= k < indexes.len() ==> #[trigger] indexes[k] < i && layer_value(
                    layer,
                    tokens@[indexes[k] as int],
                ).is_some() && exists|x: &str|
                    x@ == layer_value(layer, tokens@[indexes[k] as int]).unwrap() && is_match.ensures(
                        (x,),
                        true,
                    ),
            forall|j: int|
                0 <= j < i && layer_value(layer, tokens@[j]).is_some() && !(exists|k: int|
                    0 <= k < indexes.len() && indexes[k] == j) ==> exists|x: &str|
                    x@ == layer_value(layer, tokens@[j]).unwrap() && is_match.ensures((x,), false),
        decreases tokens@.len() - i,
    {
        let ghost before = indexes@;
        match layer.value(&tokens[i]) {
            Some(v) => {
                let text = v.as_str();
                if is_match(text) {
                    indexes.push(i);
                    proof {
                        assert(indexes[before.len() as int] == i);
                        assert forall|k: int| 0 <= k < indexes.len() implies #[trigger] indexes[k] < i + 1
                            && layer_value(layer, tokens@[indexes[k] as int]).is_some() && exists|x: &str|
                            x@ == layer_value(layer, tokens@[indexes[k] as int]).unwrap() && is_match.ensures(
                            (x,),
                            true,
                        ) by {
                            if k < before.len() {
                                assert(indexes[k] == before[k]);
                            }
                        }
                        assert forall|j: int|
                            0 <= j < i + 1 && layer_value(layer, tokens@[j]).is_some() && !(exists|k: int|
                                0 <= k < indexes.len() && indexes[k] == j) implies exists|x: &str|
                            x@ == layer_value(layer, tokens@[j]).unwrap() && is_match.ensures((x,), false) by {
                            if j < i {
                                if exists|k: int| 0 <= k < before.len() && before[k] == j {
                                    let k = choose|k: int| 0 <= k < before.len() && before[k] == j;
                                    assert(indexes[k] == j);
                                }
                            }
                        }
                    }
                } else {
                    proof {
                        assert forall|j: int|
                            0 <= j < i + 1 && layer_value(layer, tokens@[j]).is_some() && !(exists|k: int|
                                0 <= k < indexes.len() && indexes[k] == j) implies exists|x: &str|
                            x@ == layer_value(layer, tokens@[j]).unwrap() && is_match.ensures((x,), false) by {
                            if j == i {
                                assert(text@ == layer_value(layer, tokens@[j]).unwrap());
                            }
                        }
                    }
                }
            },
            None => {},
        }
        i = i + 1;
    }
    indexes
}

/// How many of the layers agree between two tokens.
pub open spec fn layer_agreements(layers: Seq<Layer>, t1: Token, t2: Token) -> nat
    decreases layers.len(),
{
    if layers.len() == 0 {
        0
    } else {
        layer_agreements(layers.drop_last(), t1, t2) + if layer_value(layers.last(), t1)
            == layer_value(layers.last(), t2) {
            1nat
        } else {
            0nat
        }
    }
}

/// How many (token, layer) pairs agree between two sentences, over their
/// first `n` tokens.
pub open spec fn agreements(layers: Seq<Layer>, s1: Seq<Token>, s2: Seq<Token>, n: int) -> nat
    decreases n,
{
    if n <= 0 {
        0
    } else {
        agreements(layers, s1, s2, n - 1) + layer_agreements(layers, s1[n - 1], s2[n - 1])
    }
}

proof fn lemma_layer_agreements_bound(layers: Seq<Layer>, t1: Token, t2: Token)
    ensures
        layer_agreements(layers, t1, t2) <= layers.len(),
    decreases layers.len(),
{
    if layers.len() > 0 {
        lemma_layer_agreements_bound(layers.drop_last(), t1, t2);
    }
}

proof fn lemma_agreements_bound(layers: Seq<Layer>, s1: Seq<Token>, s2: Seq<Token>, n: int)
    requires
        n >= 0,
    ensures
        agreements(layers, s1, s2, n) <= n * layers.len(),
    decreases n,
{
    if n > 0 {
        lemma_agreements_bound(layers, s1, s2, n - 1);
        lemma_layer_agreements_bound(layers, s1[n - 1], s2[n - 1]);
        assert(n * layers.len() == (n - 1) * layers.len() + layers.len()) by (nonlinear_arith);
    }
}

/// Counts, for two sentences of equal length, the (token, layer) pairs on
/// which they agree.
pub fn count_agreement(tokens1: &[Token], tokens2: &[Token], layers: &[Layer]) -> (r: Result<
    usize,
    CompareError,
>)
    requires
        tokens1@.len() * layers@.len() <= usize::MAX,
    ensures
        tokens1@.len() != tokens2@.len() ==> r == Err::<usize, CompareError>(
            CompareError::DifferentLength(tokens1@.len() as usize, tokens2@.len() as usize),
        ),
        tokens1@.len() == tokens2@.len() ==> r == Ok::<usize, CompareError>(
            agreements(layers@, tokens1@, tokens2@, tokens1@.len() as int) as usize,
        ),
{
    if tokens1.len() != tokens2.len() {
        return Err(CompareError::DifferentLength(tokens1.len(), tokens2.len()));
    }
    let n = tokens1.len();
    let mut correct: usize = 0;
    let mut i: usize = 0;
    while i < n
        invariant
            n == tokens1@.len(),
            n == tokens2@.len(),
            n * layers@.len() <= usize::MAX,
            i <= n,
            correct == agreements(layers@, tokens1@, tokens2@, i as int),
        decreases n - i,
    {
        let mut k: usize = 0;
        proof {
            lemma_agreements_bound(layers@, tokens1@, tokens2@, i + 1);
            assert((i + 1) * layers@.len() <= n * layers@.len()) by (nonlinear_arith)
                requires
                    i + 1 <= n,
            ;
        }
        while k < layers.len()
            invariant
                n == tokens1@.len(),
                n == tokens2@.len(),
                i < n,
                k <= layers@.len(),
                correct == agreements(layers@, tokens1@, tokens2@, i as int) + layer_agreements(
                    layers@.take(k as int),
                    tokens1@[i as int],
                    tokens2@[i as int],
                ),
                agreements(layers@, tokens1@, tokens2@, i + 1) <= usize::MAX,
            decreases layers@.len() - k,
        {
            let l = layers[k];
            proof {
                assert(layers@.take(k + 1).drop_last() =~= layers@.take(k as int));
                lemma_layer_agreements_bound(layers@.take(k + 1), tokens1@[i as int], tokens2@[i as int]);
                lemma_layer_agreements_prefix(layers@, k + 1, tokens1@[i as int], tokens2@[i as int]);
            }
            if opt_eq(&l.value(&tokens1[i]), &l.value(&tokens2[i])) {
                correct = correct + 1;
            }
            k = k + 1;
        }
        assert(layers@.take(layers@.len() as int) =~= layers@);
        i = i + 1;
    }
    Ok(correct)
}

proof fn lemma_layer_agreements_prefix(layers: Seq<Layer>, m: int, t1: Token, t2: Token)
    requires
        0 <= m <= layers.len(),
    ensures
        layer_agreements(layers.take(m), t1, t2) <= layer_agreements(layers, t1, t2),
    decreases layers.len(),
{
    if m < layers.len() {
        assert(layers.drop_last().take(m) =~= layers.take(m));
        lemma_layer_agreements_prefix(layers.drop_last(), m, t1, t2);
    } else {
        assert(layers.take(m) =~= layers);
    }
}

/// The value of feature `name` in a feature string as conllx parses it, if
/// the feature is there with a value.
pub uninterp spec fn feature_of(features: Seq<char>, name: Seq<char>) -> Option<Seq<char>>;

/// Relies on `conllx::token::Features::from(&str)` and the map lookup behind
/// it: the value that the parsed features give `name`; the result depends on
/// the two strings alone.
#[verifier::external_body]
fn feature_lookup(features: &str, name: &str) -> (r: Option<String>)
    ensures
        opt_str_view(r) == feature_of(features@, name@),
{
    conllx::token::Features::from(features).get(name).cloned().flatten()
}

/// The value of feature `name` of a token.
pub open spec fn token_feature(t: Token, name: Seq<char>) -> Option<Seq<char>> {
    match t.features {
        Some(f) => feature_of(f@, name),
        None => None,
    }
}

/// The value of feature `name` of `token`, `None` where it has no features,
/// lacks the feature, or has it without a value.
pub fn feature_value(token: &Token, name: &str) -> (r: Option<String>)
    ensures
        opt_str_view(r) == token_feature(*token, name@),
{
    match &token.features {
        Some(f) => feature_lookup(f.as_str(), name),
        None => None,
    }
}

/// How many of the first `n` tokens of two sentences agree on feature `name`.
pub open spec fn feature_agreements(s1: Seq<Token>, s2: Seq<Token>, name: Seq<char>, n: int) -> nat
    decreases n,
{
    if n <= 0 {
        0
    } else {
        feature_agreements(s1, s2, name, n - 1) + if token_feature(s1[n - 1], name) == token_feature(
            s2[n - 1],
            name,
        ) {
            1nat
        } else {
            0nat
        }
    }
}

proof fn lemma_feature_agreements_bound(s1: Seq<Token>, s2: Seq<Token>, name: Seq<char>, n: int)
    requires
        n >= 0,
    ensures
        feature_agreements(s1, s2, name, n) <= n,
    decreases n,
{
    if n > 0 {
        lemma_feature_agreements_bound(s1, s2, name, n - 1);
    }
}

/// Counts, for two sentences of equal length, the tokens that agree on
/// feature `name`.
pub fn count_feature_agreement(tokens1: &[Token], tokens2: &[Token], name: &str) -> (r: Result<
    usize,
    CompareError,
>)
    ensures
        tokens1@.len() != tokens2@.len() ==> r == Err::<usize, CompareError>(
            CompareError::DifferentLength(tokens1@.len() as usize, tokens2@.len() as usize),
        ),
        tokens1@.len() == tokens2@.len() ==> r == Ok::<usize, CompareError>(
            feature_agreements(tokens1@, tokens2@, name@, tokens1@.len() as int) as usize,
        ),
{
    if tokens1.len() != tokens2.len() {
        return Err(CompareError::DifferentLength(tokens1.len(), tokens2.len()));
    }
    let n = tokens1.len();
    let mut correct: usize = 0;
    let mut i: usize = 0;
    while i < n
        invariant
            n == tokens1@.len(),
            n == tokens2@.len(),
            i <= n,
            correct == feature_agreements(tokens1@, tokens2@, name@, i as int),
        decreases n - i,
    {
        proof {
            lemma_feature_agreements_bound(tokens1@, tokens2@, name@, i as int);
        }
        if opt_eq(&feature_value(&tokens1[i], name), &feature_value(&tokens2[i], name)) {
            correct = correct + 1;
        }
        i = i + 1;
    }
    Ok(correct)
}

} // verus!
