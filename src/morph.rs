use vstd::prelude::*;
use vstd::string::StringExecFns;

use crate::layer::{decimal, decimal_string};
use crate::text::str_eq;
use crate::token::{opt_str_view, Token};

verus! {

/// The morphological categories of the positional tag encoding.
#[derive(Clone, Copy, Debug, PartialEq, Eq, Hash)]
pub enum MorphAttribute {
    Case,
    Gender,
    Number,
    Mood,
    Person,
    Tense,
}

/// Why a positional morphology code could not be expanded.
#[derive(Clone, Copy, Debug, PartialEq, Eq)]
pub enum MorphError {
    /// The code does not have one character per attribute of its tag.
    IncorrectLength,
    /// The character at the given position is no code of its attribute.
    IncorrectChar(usize, char),
}

/// The feature name of a category.
pub open spec fn attribute_name(a: MorphAttribute) -> Seq<char> {
    match a {
        MorphAttribute::Case => "case"@,
        MorphAttribute::Gender => "gender"@,
        MorphAttribute::Number => "number"@,
        MorphAttribute::Mood => "mood"@,
        MorphAttribute::Person => "person"@,
        MorphAttribute::Tense => "tense"@,
    }
}

/// The long value of a one-character code of a category, if it is one.
pub open spec fn long_name(a: MorphAttribute, c: char) -> Option<Seq<char>> {
    match a {
        MorphAttribute::Case => if c == 'n' {
            Some("nominative"@)
        } else if c == 'g' {
            Some("genitive"@)
        } else if c == 'd' {
            Some("dative"@)
        } else if c == 'a' {
            Some("accusative"@)
        } else if c == '*' {
            Some("underspecified"@)
        } else {
            None
        },
        MorphAttribute::Gender => if c == 'm' {
            Some("masculine"@)
        } else if c == 'f' {
            Some("feminine"@)
        } else if c == 'n' {
            Some("neuter"@)
        } else if c == '*' {
            Some("underspecified"@)
        } else {
            None
        },
        MorphAttribute::Number => if c == 's' {
            Some("singular"@)
        } else if c == 'p' {
            Some("plural"@)
        } else if c == '*' {
            Some("underspecified"@)
        } else {
            None
        },
        MorphAttribute::Mood => if c == 'i' {
            Some("indicative"@)
        } else if c == 'k' {
            Some("subjunctive"@)
        } else {
            None
        },
        MorphAttribute::Person => if c == '1' {
            Some("1"@)
        } else if c == '2' {
            Some("2"@)
        } else if c == '3' {
            Some("3"@)
        } else if c == '*' {
            Some("underspecified"@)
        } else {
            None
        },
        MorphAttribute::Tense => if c == 's' {
            Some("present"@)
        } else if c == 't' {
            Some("past"@)
        } else if c == '*' {
            Some("underspecified"@)
        } else {
            None
        },
    }
}

/// The categories encoded, in order, by the morphology code of a part-of-speech tag.
pub open spec fn tag_attributes(tag: Seq<char>) -> Option<Seq<MorphAttribute>> {
    if tag == "APPR"@ || tag == "APPO"@ {
        Some(seq![MorphAttribute::Case])
    } else if tag == "PPER"@ || tag == "PRF"@ {
        Some(
            seq![
                MorphAttribute::Case,
                MorphAttribute::Number,
                MorphAttribute::Gender,
                MorphAttribute::Person,
            ],
        )
    } else if tag == "VAFIN"@ || tag == "VMFIN"@ || tag == "VVFIN"@ {
        Some(
            seq![
                MorphAttribute::Person,
                MorphAttribute::Number,
                MorphAttribute::Mood,
                MorphAttribute::Tense,
            ],
        )
    } else if tag == "VAIMP"@ || tag == "VVIMP"@ {
        Some(seq![MorphAttribute::Number])
    } else if is_case_number_gender_tag(tag) {
        Some(seq![MorphAttribute::Case, MorphAttribute::Number, MorphAttribute::Gender])
    } else {
        None
    }
}

/// The tags whose code gives case, number and gender.
pub open spec fn is_case_number_gender_tag(tag: Seq<char>) -> bool {
    ||| tag == "ADJA"@
    ||| tag == "APPRART"@
    ||| tag == "ART"@
    ||| tag == "NN"@
    ||| tag == "NE"@
    ||| tag == "PDS"@
    ||| tag == "PDAT"@
    ||| tag == "PIS"@
    ||| tag == "PIAT"@
    ||| tag == "PIDAT"@
    ||| tag == "PPOSS"@
    ||| tag == "PPOSAT"@
    ||| tag == "PRELS"@
    ||| tag == "PRELAT"@
    ||| tag == "PWS"@
    ||| tag == "PWAT"@
}

impl MorphAttribute {
    /// The feature name of this category.
    pub fn as_str(&self) -> (r: &'static str)
        ensures
            r@ == attribute_name(*self),
    {
        match self {
            MorphAttribute::Case => "case",
            MorphAttribute::Gender => "gender",
            MorphAttribute::Number => "number",
            MorphAttribute::Mood => "mood",
            MorphAttribute::Person => "person",
            MorphAttribute::Tense => "tense",
        }
    }

    /// The long value of the code `c` of this category.
    pub fn long_value(&self, c: char) -> (r: Option<&'static str>)
        ensures
            match r {
                Some(s) => long_name(*self, c) == Some(s@),
                None => long_name(*self, c).is_none(),
            },
    {
        match self {
            MorphAttribute::Case => if c == 'n' {
                Some("nominative")
            } else if c == 'g' {
                Some("genitive")
            } else if c == 'd' {
                Some("dative")
            } else if c == 'a' {
                Some("accusative")
            } else if c == '*' {
                Some("underspecified")
            } else {
                None
            },
            MorphAttribute::Gender => if c == 'm' {
                Some("masculine")
            } else if c == 'f' {
                Some("feminine")
            } else if c == 'n' {
                Some("neuter")
            } else if c == '*' {
                Some("underspecified")
            } else {
                None
            },
            MorphAttribute::Number => if c == 's' {
                Some("singular")
            } else if c == 'p' {
                Some("plural")
            } else if c == '*' {
                Some("underspecified")
            } else {
                None
            },
            MorphAttribute::Mood => if c == 'i' {
                Some("indicative")
            } else if c == 'k' {
                Some("subjunctive")
            } else {
                None
            },
            MorphAttribute::Person => if c == '1' {
                Some("1")
            } else if c == '2' {
                Some("2")
            } else if c == '3' {
                Some("3")
            } else if c == '*' {
                Some("underspecified")
            } else {
                None
            },
            MorphAttribute::Tense => if c == 's' {
                Some("present")
            } else if c == 't' {
                Some("past")
            } else if c == '*' {
                Some("underspecified")
            } else {
                None
            },
        }
    }
}

fn is_case_number_gender(tag: &str) -> (r: bool)
    ensures
        r == is_case_number_gender_tag(tag@),
{
    str_eq(tag, "ADJA") || str_eq(tag, "APPRART") || str_eq(tag, "ART") || str_eq(tag, "NN")
        || str_eq(tag, "NE") || str_eq(tag, "PDS") || str_eq(tag, "PDAT") || str_eq(tag, "PIS")
        || str_eq(tag, "PIAT") || str_eq(tag, "PIDAT") || str_eq(tag, "PPOSS") || str_eq(
        tag,
        "PPOSAT",
    ) || str_eq(tag, "PRELS") || str_eq(tag, "PRELAT") || str_eq(tag, "PWS") || str_eq(
        tag,
        "PWAT",
    )
}

/// Looks up the categories that the morphology code of `tag` encodes.
pub fn attributes_of_tag(tag: &str) -> (r: Option<Vec<MorphAttribute>>)
    ensures
        match r {
            Some(v) => tag_attributes(tag@) == Some(v@),
            None => tag_attributes(tag@).is_none(),
        },
{
    let r = if str_eq(tag, "APPR") || str_eq(tag, "APPO") {
        Some(vec![MorphAttribute::Case])
    } else if str_eq(tag, "PPER") || str_eq(tag, "PRF") {
        Some(
            vec![
                MorphAttribute::Case,
                MorphAttribute::Number,
                MorphAttribute::Gender,
                MorphAttribute::Person,
            ],
        )
    } else if str_eq(tag, "VAFIN") || str_eq(tag, "VMFIN") || str_eq(tag, "VVFIN") {
        Some(
            vec![
                MorphAttribute::Person,
                MorphAttribute::Number,
                MorphAttribute::Mood,
                MorphAttribute::Tense,
            ],
        )
    } else if str_eq(tag, "VAIMP") || str_eq(tag, "VVIMP") {
        Some(vec![MorphAttribute::Number])
    } else if is_case_number_gender(tag) {
        Some(vec![MorphAttribute::Case, MorphAttribute::Number, MorphAttribute::Gender])
    } else {
        None
    };
    proof {
        if r.is_some() {
            assert(tag_attributes(tag@).unwrap() =~= r.unwrap()@);
        }
    }
    r
}

/// The parts joined by `|`.
pub open spec fn join_features(parts: Seq<Seq<char>>) -> Seq<char>
    decreases parts.len(),
{
    if parts.len() == 0 {
        Seq::empty()
    } else if parts.len() == 1 {
        parts[0]
    } else {
        join_features(parts.drop_last()) + "|"@ + parts.last()
    }
}

/// The `name:value` pair that the code character `c` of category `a` expands to.
pub open spec fn feature_pair(a: MorphAttribute, c: char) -> Seq<char> {
    attribute_name(a) + ":"@ + long_name(a, c).unwrap()
}

/// The pairs of a code whose characters are all valid, one per category, with
/// the code itself appended as `morph:code` when `preserve` holds.
pub open spec fn feature_parts(attrs: Seq<MorphAttribute>, code: Seq<char>, preserve: bool) -> Seq<
    Seq<char>,
> {
    let pairs = Seq::new(attrs.len(), |i: int| feature_pair(attrs[i], code[i]));
    if preserve {
        pairs.push("morph:"@ + code)
    } else {
        pairs
    }
}

/// The first position, from `i` on, whose character is no code of its category.
pub open spec fn first_invalid_from(attrs: Seq<MorphAttribute>, code: Seq<char>, i: nat) -> Option<
    nat,
>
    decreases code.len() - i,
{
    if i >= code.len() {
        None
    } else if long_name(attrs[i as int], code[i as int]).is_none() {
        Some(i)
    } else {
        first_invalid_from(attrs, code, i + 1)
    }
}

/// What expanding the morphology of `t` gives: `Ok(None)` where the token has
/// nothing to expand, `Ok(Some(f))` with its new feature string `f`, or the error.
pub open spec fn expand_outcome(t: Token, preserve: bool) -> Result<Option<Seq<char>>, MorphError> {
    if t.pos.is_none() || t.features.is_none() {
        Ok(None)
    } else {
        let code = t.features.unwrap()@;
        let attrs = tag_attributes(t.pos.unwrap()@);
        if code == "--"@ || attrs.is_none() {
            Ok(None)
        } else if code.len() != attrs.unwrap().len() {
            Err(MorphError::IncorrectLength)
        } else {
            let found = first_invalid_from(attrs.unwrap(), code, 0);
            if found.is_some() {
                Err(MorphError::IncorrectChar(found.unwrap() as usize, code[found.unwrap() as int]))
            } else {
                Ok(Some(join_features(feature_parts(attrs.unwrap(), code, preserve))))
            }
        }
    }
}

proof fn lemma_join_push(parts: Seq<Seq<char>>, p: Seq<char>)
    requires
        parts.len() > 0,
    ensures
        join_features(parts.push(p)) == join_features(parts) + "|"@ + p,
{
    assert(parts.push(p).drop_last() =~= parts);
}

/// The expanded feature string of `token`, `None` where it has nothing to expand.
fn expand_features(token: &Token, preserve_orig: bool) -> (r: Result<Option<String>, MorphError>)
    ensures
        match (r, expand_outcome(*token, preserve_orig)) {
            (Ok(Some(f)), Ok(Some(g))) => f@ == g,
            (Ok(None), Ok(None)) => true,
            (Err(e), Err(g)) => e == g,
            _ => false,
        },
{
    let tag: &str = match &token.pos {
        Some(tag) => tag.as_str(),
        None => return Ok(None),
    };
    let morph: &str = match &token.features {
        Some(features) => features.as_str(),
        None => return Ok(None),
    };
    if str_eq(morph, "--") {
        return Ok(None);
    }
    let attributes = match attributes_of_tag(tag) {
        Some(attributes) => attributes,
        None => return Ok(None),
    };
    let n = morph.unicode_len();
    if n != attributes.len() {
        return Err(MorphError::IncorrectLength);
    }
    let ghost attrs = attributes@;
    let ghost code = morph@;
    let ghost parts = feature_parts(attrs, code, preserve_orig);
    let mut features = String::new();
    let mut i: usize = 0;
    while i < n
        invariant
            n == attrs.len(),
            n == code.len(),
            attrs == attributes@,
            code == morph@,
            parts == feature_parts(attrs, code, preserve_orig),
            token.pos.is_some(),
            token.features.is_some(),
            token.features.unwrap()@ == code,
            code != "--"@,
            tag_attributes(token.pos.unwrap()@) == Some(attrs),
            i <= n,
            first_invalid_from(attrs, code, 0) == first_invalid_from(attrs, code, i as nat),
            features@ == join_features(parts.take(i as int)),
        decreases n - i,
    {
        let c = morph.get_char(i);
        let attribute = attributes[i];
        match attribute.long_value(c) {
            None => {
                assert(first_invalid_from(attrs, code, i as nat) == Some(i as nat));
                return Err(MorphError::IncorrectChar(i, c));
            },
            Some(long) => {
                proof {
                    assert(parts.take(i + 1) =~= parts.take(i as int).push(parts[i as int]));
                    if i > 0 {
                        lemma_join_push(parts.take(i as int), parts[i as int]);
                    } else {
                        assert(parts.take(i + 1) =~= seq![parts[i as int]]);
                    }
                }
                if i > 0 {
                    features.append("|");
                }
                features.append(attribute.as_str());
                features.append(":");
                features.append(long);
                assert(features@ =~= join_features(parts.take(i + 1)));
            },
        }
        i = i + 1;
    }
    if preserve_orig {
        proof {
            assert(parts =~= parts.take(n as int).push(parts[n as int]));
            if n > 0 {
                lemma_join_push(parts.take(n as int), parts[n as int]);
            } else {
                assert(parts =~= seq![parts[0]]);
            }
        }
        if n > 0 {
            features.append("|");
        }
        features.append("morph:");
        features.append(morph);
        assert(features@ =~= join_features(parts));
    } else {
        assert(parts.take(n as int) =~= parts);
    }
    Ok(Some(features))
}

/// Expands the positional morphology code in the features of `token` into
/// `name:value` pairs joined by `|`, keeping the code as `morph:code` when
/// `preserve_orig` holds. Tokens without a tag, without features, with the
/// features `--` or with a tag that has no code are left as they are. On an
/// error the token is left as it is.
pub fn expand_tdz_morph(token: &mut Token, preserve_orig: bool) -> (r: Result<(), MorphError>)
    ensures
        match expand_outcome(*old(token), preserve_orig) {
            Ok(None) => r == Ok::<(), MorphError>(()) && *final(token) == *old(token),
            Ok(Some(f)) => {
                &&& r == Ok::<(), MorphError>(())
                &&& opt_str_view(final(token).features) == Some(f)
                &&& *final(token) == (Token { features: final(token).features, ..*old(token) })
            },
            Err(e) => r == Err::<(), MorphError>(e) && *final(token) == *old(token),
        },
{
    let expanded = match expand_features(token, preserve_orig) {
        Ok(expanded) => expanded,
        Err(e) => return Err(e),
    };
    if let Some(features) = expanded {
        token.features = Some(features);
    }
    Ok(())
}

/// A token whose features are the sentinel `--` is left as it is, whatever
/// `preserve` says.
pub proof fn lemma_sentinel_features_unchanged(t: Token, preserve: bool)
    requires
        opt_str_view(t.features) == Some("--"@),
    ensures
        expand_outcome(t, preserve) == Ok::<Option<Seq<char>>, MorphError>(None),
{
}

/// A token whose tag has no morphology code is left as it is and gives no error.
pub proof fn lemma_unknown_tag_unchanged(t: Token, preserve: bool)
    requires
        t.pos.is_some(),
        tag_attributes(t.pos.unwrap()@).is_none(),
    ensures
        expand_outcome(t, preserve) == Ok::<Option<Seq<char>>, MorphError>(None),
{
}

/// `new` is what expanding the morphology of `old` leaves: the same token, or
/// the same token with its expanded features.
pub open spec fn expanded_as(old: Token, new: Token, preserve: bool) -> bool {
    match expand_outcome(old, preserve) {
        Ok(Some(f)) => opt_str_view(new.features) == Some(f) && new == (Token {
            features: new.features,
            ..old
        }),
        _ => new == old,
    }
}

/// Expands the morphology of every token, stopping at the first token that
/// gives an error; the tokens before it are expanded, it and the tokens
/// after it are left as they are.
pub fn expand_sentence(sentence: &mut Vec<Token>, preserve_orig: bool) -> (r: Result<(), MorphError>)
    ensures
        final(sentence)@.len() == old(sentence)@.len(),
        match r {
            Ok(()) => forall|i: int|
                0 <= i < old(sentence)@.len() ==> expand_outcome(
                    #[trigger] old(sentence)@[i],
                    preserve_orig,
                ).is_ok() && expanded_as(old(sentence)@[i], final(sentence)@[i], preserve_orig),
            Err(e) => exists|k: int|
                0 <= k < old(sentence)@.len() && expand_outcome(
                    #[trigger] old(sentence)@[k],
                    preserve_orig,
                ) == Err::<Option<Seq<char>>, MorphError>(e) && (forall|i: int|
                    0 <= i < k ==> expand_outcome(#[trigger] old(sentence)@[i], preserve_orig).is_ok()
                        && expanded_as(old(sentence)@[i], final(sentence)@[i], preserve_orig)) && (
                forall|i: int| k <= i < old(sentence)@.len() ==> #[trigger] final(sentence)@[i] == old(sentence)@[i]),
        },
{
    let ghost s = sentence@;
    let mut i: usize = 0;
    while i < sentence.len()
        invariant
            s == old(sentence)@,
            sentence@.len() == s.len(),
            i <= s.len(),
            forall|j: int|
                0 <= j < i ==> expand_outcome(#[trigger] s[j], preserve_orig).is_ok() && expanded_as(
                    s[j],
                    sentence@[j],
                    preserve_orig,
                ),
            forall|j: int| i <= j < s.len() ==> #[trigger] sentence@[j] == s[j],
        decreases s.len() - i,
    {
        match expand_features(&sentence[i], preserve_orig) {
            Ok(Some(features)) => {
                sentence[i].features = Some(features);
            },
            Ok(None) => {},
            Err(e) => {
                assert(expand_outcome(s[i as int], preserve_orig) == Err::<Option<Seq<char>>, MorphError>(e));
                return Err(e);
            },
        }
        i = i + 1;
    }
    Ok(())
}

/// The message that describes an error.
pub open spec fn error_message(e: MorphError) -> Seq<char> {
    match e {
        MorphError::IncorrectLength => "Incorrect morphology features length"@,
        MorphError::IncorrectChar(p, c) => "Incorrect character '"@ + seq![c] + "' at position "@
            + decimal(p as nat),
    }
}

impl MorphError {
    /// A message that describes this error.
    pub fn message(&self) -> (r: String)
        ensures
            r@ == error_message(*self),
    {
        match self {
            MorphError::IncorrectLength => String::from_str("Incorrect morphology features length"),
            MorphError::IncorrectChar(p, c) => {
                let mut m = String::from_str("Incorrect character '");
                m.push(*c);
                m.append("' at position ");
                let digits = decimal_string(*p);
                m.append(digits.as_str());
                m
            },
        }
    }
}

} // verus!
