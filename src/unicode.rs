use vstd::prelude::*;
use vstd::string::StrSliceExecFns;
use vstd::string::StringExecFns;

use unicode_normalization::UnicodeNormalization;

use crate::text::str_eq;
use crate::token::Token;

verus! {

/// Kinds of Unicode normalization applied before punctuation is simplified.
#[derive(Clone, Copy, Debug, PartialEq, Eq)]
pub enum Normalization {
    Identity,
    NFD,
    NFKD,
    NFC,
    NFKC,
}

/// What a character becomes when punctuation is simplified.
#[derive(Debug)]
pub enum Conversion {
    /// An ASCII character that stands for it.
    Char(char),
    /// An ASCII string that stands for it.
    String(String),
    /// The character itself, which has no ASCII replacement.
    Unchanged(char),
}

/// The ASCII character that stands for a Unicode punctuation character, if
/// one character does.
pub open spec fn punct_char(c: char) -> Option<char> {
    if c == '«' {
        Some('"')
    } else if c == '´' {
        Some('\'')
    } else if c == '»' {
        Some('"')
    } else if c == '÷' {
        Some('/')
    } else if c == 'ǀ' {
        Some('|')
    } else if c == 'ǃ' {
        Some('!')
    } else if c == 'ʹ' {
        Some('\'')
    } else if c == 'ʺ' {
        Some('"')
    } else if c == 'ʼ' {
        Some('\'')
    } else if c == '˄' {
        Some('^')
    } else if c == 'ˆ' {
        Some('^')
    } else if c == 'ˈ' {
        Some('\'')
    } else if c == 'ˋ' {
        Some('`')
    } else if c == 'ˍ' {
        Some('_')
    } else if c == '˜' {
        Some('~')
    } else if c == '։' {
        Some(':')
    } else if c == '׀' {
        Some('|')
    } else if c == '׃' {
        Some(':')
    } else if c == '٪' {
        Some('%')
    } else if c == '٭' {
        Some('*')
    } else if c == '‐' {
        Some('-')
    } else if c == '‑' {
        Some('-')
    } else if c == '‒' {
        Some('-')
    } else if c == '–' {
        Some('-')
    } else if c == '—' {
        Some('-')
    } else if c == '―' {
        Some('-')
    } else if c == '‗' {
        Some('_')
    } else if c == '‘' {
        Some('\'')
    } else if c == '’' {
        Some('\'')
    } else if c == '‚' {
        Some(',')
    } else if c == '‛' {
        Some('\'')
    } else if c == '“' {
        Some('"')
    } else if c == '”' {
        Some('"')
    } else if c == '„' {
        Some('"')
    } else if c == '‟' {
        Some('"')
    } else if c == '′' {
        Some('\'')
    } else if c == '″' {
        Some('"')
    } else if c == '‵' {
        Some('`')
    } else if c == '‶' {
        Some('"')
    } else if c == '‸' {
        Some('^')
    } else if c == '‹' {
        Some('<')
    } else if c == '›' {
        Some('>')
    } else if c == '‽' {
        Some('?')
    } else if c == '⁄' {
        Some('/')
    } else if c == '⁎' {
        Some('*')
    } else if c == '⁒' {
        Some('%')
    } else if c == '⁓' {
        Some('~')
    } else if c == '−' {
        Some('-')
    } else if c == '∕' {
        Some('/')
    } else if c == '∖' {
        Some('\\')
    } else if c == '∗' {
        Some('*')
    } else if c == '∣' {
        Some('|')
    } else if c == '∶' {
        Some(':')
    } else if c == '∼' {
        Some('~')
    } else if c == '⌃' {
        Some('^')
    } else if c == '♯' {
        Some('#')
    } else if c == '✱' {
        Some('*')
    } else if c == '❘' {
        Some('|')
    } else if c == '❢' {
        Some('!')
    } else if c == '⟦' {
        Some('[')
    } else if c == '⟨' {
        Some('<')
    } else if c == '⟩' {
        Some('>')
    } else if c == '⦃' {
        Some('{')
    } else if c == '⦄' {
        Some('}')
    } else if c == '〃' {
        Some('"')
    } else if c == '〈' {
        Some('<')
    } else if c == '〉' {
        Some('>')
    } else if c == '〛' {
        Some(']')
    } else if c == '〜' {
        Some('~')
    } else if c == '〝' {
        Some('"')
    } else if c == '〞' {
        Some('"')
    } else {
        None
    }
}

/// The ASCII string of several characters that stands for a Unicode
/// punctuation character, if one does.
pub open spec fn punct_string(c: char) -> Option<Seq<char>> {
    if c == '‖' {
        Some("||"@)
    } else if c == '‴' {
        Some("'''"@)
    } else if c == '‷' {
        Some("'''"@)
    } else if c == '≤' {
        Some("<="@)
    } else if c == '≥' {
        Some(">="@)
    } else if c == '≦' {
        Some("<="@)
    } else if c == '≧' {
        Some(">="@)
    } else if c == '…' {
        Some("..."@)
    } else {
        None
    }
}

/// The ASCII replacement of a Unicode punctuation character, if it has one.
pub open spec fn punct_replacement(c: char) -> Option<Seq<char>> {
    match punct_char(c) {
        Some(d) => Some(seq![d]),
        None => punct_string(c),
    }
}

/// What `c` becomes: its replacement, or `c` itself.
pub open spec fn simplified_char(c: char) -> Seq<char> {
    match punct_replacement(c) {
        Some(r) => r,
        None => seq![c],
    }
}

/// The characters of `s` with each punctuation character replaced.
pub open spec fn simplify_chars(s: Seq<char>) -> Seq<char>
    decreases s.len(),
{
    if s.len() == 0 {
        Seq::empty()
    } else {
        simplify_chars(s.drop_last()) + simplified_char(s.last())
    }
}

/// Maps a Unicode punctuation character to its ASCII counterpart.
pub fn simplify_unicode_punct(c: char) -> (r: Conversion)
    ensures
        match r {
            Conversion::Char(d) => punct_char(c) == Some(d),
            Conversion::String(s) => punct_char(c).is_none() && punct_string(c) == Some(s@),
            Conversion::Unchanged(d) => d == c && punct_char(c).is_none() && punct_string(c).is_none(),
        },
{
    match c {
        '«' => Conversion::Char('"'),
        '´' => Conversion::Char('\''),
        '»' => Conversion::Char('"'),
        '÷' => Conversion::Char('/'),
        'ǀ' => Conversion::Char('|'),
        'ǃ' => Conversion::Char('!'),
        'ʹ' => Conversion::Char('\''),
        'ʺ' => Conversion::Char('"'),
        'ʼ' => Conversion::Char('\''),
        '˄' => Conversion::Char('^'),
        'ˆ' => Conversion::Char('^'),
        'ˈ' => Conversion::Char('\''),
        'ˋ' => Conversion::Char('`'),
        'ˍ' => Conversion::Char('_'),
        '˜' => Conversion::Char('~'),
        '։' => Conversion::Char(':'),
        '׀' => Conversion::Char('|'),
        '׃' => Conversion::Char(':'),
        '٪' => Conversion::Char('%'),
        '٭' => Conversion::Char('*'),
        '‐' => Conversion::Char('-'),
        '‑' => Conversion::Char('-'),
        '‒' => Conversion::Char('-'),
        '–' => Conversion::Char('-'),
        '—' => Conversion::Char('-'),
        '―' => Conversion::Char('-'),
        '‗' => Conversion::Char('_'),
        '‘' => Conversion::Char('\''),
        '’' => Conversion::Char('\''),
        '‚' => Conversion::Char(','),
        '‛' => Conversion::Char('\''),
        '“' => Conversion::Char('"'),
        '”' => Conversion::Char('"'),
        '„' => Conversion::Char('"'),
        '‟' => Conversion::Char('"'),
        '′' => Conversion::Char('\''),
        '″' => Conversion::Char('"'),
        '‵' => Conversion::Char('`'),
        '‶' => Conversion::Char('"'),
        '‸' => Conversion::Char('^'),
        '‹' => Conversion::Char('<'),
        '›' => Conversion::Char('>'),
        '‽' => Conversion::Char('?'),
        '⁄' => Conversion::Char('/'),
        '⁎' => Conversion::Char('*'),
        '⁒' => Conversion::Char('%'),
        '⁓' => Conversion::Char('~'),
        '−' => Conversion::Char('-'),
        '∕' => Conversion::Char('/'),
        '∖' => Conversion::Char('\\'),
        '∗' => Conversion::Char('*'),
        '∣' => Conversion::Char('|'),
        '∶' => Conversion::Char(':'),
        '∼' => Conversion::Char('~'),
        '⌃' => Conversion::Char('^'),
        '♯' => Conversion::Char('#'),
        '✱' => Conversion::Char('*'),
        '❘' => Conversion::Char('|'),
        '❢' => Conversion::Char('!'),
        '⟦' => Conversion::Char('['),
        '⟨' => Conversion::Char('<'),
        '⟩' => Conversion::Char('>'),
        '⦃' => Conversion::Char('{'),
        '⦄' => Conversion::Char('}'),
        '〃' => Conversion::Char('"'),
        '〈' => Conversion::Char('<'),
        '〉' => Conversion::Char('>'),
        '〛' => Conversion::Char(']'),
        '〜' => Conversion::Char('~'),
        '〝' => Conversion::Char('"'),
        '〞' => Conversion::Char('"'),
        '‖' => Conversion::String(String::from_str("||")),
        '‴' => Conversion::String(String::from_str("'''")),
        '‷' => Conversion::String(String::from_str("'''")),
        '≤' => Conversion::String(String::from_str("<=")),
        '≥' => Conversion::String(String::from_str(">=")),
        '≦' => Conversion::String(String::from_str("<=")),
        '≧' => Conversion::String(String::from_str(">=")),
        '…' => Conversion::String(String::from_str("...")),
        _ => Conversion::Unchanged(c),
    }
}

/// The canonical decomposition (NFD) of a character sequence.
pub uninterp spec fn nfd_of(s: Seq<char>) -> Seq<char>;

/// The compatibility decomposition (NFKD) of a character sequence.
pub uninterp spec fn nfkd_of(s: Seq<char>) -> Seq<char>;

/// The canonical composition (NFC) of a character sequence.
pub uninterp spec fn nfc_of(s: Seq<char>) -> Seq<char>;

/// The compatibility composition (NFKC) of a character sequence.
pub uninterp spec fn nfkc_of(s: Seq<char>) -> Seq<char>;

/// `s` in the normalization form `norm`.
pub open spec fn normalized(s: Seq<char>, norm: Normalization) -> Seq<char> {
    match norm {
        Normalization::Identity => s,
        Normalization::NFD => nfd_of(s),
        Normalization::NFKD => nfkd_of(s),
        Normalization::NFC => nfc_of(s),
        Normalization::NFKC => nfkc_of(s),
    }
}

/// Relies on `UnicodeNormalization::nfd` of unicode-normalization: the
/// decomposition depends on the characters alone.
#[verifier::external_body]
fn nfd_string(s: &str) -> (r: String)
    ensures
        r@ == nfd_of(s@),
{
    s.nfd().collect::<String>()
}

/// Relies on `UnicodeNormalization::nfkd` of unicode-normalization: the
/// decomposition depends on the characters alone.
#[verifier::external_body]
fn nfkd_string(s: &str) -> (r: String)
    ensures
        r@ == nfkd_of(s@),
{
    s.nfkd().collect::<String>()
}

/// Relies on `UnicodeNormalization::nfc` of unicode-normalization: the
/// composition depends on the characters alone.
#[verifier::external_body]
fn nfc_string(s: &str) -> (r: String)
    ensures
        r@ == nfc_of(s@),
{
    s.nfc().collect::<String>()
}

/// Relies on `UnicodeNormalization::nfkc` of unicode-normalization: the
/// composition depends on the characters alone.
#[verifier::external_body]
fn nfkc_string(s: &str) -> (r: String)
    ensures
        r@ == nfkc_of(s@),
{
    s.nfkc().collect::<String>()
}

/// Brings `s` into the normalization form `norm`.
pub fn normalize(s: &str, norm: Normalization) -> (r: String)
    ensures
        r@ == normalized(s@, norm),
{
    match norm {
        Normalization::Identity => String::from_str(s),
        Normalization::NFD => nfd_string(s),
        Normalization::NFKD => nfkd_string(s),
        Normalization::NFC => nfc_string(s),
        Normalization::NFKC => nfkc_string(s),
    }
}

/// Replaces each Unicode punctuation character of `s` by its ASCII counterpart.
pub fn simplify_punct_str(s: &str) -> (r: String)
    ensures
        r@ == simplify_chars(s@),
{
    let n = s.unicode_len();
    let mut out = String::new();
    let mut i: usize = 0;
    while i < n
        invariant
            n == s@.len(),
            i <= n,
            out@ == simplify_chars(s@.take(i as int)),
        decreases n - i,
    {
        let c = s.get_char(i);
        proof {
            assert(s@.take(i + 1).drop_last() =~= s@.take(i as int));
        }
        match simplify_unicode_punct(c) {
            Conversion::Char(d) => {
                out.push(d);
            },
            Conversion::String(ss) => {
                out.append(ss.as_str());
            },
            Conversion::Unchanged(d) => {
                out.push(d);
            },
        }
        assert(out@ =~= simplify_chars(s@.take(i + 1)));
        i = i + 1;
    }
    assert(s@.take(n as int) =~= s@);
    out
}

/// Normalizes `s` as `norm` says and then simplifies its punctuation.
pub fn simplify_unicode(s: &str, norm: Normalization) -> (r: String)
    ensures
        r@ == simplify_chars(normalized(s@, norm)),
{
    let normalized = normalize(s, norm);
    simplify_punct_str(normalized.as_str())
}

/// The normalization called `name`: `none`, `nfd`, `nfkd`, `nfc` or `nfkc`.
pub open spec fn normalization_named(name: Seq<char>) -> Option<Normalization> {
    if name == "none"@ {
        Some(Normalization::Identity)
    } else if name == "nfd"@ {
        Some(Normalization::NFD)
    } else if name == "nfkd"@ {
        Some(Normalization::NFKD)
    } else if name == "nfc"@ {
        Some(Normalization::NFC)
    } else if name == "nfkc"@ {
        Some(Normalization::NFKC)
    } else {
        None
    }
}

/// Looks up a normalization by its name.
pub fn normalization_from(name: &str) -> (r: Option<Normalization>)
    ensures
        r == normalization_named(name@),
{
    if str_eq(name, "none") {
        Some(Normalization::Identity)
    } else if str_eq(name, "nfd") {
        Some(Normalization::NFD)
    } else if str_eq(name, "nfkd") {
        Some(Normalization::NFKD)
    } else if str_eq(name, "nfc") {
        Some(Normalization::NFC)
    } else if str_eq(name, "nfkc") {
        Some(Normalization::NFKC)
    } else {
        None
    }
}

/// Normalizes the form of every token and simplifies its punctuation;
/// nothing else changes.
pub fn cleanup(sentence: &mut Vec<Token>, norm: Normalization)
    ensures
        final(sentence)@.len() == old(sentence)@.len(),
        forall|i: int|
            0 <= i < old(sentence)@.len() ==> {
                &&& (#[trigger] final(sentence)@[i]).form@ == simplify_chars(
                    normalized(old(sentence)@[i].form@, norm),
                )
                &&& final(sentence)@[i] == (Token { form: final(sentence)@[i].form, ..old(sentence)@[i] })
            },
{
    let ghost s = sentence@;
    let mut i: usize = 0;
    while i < sentence.len()
        invariant
            sentence@.len() == s.len(),
            i <= s.len(),
            forall|j: int|
                0 <= j < i ==> {
                    &&& (#[trigger] sentence@[j]).form@ == simplify_chars(normalized(s[j].form@, norm))
                    &&& sentence@[j] == (Token { form: sentence@[j].form, ..s[j] })
                },
            forall|j: int| i <= j < s.len() ==> #[trigger] sentence@[j] == s[j],
        decreases s.len() - i,
    {
        let clean = simplify_unicode(sentence[i].form.as_str(), norm);
        sentence[i].form = clean;
        i = i + 1;
    }
}

} // verus!
