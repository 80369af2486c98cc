use vstd::prelude::*;

use regex::Regex;
use rust_stemmers::{Algorithm, Stemmer};
use vtext::tokenize::{Tokenizer, VTextTokenizerParams};

use vstd::utf8::encode_utf8;

use crate::table::terms_of;

verus! {

/// The English (Porter 2) stem of a token.
pub uninterp spec fn english_stem(token: Seq<char>) -> Seq<char>;

/// Relies on rust_stemmers' `Stemmer::stem` with the English algorithm: the stem depends on
/// the token alone.
#[verifier::external_body]
fn stem_english(token: &String) -> (r: String)
    ensures
        r@ == english_stem(token@),
{
    Stemmer::create(Algorithm::English).stem(token.as_str()).to_string()
}

/// Replaces every token by its English stem, keeping the order.
pub fn lemmatize(lemmas: Vec<String>) -> (r: Vec<String>)
    ensures
        r@.len() == lemmas@.len(),
        forall|i: int| 0 <= i < lemmas@.len() ==> (#[trigger] r@[i])@ == english_stem(lemmas@[i]@),
{
    let mut acc: Vec<String> = Vec::new();
    let mut i: usize = 0;
    while i < lemmas.len()
        invariant
            i <= lemmas@.len(),
            acc@.len() == i,
            forall|j: int| 0 <= j < i ==> (#[trigger] acc@[j])@ == english_stem(lemmas@[j]@),
        decreases lemmas@.len() - i,
    {
        let lemma = stem_english(&lemmas[i]);
        acc.push(lemma);
        i = i + 1;
    }
    acc
}

/// The tokens of a text under vtext's English tokenizer, in order.
pub uninterp spec fn english_tokens(text: Seq<char>) -> Seq<Seq<char>>;

/// Relies on vtext's `VTextTokenizer` built for "en" (its `build` always succeeds): the
/// tokens depend on the text alone. On English text it cuts a token ending in "n't" (or
/// "n’t") at the byte before its first apostrophe, which is no character boundary when a
/// non-ASCII character stands there: no quote may follow a non-ASCII character.
#[verifier::external_body]
fn tokenize_english(text: &String) -> (r: Vec<String>)
    requires
        apostrophes_follow_ascii_bytes(encode_utf8(text@)),
    ensures
        terms_of(r@) == english_tokens(text@),
{
    let tokenizer = VTextTokenizerParams::default().lang("en").build().unwrap();
    tokenizer.tokenize(text.as_str()).map(|t| t.to_string()).collect()
}

/// Whether `c` has the Unicode White_Space property.
pub open spec fn is_white_space(c: char) -> bool {
    ('\u{9}' <= c <= '\u{d}') || c == ' ' || c == '\u{85}' || c == '\u{a0}' || c == '\u{1680}'
        || ('\u{2000}' <= c <= '\u{200a}') || c == '\u{2028}' || c == '\u{2029}' || c
        == '\u{202f}' || c == '\u{205f}' || c == '\u{3000}'
}

/// `s` without its leading whitespace.
pub open spec fn trim_start(s: Seq<char>) -> Seq<char>
    decreases s.len(),
{
    if s.len() > 0 && is_white_space(s[0]) {
        trim_start(s.drop_first())
    } else {
        s
    }
}

/// `s` without its trailing whitespace.
pub open spec fn trim_end(s: Seq<char>) -> Seq<char>
    decreases s.len(),
{
    if s.len() > 0 && is_white_space(s.last()) {
        trim_end(s.drop_last())
    } else {
        s
    }
}

/// A token without its leading and trailing whitespace.
pub open spec fn trimmed(token: Seq<char>) -> Seq<char> {
    trim_end(trim_start(token))
}

/// Relies on `str::trim`: leading and trailing characters with the Unicode White_Space
/// property removed.
#[verifier::external_body]
fn trim_token(token: &String) -> (r: String)
    ensures
        r@ == trimmed(token@),
{
    token.trim().to_string()
}

/// The tokens that are neither blank nor stopwords, trimmed and stemmed, in order.
pub open spec fn content_tokens(tokens: Seq<Seq<char>>, stopwords: Seq<Seq<char>>) -> Seq<
    Seq<char>,
>
    decreases tokens.len(),
{
    if tokens.len() == 0 {
        Seq::empty()
    } else {
        let kept = content_tokens(tokens.drop_last(), stopwords);
        let t = tokens.last();
        if trimmed(t).len() > 0 && !stopwords.contains(t) {
            kept.push(english_stem(trimmed(t)))
        } else {
            kept
        }
    }
}

fn is_stopword(token: &String, stopwords: &Vec<String>) -> (r: bool)
    ensures
        r == terms_of(stopwords@).contains(token@),
{
    let mut i: usize = 0;
    while i < stopwords.len()
        invariant
            i <= stopwords@.len(),
            forall|j: int| 0 <= j < i ==> stopwords@[j]@ != token@,
        decreases stopwords@.len() - i,
    {
        if stopwords[i] == *token {
            proof {
                assert(terms_of(stopwords@)[i as int] == token@);
            }
            return true;
        }
        i = i + 1;
    }
    proof {
        if terms_of(stopwords@).contains(token@) {
            let j = choose|j: int| 0 <= j < stopwords@.len() && terms_of(stopwords@)[j] == token@;
            assert(stopwords@[j]@ == token@);
        }
    }
    false
}

/// Splits an already cleaned, lower-case text, with no quote right after a non-ASCII
/// character, into tokens, drops blank tokens and stopwords, and returns the others
/// trimmed and stemmed.
pub fn tokenize_clean_text(clean: &String, stopwords: &Vec<String>) -> (r: Vec<String>)
    requires
        apostrophes_follow_ascii_bytes(encode_utf8(clean@)),
    ensures
        terms_of(r@) == content_tokens(english_tokens(clean@), terms_of(stopwords@)),
{
    let tokens = tokenize_english(clean);
    let ghost toks = terms_of(tokens@);
    let ghost stops = terms_of(stopwords@);
    let mut acc: Vec<String> = Vec::new();
    let mut i: usize = 0;
    proof {
        assert(terms_of(acc@) =~= content_tokens(toks.take(0), stops));
    }
    while i < tokens.len()
        invariant
            i <= tokens@.len(),
            toks == terms_of(tokens@),
            stops == terms_of(stopwords@),
            terms_of(acc@) == content_tokens(toks.take(i as int), stops),
        decreases tokens@.len() - i,
    {
        proof {
            assert(toks.take(i + 1).drop_last() =~= toks.take(i as int));
            assert(toks.take(i + 1).last() == tokens@[i as int]@);
        }
        let token = trim_token(&tokens[i]);
        if !token.as_str().is_empty() && !is_stopword(&tokens[i], stopwords) {
            let ghost before = acc@;
            let stem = stem_english(&token);
            acc.push(stem);
            proof {
                assert(terms_of(acc@) =~= terms_of(before).push(stem@));
            }
        }
        i = i + 1;
    }
    proof {
        assert(toks.take(i as int) =~= toks);
    }
    acc
}

#[verifier::external_type_specification]
#[verifier::external_body]
pub struct ExRegex(Regex);

/// Relies on regex's `Regex::new`: the expression compiled from `pattern` with the default
/// options, or `None` where the pattern is not a valid expression.
#[verifier::external_body]
fn compile(pattern: &str) -> (r: Option<Regex>) {
    Regex::new(pattern).ok()
}

/// A cleaning expression: a pattern together with the regex compiled from it by
/// `Regex::new`. Only `Expression::new` builds one, so the two always agree.
pub struct Expression {
    pattern: String,
    regex: Regex,
}

impl Expression {
    /// The pattern the expression was compiled from.
    pub closed spec fn pattern(&self) -> Seq<char> {
        self.pattern@
    }

    /// Compiles `pattern`; `None` where it is not a valid expression.
    pub fn new(pattern: &str) -> (r: Option<Expression>)
        ensures
            r is Some ==> r->Some_0.pattern() == pattern@,
    {
        match compile(pattern) {
            Some(regex) => Some(Expression { pattern: pattern.to_owned(), regex }),
            None => None,
        }
    }

    /// The pattern the expression was compiled from.
    pub fn as_str(&self) -> (r: &str)
        ensures
            r@ == self.pattern(),
    {
        self.pattern.as_str()
    }
}

/// What `Regex::replace_all` gives for the expression compiled from `pattern` by
/// `Regex::new`, on `text`, with `replacement` taken literally.
pub uninterp spec fn regex_replaced(
    pattern: Seq<char>,
    text: Seq<char>,
    replacement: Seq<char>,
) -> Seq<char>;

/// Relies on regex's `Regex::replace_all`: every match in `text` replaced by `replacement`,
/// taken literally. The regex was compiled from the pattern by `Regex::new`, so the result
/// depends on the pattern, the text and the replacement alone.
#[verifier::external_body]
fn replace_matches(expression: &Expression, text: &str, replacement: &str) -> (r: String)
    ensures
        r@ == regex_replaced(expression.pattern(), text@, replacement@),
{
    expression.regex.replace_all(text, replacement).to_string()
}

/// The pattern `\s+`: a run of whitespace.
pub open spec fn whitespace_run() -> Seq<char> {
    seq!['\\', 's', '+']
}

/// What cleaning puts in place of a match of `pattern`: one space for a whitespace run,
/// nothing otherwise.
pub open spec fn replacement_for(pattern: Seq<char>) -> Seq<char> {
    if pattern == whitespace_run() {
        seq![' ']
    } else {
        Seq::empty()
    }
}

/// The patterns of a list of expressions.
pub open spec fn patterns_of(expressions: Seq<Expression>) -> Seq<Seq<char>> {
    expressions.map_values(|e: Expression| e.pattern())
}

/// `text` after replacing, pattern by pattern in order, the matches of each as
/// `replacement_for` says.
pub open spec fn cleaned(patterns: Seq<Seq<char>>, text: Seq<char>) -> Seq<char>
    decreases patterns.len(),
{
    if patterns.len() == 0 {
        text
    } else {
        regex_replaced(
            patterns.last(),
            cleaned(patterns.drop_last(), text),
            replacement_for(patterns.last()),
        )
    }
}

/// Whether a pattern is exactly `\s+`.
pub fn collapses_whitespace(pattern: &str) -> (r: bool)
    ensures
        r == (pattern@ == whitespace_run()),
{
    let run = "\\s+".to_owned();
    proof {
        reveal_strlit("\\s+");
        assert(run@ =~= whitespace_run());
    }
    let p = pattern.to_owned();
    p == run
}

/// Applies each expression in turn: a whitespace run pattern (`\s+`) replaces its matches by
/// one space, any other pattern removes its matches.
pub fn clean(text: &str, expressions: Vec<Expression>) -> (r: String)
    ensures
        r@ == cleaned(patterns_of(expressions@), text@),
{
    let ghost patterns = patterns_of(expressions@);
    let mut acc: String = text.to_owned();
    let mut i: usize = 0;
    proof {
        assert(patterns.take(0) =~= Seq::<Seq<char>>::empty());
    }
    while i < expressions.len()
        invariant
            i <= expressions@.len(),
            patterns == patterns_of(expressions@),
            acc@ == cleaned(patterns.take(i as int), text@),
        decreases expressions@.len() - i,
    {
        let expression = &expressions[i];
        proof {
            assert(patterns.take(i + 1).drop_last() =~= patterns.take(i as int));
            assert(patterns.take(i + 1).last() == expression.pattern());
        }
        let replacement: &str = if collapses_whitespace(expression.as_str()) {
            proof {
                reveal_strlit(" ");
            }
            " "
        } else {
            proof {
                reveal_strlit("");
            }
            ""
        };
        proof {
            assert(replacement@ =~= replacement_for(expression.pattern()));
        }
        acc = replace_matches(expression, acc.as_str(), replacement);
        i = i + 1;
    }
    proof {
        assert(patterns.take(i as int) =~= patterns);
    }
    acc
}

/// The lower-case form of a text.
pub uninterp spec fn lower_of(text: Seq<char>) -> Seq<char>;

/// Relies on `str::to_lowercase`: the result depends on the text alone.
#[verifier::external_body]
fn lowercase(text: &str) -> (r: String)
    ensures
        r@ == lower_of(text@),
{
    text.to_lowercase()
}

/// Whether the text is safe for the English tokenizer: the first of any ASCII apostrophe
/// or of any right single quotation mark, as UTF-8 bytes, directly follows an ASCII byte.
/// A byte before a character's first byte is ASCII exactly when the character before it is.
pub fn apostrophes_follow_ascii(text: &String) -> (r: bool)
    ensures
        r == apostrophes_follow_ascii_bytes(encode_utf8(text@)),
{
    let b = text.as_str().as_bytes();
    let ghost bytes = encode_utf8(text@);
    let mut i: usize = 1;
    while i < b.len()
        invariant
            b@ == bytes,
            bytes == encode_utf8(text@),
            1 <= i,
            forall|k: int| 1 <= k < i && k < bytes.len() ==> apostrophe_after_ascii_at(bytes, k),
        decreases b@.len() - i,
    {
        let quote = b[i] == 39 || (b[i] == 226 && b.len() - i > 2 && b[i + 1] == 128 && b[i + 2]
            == 153);
        if quote && b[i - 1] >= 128 {
            proof {
                assert(!apostrophe_after_ascii_at(bytes, i as int));
            }
            return false;
        }
        i = i + 1;
    }
    true
}

/// Whether a quote starting at byte `i` (an ASCII apostrophe, or the three bytes of a right
/// single quotation mark) has an ASCII byte before it.
pub open spec fn apostrophe_after_ascii_at(bytes: Seq<u8>, i: int) -> bool {
    (bytes[i] == 39u8 || (bytes[i] == 226u8 && i + 2 < bytes.len() && bytes[i + 1] == 128u8
        && bytes[i + 2] == 153u8)) ==> bytes[i - 1] < 128u8
}

/// Every quote in `bytes` after the first byte has an ASCII byte before it.
pub open spec fn apostrophes_follow_ascii_bytes(bytes: Seq<u8>) -> bool {
    forall|i: int| 1 <= i < bytes.len() ==> #[trigger] apostrophe_after_ascii_at(bytes, i)
}

/// Lower-cases and cleans `text`, then splits, filters and stems it as
/// `tokenize_clean_text` does. Returns `None`, without tokenizing, exactly when the cleaned
/// text has a quote right after a non-ASCII character.
pub fn tokenize(text: &str, expressions: Vec<Expression>, stopwords: &Vec<String>) -> (r: Option<
    Vec<String>,
>)
    ensures
        r is Some <==> apostrophes_follow_ascii_bytes(
            encode_utf8(cleaned(patterns_of(expressions@), lower_of(text@))),
        ),
        r is Some ==> terms_of(r->Some_0@) == content_tokens(
            english_tokens(cleaned(patterns_of(expressions@), lower_of(text@))),
            terms_of(stopwords@),
        ),
{
    let lower = lowercase(text);
    let clean = clean(lower.as_str(), expressions);
    if apostrophes_follow_ascii(&clean) {
        Some(tokenize_clean_text(&clean, stopwords))
    } else {
        None
    }
}

} // verus!
