//! The tokenizer of the query language.
//!
//! A query is first cut into words. A blank ends a word. Each of `,` `;`
//! `(` `)` ends a word and is a word of its own. Each of `>` `<` `=` ends
//! a word and begins an operator, which takes the next character too
//! where that is one of the three; where it is any other character, that
//! character begins the next word, whatever it is. The first word is then
//! read as a token.

use crate::query::token::Token;
use vstd::prelude::*;
use vstd::std_specs::iter::IteratorSpec;
use vstd::string::axiom_spec_iter;
use vstd::string::next_postcondition;
use vstd::string::StrSliceExecFns;
use vstd::string::StringExecFns;

verus! {

/// A tokenizer over the text of one query.
pub struct Lexer {
    pub target_data: String,
}

/// A character that is a word of its own.
pub open spec fn is_separator(c: char) -> bool {
    c == ',' || c == ';' || c == '(' || c == ')'
}

/// A character that begins an operator.
pub open spec fn is_relation(c: char) -> bool {
    c == '>' || c == '<' || c == '='
}

/// The word that is pending at `i` and began at `start`, if it has a
/// character.
pub open spec fn pending(chars: Seq<char>, start: int, i: int) -> Seq<Seq<char>> {
    if start < i {
        seq![chars.subrange(start, i)]
    } else {
        Seq::empty()
    }
}

/// The words of `chars` from `i` on, where the pending word began at
/// `start`.
pub open spec fn words_from(chars: Seq<char>, start: int, i: int) -> Seq<Seq<char>>
    decreases chars.len() - i,
{
    if i >= chars.len() {
        pending(chars, start, i)
    } else if chars[i] == ' ' {
        pending(chars, start, i) + words_from(chars, i + 1, i + 1)
    } else if is_separator(chars[i]) {
        pending(chars, start, i) + seq![chars.subrange(i, i + 1)] + words_from(
            chars,
            i + 1,
            i + 1,
        )
    } else if is_relation(chars[i]) {
        if i + 1 >= chars.len() {
            pending(chars, start, i) + words_from(chars, i, i + 1)
        } else if is_relation(chars[i + 1]) {
            pending(chars, start, i) + seq![chars.subrange(i, i + 2)] + words_from(
                chars,
                i + 2,
                i + 2,
            )
        } else {
            pending(chars, start, i) + seq![chars.subrange(i, i + 1)] + words_from(
                chars,
                i + 1,
                i + 2,
            )
        }
    } else {
        words_from(chars, start, i + 1)
    }
}

/// The words of a query, in order.
pub open spec fn words(chars: Seq<char>) -> Seq<Seq<char>> {
    words_from(chars, 0, 0)
}

/// The characters of each string of `v`.
pub open spec fn views(v: Seq<String>) -> Seq<Seq<char>> {
    Seq::new(v.len(), |j: int| v[j]@)
}

/// What `str::to_lowercase` returns for a string of these characters.
pub uninterp spec fn lowercased(s: Seq<char>) -> Seq<char>;

/// `str::to_lowercase` of std: the lowercase equivalent of `word` as a new
/// string, by the case mapping of Unicode. The contract gives the result
/// its name and claims nothing else of it.
#[verifier::external_body]
fn lowercase(word: &str) -> (lower: String)
    ensures
        lower@ == lowercased(word@),
{
    word.to_lowercase()
}

/// A lowercased word that names an operator. No token stands for one yet:
/// a query may not begin with it.
pub open spec fn is_operator_word(lower: Seq<char>) -> bool {
    ||| lower == "or"@
    ||| lower == "not"@
    ||| lower == "<"@
    ||| lower == ">"@
    ||| lower == "="@
    ||| lower == ">="@
    ||| lower == "<="@
}

/// `t` is the token of the word `raw`, whose lowercase is `lower` and is
/// no operator word: the keyword that `lower` spells, the end of the
/// statement for `;`, and any other word as a phrase, as it was written.
pub open spec fn denotes(t: Token, lower: Seq<char>, raw: Seq<char>) -> bool {
    if lower == "select"@ {
        t is SELECT
    } else if lower == "from"@ {
        t is FROM
    } else if lower == "insert"@ {
        t is INSERT
    } else if lower == "into"@ {
        t is INTO
    } else if lower == "create"@ {
        t is CREATE
    } else if lower == "table"@ {
        t is TABLE
    } else if lower == "where"@ {
        t is WHERE
    } else if lower == "and"@ {
        t is AND
    } else if lower == "integer"@ {
        t is INTEGER
    } else if lower == "text"@ {
        t is TEXT
    } else if lower == ";"@ {
        t is EOF
    } else {
        t matches Token::Phrase(p) && p@ == raw
    }
}

/// Whether `word` spells `literal`.
fn spells(word: &str, literal: &str) -> (r: bool)
    ensures
        r == (word@ == literal@),
{
    let a = String::from_str(word);
    let b = String::from_str(literal);
    a == b
}

/// Whether the lowercased word `lower` names an operator.
pub fn operator_word(lower: &str) -> (r: bool)
    ensures
        r == is_operator_word(lower@),
{
    spells(lower, "or") || spells(lower, "not") || spells(lower, "<") || spells(lower, ">")
        || spells(lower, "=") || spells(lower, ">=") || spells(lower, "<=")
}

/// The token of the word `word`, whose lowercase is `lower`.
pub fn classify(word: String, lower: &str) -> (t: Token)
    requires
        !is_operator_word(lower@),
    ensures
        denotes(t, lower@, word@),
{
    if spells(lower, "select") {
        Token::SELECT
    } else if spells(lower, "from") {
        Token::FROM
    } else if spells(lower, "insert") {
        Token::INSERT
    } else if spells(lower, "into") {
        Token::INTO
    } else if spells(lower, "create") {
        Token::CREATE
    } else if spells(lower, "table") {
        Token::TABLE
    } else if spells(lower, "where") {
        Token::WHERE
    } else if spells(lower, "and") {
        Token::AND
    } else if spells(lower, "integer") {
        Token::INTEGER
    } else if spells(lower, "text") {
        Token::TEXT
    } else if spells(lower, ";") {
        Token::EOF
    } else {
        Token::Phrase(word)
    }
}

/// Cuts `text` into its words.
pub fn split_words(text: &str) -> (out: Vec<String>)
    ensures
        views(out@) == words(text@),
{
    broadcast use next_postcondition;
    broadcast use axiom_spec_iter;

    let n = text.unicode_len();
    let ghost chars = text@;
    let mut out: Vec<String> = Vec::new();
    let mut it = text.chars();
    let mut start: usize = 0;
    let mut i: usize = 0;
    assert(views(out@) =~= Seq::<Seq<char>>::empty());
    loop
        invariant_except_break
            views(out@) + words_from(chars, start as int, i as int) == words(chars),
        invariant
            chars == text@,
            n == chars.len(),
            start <= i <= n,
            it.remaining() == chars.subrange(i as int, n as int),
            it.obeys_prophetic_iter_laws(),
        ensures
            views(out@) == words(chars),
        decreases n - i,
    {
        let ghost before = views(out@);
        match it.next() {
            None => {
                if start < i {
                    out.push(String::from_str(text.substring_char(start, i)));
                }
                assert(views(out@) =~= before + pending(chars, start as int, i as int));
                break ;
            },
            Some(c) => {
                assert(c == chars[i as int]);
                if c == ' ' {
                    if start < i {
                        out.push(String::from_str(text.substring_char(start, i)));
                    }
                    assert(views(out@) =~= before + pending(chars, start as int, i as int));
                    i = i + 1;
                    start = i;
                } else if c == ',' || c == ';' || c == '(' || c == ')' {
                    if start < i {
                        out.push(String::from_str(text.substring_char(start, i)));
                    }
                    out.push(String::from_str(text.substring_char(i, i + 1)));
                    assert(views(out@) =~= before + pending(chars, start as int, i as int)
                        + seq![chars.subrange(i as int, i + 1)]);
                    i = i + 1;
                    start = i;
                } else if c == '>' || c == '<' || c == '=' {
                    if start < i {
                        out.push(String::from_str(text.substring_char(start, i)));
                    }
                    let ghost flushed = views(out@);
                    assert(flushed =~= before + pending(chars, start as int, i as int));
                    match it.next() {
                        None => {
                            start = i;
                            i = i + 1;
                        },
                        Some(d) => {
                            assert(d == chars[i + 1]);
                            if d == '>' || d == '<' || d == '=' {
                                out.push(String::from_str(text.substring_char(i, i + 2)));
                                assert(views(out@) =~= flushed + seq![
                                    chars.subrange(i as int, i + 2),
                                ]);
                                i = i + 2;
                                start = i;
                            } else {
                                out.push(String::from_str(text.substring_char(i, i + 1)));
                                assert(views(out@) =~= flushed + seq![
                                    chars.subrange(i as int, i + 1),
                                ]);
                                start = i + 1;
                                i = i + 2;
                            }
                        },
                    }
                } else {
                    i = i + 1;
                }
            },
        }
    }
    out
}

impl Lexer {
    /// A tokenizer over `target_data`.
    pub fn new(target_data: &str) -> (lexer: Self)
        ensures
            lexer.target_data@ == target_data@,
    {
        Lexer { target_data: String::from_str(target_data) }
    }

    /// Whether the query may be tokenized: it is not the case that its
    /// first word, in lowercase, names an operator.
    pub open spec fn begins_well(self) -> bool {
        let w = words(self.target_data@);
        w.len() > 0 ==> !is_operator_word(lowercased(w[0]))
    }

    /// The tokens that `tokenize` returns: none for a query without a
    /// word, else the one token of the first word.
    pub open spec fn tokens_are(self, tokens: Seq<Token>) -> bool {
        let w = words(self.target_data@);
        if w.len() == 0 {
            tokens.len() == 0
        } else {
            tokens.len() == 1 && denotes(tokens[0], lowercased(w[0]), w[0])
        }
    }

    /// Tokenizes the query.
    pub fn exec(&mut self) -> (tokens: Vec<Token>)
        requires
            old(self).begins_well(),
        ensures
            *final(self) == *old(self),
            old(self).tokens_are(tokens@),
    {
        self.tokenize()
    }

    /// Cuts the query into its words and reads the first word as a token.
    pub fn tokenize(&self) -> (tokens: Vec<Token>)
        requires
            self.begins_well(),
        ensures
            self.tokens_are(tokens@),
    {
        let mut pretty_tokens = split_words(self.target_data.as_str());
        let mut objected_tokens: Vec<Token> = Vec::new();
        if pretty_tokens.len() > 0 {
            assert(views(pretty_tokens@)[0] == pretty_tokens@[0]@);
            let token = pretty_tokens.swap_remove(0);
            let lower = lowercase(token.as_str());
            objected_tokens.push(classify(token, lower.as_str()));
        }
        objected_tokens
    }

    /// Tokenizes the query where it may be tokenized, and returns nothing
    /// where its first word names an operator.
    pub fn try_tokenize(&self) -> (tokens: Option<Vec<Token>>)
        ensures
            tokens is Some <==> self.begins_well(),
            tokens matches Some(t) ==> self.tokens_are(t@),
    {
        let pretty_tokens = split_words(self.target_data.as_str());
        if pretty_tokens.len() > 0 {
            assert(views(pretty_tokens@)[0] == pretty_tokens@[0]@);
            let lower = lowercase(pretty_tokens[0].as_str());
            if operator_word(lower.as_str()) {
                return None;
            }
        }
        Some(self.tokenize())
    }
}

} // verus!
