//! Lexical scanning of expression text into tokens.
//!
//! The scanner reads the source one unit at a time, left to right. A unit is
//! a blank, a one-character operator or constant, one of the words `true` and
//! `false`, or a one-letter variable name.

use crate::diagnostic::{diagnostic, invalid_char_error};
use crate::text::chars_of;
use vstd::prelude::*;
use vstd::string::*;

verus! {

/// One lexical unit of an expression.
#[derive(Debug, PartialEq, Eq, Clone, Copy, Structural)]
pub enum Token {
    And,
    Or,
    Not,
    Xor,
    Equal,
    GroupOpen,
    GroupClose,
    ConstTrue,
    ConstFalse,
    Identifier(char),
}

impl Token {
    /// The text that shows the token: its symbol, or, where `expanded`
    /// holds, the name of the operator.
    pub open spec fn label_text(self, expanded: bool) -> Seq<char> {
        match self {
            Token::And => if expanded {
                "AND"@
            } else {
                "&"@
            },
            Token::Or => if expanded {
                "OR"@
            } else {
                "|"@
            },
            Token::Not => if expanded {
                "NOT"@
            } else {
                "!"@
            },
            Token::Xor => if expanded {
                "XOR"@
            } else {
                "^"@
            },
            Token::Equal => if expanded {
                "EQ"@
            } else {
                "="@
            },
            Token::GroupOpen => "("@,
            Token::GroupClose => ")"@,
            Token::ConstTrue => "true"@,
            Token::ConstFalse => "false"@,
            Token::Identifier(name) => seq![name],
        }
    }

    /// Writes the token as its symbol, or, where `expanded` holds, with the
    /// name of the operator.
    pub fn label(&self, expanded: bool) -> (text: String)
        ensures
            text@ == self.label_text(expanded),
    {
        match self {
            Token::And => String::from_str(
                if expanded {
                    "AND"
                } else {
                    "&"
                },
            ),
            Token::Or => String::from_str(
                if expanded {
                    "OR"
                } else {
                    "|"
                },
            ),
            Token::Not => String::from_str(
                if expanded {
                    "NOT"
                } else {
                    "!"
                },
            ),
            Token::Xor => String::from_str(
                if expanded {
                    "XOR"
                } else {
                    "^"
                },
            ),
            Token::Equal => String::from_str(
                if expanded {
                    "EQ"
                } else {
                    "="
                },
            ),
            Token::GroupOpen => String::from_str("("),
            Token::GroupClose => String::from_str(")"),
            Token::ConstTrue => String::from_str("true"),
            Token::ConstFalse => String::from_str("false"),
            Token::Identifier(name) => {
                let mut text = String::new();
                text.push(*name);
                assert(text@ =~= seq![*name]);
                text
            },
        }
    }
}

/// The letters that may name a variable.
pub open spec fn is_identifier_char(c: char) -> bool {
    'a' <= c && c <= 'z'
}

/// Every variable name among the tokens is a lower-case letter.
pub open spec fn names_valid(tokens: Seq<Token>) -> bool {
    forall|k: int|
        0 <= k < tokens.len() ==> (#[trigger] tokens[k] matches Token::Identifier(c)
            ==> is_identifier_char(c))
}

/// Whether the characters of `word` stand in `s` from index `i` on.
pub open spec fn starts_with_at(s: Seq<char>, i: int, word: Seq<char>) -> bool {
    &&& 0 <= i
    &&& i + word.len() <= s.len()
    &&& s.subrange(i, i + word.len()) == word
}

/// The word that writes the constant `value`.
pub open spec fn keyword(value: bool) -> Seq<char> {
    if value {
        seq!['t', 'r', 'u', 'e']
    } else {
        seq!['f', 'a', 'l', 's', 'e']
    }
}

/// The token written by a single operator or constant character, if `c` is one.
pub open spec fn symbol_token(c: char) -> Option<Token> {
    if c == '(' {
        Some(Token::GroupOpen)
    } else if c == ')' {
        Some(Token::GroupClose)
    } else if c == '&' {
        Some(Token::And)
    } else if c == '|' {
        Some(Token::Or)
    } else if c == '^' {
        Some(Token::Xor)
    } else if c == '!' {
        Some(Token::Not)
    } else if c == '=' {
        Some(Token::Equal)
    } else if c == '1' {
        Some(Token::ConstTrue)
    } else if c == '0' {
        Some(Token::ConstFalse)
    } else {
        None
    }
}

/// One step of the scanner.
pub enum Unit {
    /// A blank, which produces nothing.
    Blank,
    /// An operator or constant written as one character.
    Symbol(Token),
    /// The word `true` or the word `false`.
    Keyword(bool),
    /// A variable name, one letter long.
    Name(char),
    /// A character that starts no unit.
    Invalid,
}

/// The unit that starts at index `i` of `s`, for `0 <= i < s.len()`.
///
/// The words `true` and `false` are recognised wherever they start, whatever
/// follows them, and before the first letter is tried as a variable name.
pub open spec fn unit_at(s: Seq<char>, i: int, allow_identifiers: bool) -> Unit {
    let c = s[i];
    if c == ' ' {
        Unit::Blank
    } else if symbol_token(c) is Some {
        Unit::Symbol(symbol_token(c)->0)
    } else if starts_with_at(s, i, keyword(true)) {
        Unit::Keyword(true)
    } else if starts_with_at(s, i, keyword(false)) {
        Unit::Keyword(false)
    } else if is_identifier_char(c) && allow_identifiers {
        Unit::Name(c)
    } else {
        Unit::Invalid
    }
}

/// The token `first` followed by what scanning the rest gives.
pub open spec fn before(first: Token, rest: Result<Seq<Token>, int>) -> Result<Seq<Token>, int> {
    match rest {
        Ok(tokens) => Ok(seq![first] + tokens),
        Err(at) => Err(at),
    }
}

/// The tokens of `s` from index `i` on, or the index of the first character
/// that starts no unit.
pub open spec fn scan_from(s: Seq<char>, i: int, allow_identifiers: bool) -> Result<
    Seq<Token>,
    int,
>
    decreases s.len() - i,
{
    if i < 0 || i >= s.len() {
        Ok(Seq::empty())
    } else {
        match unit_at(s, i, allow_identifiers) {
            Unit::Blank => scan_from(s, i + 1, allow_identifiers),
            Unit::Symbol(token) => before(token, scan_from(s, i + 1, allow_identifiers)),
            Unit::Keyword(true) => before(
                Token::ConstTrue,
                scan_from(s, i + 4, allow_identifiers),
            ),
            Unit::Keyword(false) => before(
                Token::ConstFalse,
                scan_from(s, i + 5, allow_identifiers),
            ),
            Unit::Name(c) => before(Token::Identifier(c), scan_from(s, i + 1, allow_identifiers)),
            Unit::Invalid => Err(i),
        }
    }
}

/// The tokens of the whole text `s`, or the index of its first invalid character.
pub open spec fn scan(s: Seq<char>, allow_identifiers: bool) -> Result<Seq<Token>, int> {
    scan_from(s, 0, allow_identifiers)
}

/// What `tokenize` returns for the text `s`: its tokens, or the diagnostic
/// for its first invalid character, which lies in the text
/// (`lemma_scan_error_in_range`).
pub open spec fn tokenize_outcome(s: Seq<char>, allow_identifiers: bool) -> Result<
    Seq<Token>,
    Seq<char>,
> {
    match scan(s, allow_identifiers) {
        Ok(tokens) => Ok(tokens),
        Err(at) => Err(diagnostic(s, s[at], at as nat)),
    }
}

/// The tokens in `done` followed by what scanning the rest gives.
pub open spec fn after(done: Seq<Token>, rest: Result<Seq<Token>, int>) -> Result<
    Seq<Token>,
    int,
> {
    match rest {
        Ok(tokens) => Ok(done + tokens),
        Err(at) => Err(at),
    }
}

/// A scan never reports a position outside the text.
pub proof fn lemma_scan_error_in_range(s: Seq<char>, i: int, allow_identifiers: bool)
    requires
        0 <= i,
    ensures
        scan_from(s, i, allow_identifiers) matches Err(at) ==> i <= at < s.len(),
    decreases s.len() - i,
{
    if i < s.len() {
        match unit_at(s, i, allow_identifiers) {
            Unit::Keyword(true) => lemma_scan_error_in_range(s, i + 4, allow_identifiers),
            Unit::Keyword(false) => lemma_scan_error_in_range(s, i + 5, allow_identifiers),
            Unit::Invalid => {},
            _ => lemma_scan_error_in_range(s, i + 1, allow_identifiers),
        }
    }
}

/// With variable names allowed, every name that a scan yields is a lower-case letter.
pub proof fn lemma_scan_identifiers(s: Seq<char>, i: int, allow_identifiers: bool)
    requires
        0 <= i,
    ensures
        scan_from(s, i, allow_identifiers) matches Ok(tokens) ==> forall|k: int|
            0 <= k < tokens.len() ==> (#[trigger] tokens[k] matches Token::Identifier(c)
                ==> is_identifier_char(c) && allow_identifiers),
    decreases s.len() - i,
{
    if i < s.len() {
        match unit_at(s, i, allow_identifiers) {
            Unit::Keyword(true) => lemma_scan_identifiers(s, i + 4, allow_identifiers),
            Unit::Keyword(false) => lemma_scan_identifiers(s, i + 5, allow_identifiers),
            Unit::Invalid => {},
            _ => lemma_scan_identifiers(s, i + 1, allow_identifiers),
        }
    }
}

fn symbol(c: char) -> (t: Option<Token>)
    ensures
        t == symbol_token(c),
{
    if c == '(' {
        Some(Token::GroupOpen)
    } else if c == ')' {
        Some(Token::GroupClose)
    } else if c == '&' {
        Some(Token::And)
    } else if c == '|' {
        Some(Token::Or)
    } else if c == '^' {
        Some(Token::Xor)
    } else if c == '!' {
        Some(Token::Not)
    } else if c == '=' {
        Some(Token::Equal)
    } else if c == '1' {
        Some(Token::ConstTrue)
    } else if c == '0' {
        Some(Token::ConstFalse)
    } else {
        None
    }
}

/// Whether `c` may name a variable.
pub fn valid_identifier(c: char) -> (r: bool)
    ensures
        r == is_identifier_char(c),
{
    'a' <= c && c <= 'z'
}

/// Whether `word` stands in `s` from index `i` on.
fn has_word_at(s: &Vec<char>, i: usize, word: &Vec<char>) -> (r: bool)
    requires
        i < s.len(),
    ensures
        r == starts_with_at(s@, i as int, word@),
{
    let width = word.len();
    if width > s.len() - i {
        return false;
    }
    let mut k: usize = 0;
    while k < width
        invariant
            k <= width,
            width == word.len(),
            i + width <= s.len(),
            forall|j: int| 0 <= j < k ==> s@[i + j] == word@[j],
        decreases width - k,
    {
        if s[i + k] != word[k] {
            proof {
                assert(s@.subrange(i as int, i + width)[k as int] == s@[i + k]);
            }
            return false;
        }
        k += 1;
    }
    proof {
        assert(s@.subrange(i as int, i + width) =~= word@);
    }
    true
}

/// Scans `source` into tokens.
///
/// Blanks are skipped. A letter is a variable name only where
/// `allow_identifiers` holds. The first character that starts no unit ends
/// the scan with the diagnostic for that character and its index.
pub fn tokenize(source: &String, allow_identifiers: bool) -> (res: Result<Vec<Token>, String>)
    ensures
        match res {
            Ok(tokens) => tokenize_outcome(source@, allow_identifiers) == Ok::<
                Seq<Token>,
                Seq<char>,
            >(tokens@),
            Err(msg) => tokenize_outcome(source@, allow_identifiers) == Err::<
                Seq<Token>,
                Seq<char>,
            >(msg@),
        },
        res matches Ok(tokens) ==> names_valid(tokens@),
        res matches Ok(tokens) ==> allow_identifiers || forall|k: int|
            0 <= k < tokens.len() ==> !(#[trigger] tokens[k] is Identifier),
{
    let text = chars_of(source.as_str());
    let word_true = chars_of("true");
    let word_false = chars_of("false");
    proof {
        reveal_strlit("true");
        reveal_strlit("false");
        assert(word_true@ =~= keyword(true));
        assert(word_false@ =~= keyword(false));
    }
    let mut result: Vec<Token> = Vec::new();
    let mut i: usize = 0;
    while i < text.len()
        invariant
            i <= text.len(),
            text@ == source@,
            word_true@ == keyword(true),
            word_false@ == keyword(false),
            scan(source@, allow_identifiers) == after(
                result@,
                scan_from(source@, i as int, allow_identifiers),
            ),
        decreases text.len() - i,
    {
        let c = text[i];
        let ghost done = result@;
        if c == ' ' {
            i += 1;
        } else if let Some(token) = symbol(c) {
            result.push(token);
            i += 1;
            proof {
                lemma_after_push(done, token, scan_from(source@, i as int, allow_identifiers));
            }
        } else if has_word_at(&text, i, &word_true) {
            result.push(Token::ConstTrue);
            i += 4;
            proof {
                lemma_after_push(
                    done,
                    Token::ConstTrue,
                    scan_from(source@, i as int, allow_identifiers),
                );
            }
        } else if has_word_at(&text, i, &word_false) {
            result.push(Token::ConstFalse);
            i += 5;
            proof {
                lemma_after_push(
                    done,
                    Token::ConstFalse,
                    scan_from(source@, i as int, allow_identifiers),
                );
            }
        } else if valid_identifier(c) && allow_identifiers {
            result.push(Token::Identifier(c));
            i += 1;
            proof {
                lemma_after_push(
                    done,
                    Token::Identifier(c),
                    scan_from(source@, i as int, allow_identifiers),
                );
            }
        } else {
            return Err(invalid_char_error(source, c, i));
        }
    }
    proof {
        assert(result@ + Seq::<Token>::empty() =~= result@);
        lemma_scan_identifiers(source@, 0, allow_identifiers);
    }
    Ok(result)
}

proof fn lemma_after_push(done: Seq<Token>, token: Token, rest: Result<Seq<Token>, int>)
    ensures
        after(done.push(token), rest) == after(done, before(token, rest)),
{
    match rest {
        Ok(tokens) => {
            assert(done.push(token) + tokens =~= done + (seq![token] + tokens));
        },
        Err(_) => {},
    }
}

} // verus!
