//! The lexical analyzer: turns the raw bytes of a domain or problem
//! file into a token stream, tracking line numbers for diagnostics.

use vstd::prelude::*;
use crate::errors::{ParsingError, SyntacticError};
use crate::token_types::{
    KeywordName, OperationType, PunctuationType, RequirementType, Token, TokenRecord,
};

verus! {

/// Relies on `String::from_utf8`: ASCII bytes decode one-to-one to the
/// characters with the same code points.
#[verifier::external_body]
fn ascii_to_string(bytes: &Vec<u8>, start: usize, end: usize) -> (r: String)
    requires
        start <= end,
        end <= bytes@.len(),
        forall|i: int| start <= i < end ==> bytes@[i] < 0x80,
    ensures
        r@.len() == end - start,
        forall|i: int| 0 <= i < r@.len() ==> r@[i] as u32 == bytes@[start + i] as u32,
{
    String::from_utf8(bytes[start..end].to_vec()).unwrap_or_default()
}

/// Whether `b` may continue a word: letters, digits, underscore, dash.
fn is_word_char(b: u8) -> (r: bool)
    ensures
        r == (b == 95 || b == 45 || (48 <= b && b <= 57) || (65 <= b && b <= 90) || (97 <= b && b
            <= 122)),
{
    b == 95u8 || b == 45u8 || (48u8 <= b && b <= 57u8) || (65u8 <= b && b <= 90u8) || (97u8 <= b
        && b <= 122u8)
}

/// The token a bare word denotes: a keyword of the language, a logical
/// operator, or an identifier.
fn word_token(w: String) -> (t: Token) {
    if w == "define".to_owned() {
        Token::Keyword(KeywordName::Define)
    } else if w == "domain".to_owned() {
        Token::Keyword(KeywordName::Domain)
    } else if w == "problem".to_owned() {
        Token::Keyword(KeywordName::Problem)
    } else if w == "and".to_owned() {
        Token::Operator(OperationType::And)
    } else if w == "or".to_owned() {
        Token::Operator(OperationType::Or)
    } else if w == "not".to_owned() {
        Token::Operator(OperationType::Not)
    } else if w == "oneof".to_owned() {
        Token::Operator(OperationType::Xor)
    } else if w == "forall".to_owned() {
        Token::Operator(OperationType::ForAll)
    } else if w == "exists".to_owned() {
        Token::Operator(OperationType::Exists)
    } else if w == "imply".to_owned() {
        Token::Operator(OperationType::Implication)
    } else {
        Token::Identifier(w)
    }
}

/// The token a `:`-prefixed word denotes: a section keyword or a
/// requirement flag; an unknown word yields `None`.
fn section_token(w: &String) -> (t: Option<Token>) {
    if *w == ":requirements".to_owned() {
        Some(Token::Keyword(KeywordName::Requirements))
    } else if *w == ":objects".to_owned() {
        Some(Token::Keyword(KeywordName::Objects))
    } else if *w == ":types".to_owned() {
        Some(Token::Keyword(KeywordName::Types))
    } else if *w == ":constants".to_owned() {
        Some(Token::Keyword(KeywordName::Constants))
    } else if *w == ":predicates".to_owned() {
        Some(Token::Keyword(KeywordName::Predicates))
    } else if *w == ":init".to_owned() {
        Some(Token::Keyword(KeywordName::Init))
    } else if *w == ":htn".to_owned() {
        Some(Token::Keyword(KeywordName::HTN))
    } else if *w == ":action".to_owned() {
        Some(Token::Keyword(KeywordName::Action))
    } else if *w == ":parameters".to_owned() {
        Some(Token::Keyword(KeywordName::Parameters))
    } else if *w == ":method".to_owned() {
        Some(Token::Keyword(KeywordName::Method))
    } else if *w == ":task".to_owned() {
        Some(Token::Keyword(KeywordName::Task))
    } else if *w == ":precondition".to_owned() {
        Some(Token::Keyword(KeywordName::Precondition))
    } else if *w == ":effect".to_owned() {
        Some(Token::Keyword(KeywordName::Effect))
    } else if *w == ":subtasks".to_owned() || *w == ":tasks".to_owned() {
        Some(Token::Keyword(KeywordName::Subtasks))
    } else if *w == ":ordered-subtasks".to_owned() || *w == ":ordered-tasks".to_owned() {
        Some(Token::Keyword(KeywordName::OrderedSubtasks))
    } else if *w == ":ordering".to_owned() {
        Some(Token::Keyword(KeywordName::Ordering))
    } else if *w == ":constraints".to_owned() {
        Some(Token::Keyword(KeywordName::Constraints))
    } else if *w == ":domain".to_owned() {
        Some(Token::Keyword(KeywordName::Domain))
    } else if *w == ":hierarchy".to_owned() {
        Some(Token::Requirement(RequirementType::Hierarchy))
    } else if *w == ":method-preconditions".to_owned() {
        Some(Token::Requirement(RequirementType::MethodPreconditions))
    } else if *w == ":typing".to_owned() {
        Some(Token::Requirement(RequirementType::TypedObjects))
    } else if *w == ":negative-preconditions".to_owned() {
        Some(Token::Requirement(RequirementType::NegativePreconditions))
    } else if *w == ":universal-preconditions".to_owned() {
        Some(Token::Requirement(RequirementType::UniversalPreconditions))
    } else if *w == ":equality".to_owned() {
        Some(Token::Requirement(RequirementType::Equality))
    } else {
        None
    }
}

/// Owns the raw bytes of one source file and lexes them on demand.
pub struct LexicalAnalyzer {
    pub input: Vec<u8>,
}

impl LexicalAnalyzer {
    pub fn new(input: Vec<u8>) -> (r: LexicalAnalyzer)
        ensures
            r.input@ == input@,
    {
        LexicalAnalyzer { input }
    }

    /// Lexes the whole input.  Comments run from `;` to the end of the
    /// line; words may hold letters, digits, underscores and dashes; a
    /// leading `?` (variables) is dropped; `:`-words must be known
    /// keywords or requirement flags.
    pub fn tokenize(&self) -> (r: Result<Vec<TokenRecord>, ParsingError>) {
        let n = self.input.len();
        let mut toks: Vec<TokenRecord> = Vec::new();
        let mut i: usize = 0;
        let mut line: usize = 1;
        while i < n
            invariant
                n == self.input@.len(),
                i <= n,
            decreases n - i,
        {
            let b = self.input[i];
            if b == 32u8 || b == 9u8 || b == 13u8 {
                i += 1;
            } else if b == 10u8 {
                if line < usize::MAX {
                    line += 1;
                }
                i += 1;
            } else if b == 59u8 {
                let start = i;
                i += 1;
                while i < n && self.input[i] != 10u8
                    invariant
                        n == self.input@.len(),
                        start < i <= n,
                    decreases n - i,
                {
                    i += 1;
                }
            } else if b == 40u8 {
                toks.push(
                    TokenRecord { token: Token::Punctuator(PunctuationType::LParentheses), line },
                );
                i += 1;
            } else if b == 41u8 {
                toks.push(
                    TokenRecord { token: Token::Punctuator(PunctuationType::RParentheses), line },
                );
                i += 1;
            } else if b == 61u8 {
                toks.push(TokenRecord { token: Token::Operator(OperationType::Equal), line });
                i += 1;
            } else if b == 60u8 {
                if i + 1 < n && self.input[i + 1] == 61u8 {
                    toks.push(
                        TokenRecord { token: Token::Operator(OperationType::LessThanOrEqual), line },
                    );
                    i += 2;
                } else {
                    toks.push(
                        TokenRecord { token: Token::Operator(OperationType::LessThan), line },
                    );
                    i += 1;
                }
            } else if b == 62u8 {
                if i + 1 < n && self.input[i + 1] == 61u8 {
                    toks.push(
                        TokenRecord {
                            token: Token::Operator(OperationType::GreaterThanOrEqual),
                            line,
                        },
                    );
                    i += 2;
                } else {
                    toks.push(
                        TokenRecord { token: Token::Operator(OperationType::GreaterThan), line },
                    );
                    i += 1;
                }
            } else if b == 45u8 && (i + 1 >= n || !is_word_char_at(&self.input, i + 1)) {
                toks.push(TokenRecord { token: Token::Punctuator(PunctuationType::Dash), line });
                i += 1;
            } else if b == 63u8 || b == 58u8 || is_word_char(b) {
                let prefixed = b == 63u8 || b == 58u8;
                let start = i;
                let word_start = if prefixed {
                    i + 1
                } else {
                    i
                };
                i += 1;
                while i < n && is_word_char_at(&self.input, i)
                    invariant
                        n == self.input@.len(),
                        start < i <= n,
                        word_start <= i,
                        forall|k: int| word_start <= k < i ==> self.input@[k] < 0x80,
                    decreases n - i,
                {
                    i += 1;
                }
                if word_start >= i {
                    return Err(
                        ParsingError::Lexical(
                            SyntacticError {
                                expected: "a word after the prefix".to_owned(),
                                found: "a lone prefix character".to_owned(),
                                line_number: line,
                            },
                        ),
                    );
                }
                if b == 58u8 {
                    let w = ascii_to_string(&self.input, start, i);
                    match section_token(&w) {
                        Some(t) => {
                            toks.push(TokenRecord { token: t, line });
                        },
                        None => {
                            return Err(
                                ParsingError::Lexical(
                                    SyntacticError {
                                        expected: "a known keyword or requirement".to_owned(),
                                        found: w,
                                        line_number: line,
                                    },
                                ),
                            );
                        },
                    }
                } else {
                    let w = ascii_to_string(&self.input, word_start, i);
                    if b == 63u8 {
                        toks.push(TokenRecord { token: Token::Identifier(w), line });
                    } else {
                        toks.push(TokenRecord { token: word_token(w), line });
                    }
                }
            } else {
                return Err(
                    ParsingError::Lexical(
                        SyntacticError {
                            expected: "a parenthesis, a word or an operator".to_owned(),
                            found: "an unexpected character".to_owned(),
                            line_number: line,
                        },
                    ),
                );
            }
        }
        Ok(toks)
    }
}

/// Whether the byte at `k` continues a word.
fn is_word_char_at(input: &Vec<u8>, k: usize) -> (r: bool)
    requires
        k < input@.len(),
    ensures
        r ==> input@[k as int] < 0x80,
{
    is_word_char(input[k])
}

} // verus!
