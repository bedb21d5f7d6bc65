//! The recursive-descent parser: turns the token stream of a domain or
//! problem file into an abstract syntax tree.

use vstd::prelude::*;
use crate::errors::{ParsingError, SyntacticError};
use crate::lexer::LexicalAnalyzer;
use crate::syntax_tree::{
    AbstractSyntaxTree, Action, CompoundTask, Constraint, DomainAST, Formula, InitTaskNetwork,
    Method, Predicate, ProblemAST, Subtask, TaskNetwork, TaskOrdering, Variable,
};
use crate::token_types::{
    KeywordName, OperationType, PunctuationType, Token, TokenPosition, TokenRecord,
};

verus! {

/// A short description of a token for diagnostics.
fn token_desc(t: &Token) -> (r: String) {
    match t {
        Token::Keyword(_) => "a keyword".to_owned(),
        Token::Identifier(w) => w.clone(),
        Token::Operator(_) => "an operator".to_owned(),
        Token::Punctuator(_) => "a punctuation character".to_owned(),
        Token::Requirement(_) => "a requirement flag".to_owned(),
    }
}

/// The line of the token at `pos`, or of the last token.
fn line_at(toks: &Vec<TokenRecord>, pos: usize) -> (r: usize) {
    if pos < toks.len() {
        toks[pos].line
    } else if toks.len() > 0 {
        toks[toks.len() - 1].line
    } else {
        1
    }
}

fn err_at(toks: &Vec<TokenRecord>, pos: usize, expected: &str) -> (r: ParsingError) {
    let found = if pos < toks.len() {
        token_desc(&toks[pos].token)
    } else {
        "the end of the input".to_owned()
    };
    ParsingError::Syntactic(
        SyntacticError { expected: expected.to_owned(), found, line_number: line_at(toks, pos) },
    )
}

/// Consumes one opening parenthesis.
fn expect_lparen(toks: &Vec<TokenRecord>, pos: &mut usize) -> (r: Result<(), ParsingError>)
    requires
        *old(pos) <= toks@.len(),
    ensures
        *old(pos) <= *final(pos) <= toks@.len(),
        r is Ok ==> *old(pos) < *final(pos),
{
    if *pos < toks.len() {
        if let Token::Punctuator(PunctuationType::LParentheses) = toks[*pos].token {
            *pos = *pos + 1;
            return Ok(());
        }
    }
    Err(err_at(toks, *pos, "an opening parenthesis"))
}

/// Consumes one closing parenthesis.
fn expect_rparen(toks: &Vec<TokenRecord>, pos: &mut usize) -> (r: Result<(), ParsingError>)
    requires
        *old(pos) <= toks@.len(),
    ensures
        *old(pos) <= *final(pos) <= toks@.len(),
        r is Ok ==> *old(pos) < *final(pos),
{
    if *pos < toks.len() {
        if let Token::Punctuator(PunctuationType::RParentheses) = toks[*pos].token {
            *pos = *pos + 1;
            return Ok(());
        }
    }
    Err(err_at(toks, *pos, "a closing parenthesis"))
}

/// Whether the next token is a closing parenthesis.
fn peek_rparen(toks: &Vec<TokenRecord>, pos: usize) -> (r: bool)
    ensures
        r ==> pos < toks@.len() && toks@.len() <= usize::MAX,
{
    if pos < toks.len() {
        matches!(toks[pos].token, Token::Punctuator(PunctuationType::RParentheses))
    } else {
        false
    }
}

/// Whether the next token is an opening parenthesis.
fn peek_lparen(toks: &Vec<TokenRecord>, pos: usize) -> (r: bool)
    ensures
        r ==> pos < toks@.len() && toks@.len() <= usize::MAX,
{
    if pos < toks.len() {
        matches!(toks[pos].token, Token::Punctuator(PunctuationType::LParentheses))
    } else {
        false
    }
}

/// Consumes one identifier and yields it with its line.
fn take_identifier(toks: &Vec<TokenRecord>, pos: &mut usize) -> (r: Result<
    (String, usize),
    ParsingError,
>)
    requires
        *old(pos) <= toks@.len(),
    ensures
        *old(pos) <= *final(pos) <= toks@.len(),
        r is Ok ==> *old(pos) < *final(pos),
        r is Ok ==> *final(pos) == *old(pos) + 1 && *old(pos) < toks@.len()
            && toks@[*old(pos) as int].token is Identifier
            && toks@[*old(pos) as int].token->Identifier_0@ == r->Ok_0.0@,
        r is Err ==> *final(pos) == *old(pos) && (*old(pos) >= toks@.len() || !(toks@[*old(
            pos,
        ) as int].token is Identifier)),
{
    if *pos < toks.len() {
        let line = toks[*pos].line;
        if let Token::Identifier(w) = &toks[*pos].token {
            let name = w.clone();
            *pos = *pos + 1;
            return Ok((name, line));
        }
    }
    Err(err_at(toks, *pos, "an identifier"))
}

/// Consumes identifiers up to and including a closing parenthesis.
fn take_terms(toks: &Vec<TokenRecord>, pos: &mut usize) -> (r: Result<Vec<String>, ParsingError>)
    requires
        *old(pos) <= toks@.len(),
    ensures
        *old(pos) <= *final(pos) <= toks@.len(),
        r is Ok ==> *old(pos) < *final(pos),
{
    let mut terms: Vec<String> = Vec::new();
    loop
        invariant
            *old(pos) <= *pos <= toks@.len(),
        decreases toks@.len() - *pos,
    {
        if *pos >= toks.len() {
            return Err(err_at(toks, *pos, "a term or a closing parenthesis"));
        }
        match &toks[*pos].token {
            Token::Identifier(w) => {
                terms.push(w.clone());
                *pos = *pos + 1;
            },
            Token::Punctuator(PunctuationType::RParentheses) => {
                *pos = *pos + 1;
                return Ok(terms);
            },
            _ => {
                return Err(err_at(toks, *pos, "a term or a closing parenthesis"));
            },
        }
    }
}

/// The view of an optional type name.
pub open spec fn type_view(o: Option<String>) -> Option<Seq<char>> {
    match o {
        Some(t) => Some(t@),
        None => None,
    }
}

/// The name and type views of a variable list.
pub open spec fn vars_view(vs: Seq<Variable>) -> Seq<(Seq<char>, Option<Seq<char>>)> {
    vs.map_values(|v: Variable| (v.name@, type_view(v.var_type)))
}

/// The views of a list of names.
pub open spec fn strs_view(ss: Seq<String>) -> Seq<Seq<char>> {
    ss.map_values(|s: String| s@)
}

/// Each name paired with one shared type.
pub open spec fn typed_pairs(names: Seq<Seq<char>>, ty: Option<Seq<char>>) -> Seq<
    (Seq<char>, Option<Seq<char>>),
> {
    Seq::new(names.len(), |i: int| (names[i], ty))
}

/// What a typed argument list denotes, read from `pos` with the names
/// of `pending` awaiting their type: the typed entries in order and the
/// position after the closing parenthesis, or nothing when the tokens
/// do not form a typed list.  A dash types the pending group with the
/// identifier that follows; the closing parenthesis leaves the pending
/// group untyped.
pub open spec fn args_spec(
    toks: Seq<TokenRecord>,
    pos: int,
    pending: Seq<Seq<char>>,
    acc: Seq<(Seq<char>, Option<Seq<char>>)>,
) -> Option<(Seq<(Seq<char>, Option<Seq<char>>)>, int)>
    decreases toks.len() - pos,
{
    if pos < 0 || pos >= toks.len() {
        None
    } else {
        match toks[pos].token {
            Token::Identifier(w) => args_spec(toks, pos + 1, pending.push(w@), acc),
            Token::Punctuator(PunctuationType::Dash) => {
                if pos + 1 < toks.len() && toks[pos + 1].token is Identifier {
                    args_spec(
                        toks,
                        pos + 2,
                        Seq::empty(),
                        acc + typed_pairs(pending, Some(toks[pos + 1].token->Identifier_0@)),
                    )
                } else {
                    None
                }
            },
            Token::Punctuator(PunctuationType::RParentheses) => Some(
                (acc + typed_pairs(pending, Option::<Seq<char>>::None), pos + 1),
            ),
            _ => None,
        }
    }
}

/// Lexes a source file and parses the definition it holds.
pub struct Parser {
    pub lexer: LexicalAnalyzer,
}

impl Parser {
    pub fn new(lexer: LexicalAnalyzer) -> (r: Parser)
        ensures
            r.lexer.input@ == lexer.input@,
    {
        Parser { lexer }
    }

    /// Parses the file: `(define (domain N) ...)` yields a domain AST,
    /// `(define (problem N) ...)` a problem AST.
    pub fn parse(self) -> (r: Result<AbstractSyntaxTree, ParsingError>) {
        let toks = match self.lexer.tokenize() {
            Ok(t) => t,
            Err(e) => {
                return Err(e);
            },
        };
        let mut pos: usize = 0;
        if let Err(e) = expect_lparen(&toks, &mut pos) {
            return Err(e);
        }
        if pos < toks.len() {
            if let Token::Keyword(KeywordName::Define) = toks[pos].token {
                pos += 1;
            } else {
                return Err(err_at(&toks, pos, "the define keyword"));
            }
        } else {
            return Err(err_at(&toks, pos, "the define keyword"));
        }
        if let Err(e) = expect_lparen(&toks, &mut pos) {
            return Err(e);
        }
        if pos < toks.len() {
            let is_domain = matches!(toks[pos].token, Token::Keyword(KeywordName::Domain));
            let is_problem = matches!(toks[pos].token, Token::Keyword(KeywordName::Problem));
            if is_domain || is_problem {
                pos += 1;
                let (name, _line) = match take_identifier(&toks, &mut pos) {
                    Ok(v) => v,
                    Err(e) => {
                        return Err(e);
                    },
                };
                if let Err(e) = expect_rparen(&toks, &mut pos) {
                    return Err(e);
                }
                if is_domain {
                    match Self::parse_domain(&toks, &mut pos, name) {
                        Ok(d) => Ok(AbstractSyntaxTree::Domain(d)),
                        Err(e) => Err(e),
                    }
                } else {
                    match Self::parse_problem(&toks, &mut pos, name) {
                        Ok(p) => Ok(AbstractSyntaxTree::Problem(p)),
                        Err(e) => Err(e),
                    }
                }
            } else {
                Err(err_at(&toks, pos, "the domain or problem keyword"))
            }
        } else {
            Err(err_at(&toks, pos, "the domain or problem keyword"))
        }
    }

    /// Parses a typed argument list up to and including its closing
    /// parenthesis: names, optionally grouped before `- type`.
    pub fn parse_args(toks: &Vec<TokenRecord>, pos: &mut usize) -> (r: Result<
        Vec<Variable>,
        ParsingError,
    >)
        requires
            *old(pos) <= toks@.len(),
        ensures
            *old(pos) <= *final(pos) <= toks@.len(),
            r is Ok ==> *old(pos) < *final(pos),
            (match r {
                Ok(vars) => args_spec(toks@, *old(pos) as int, Seq::empty(), Seq::empty())
                    == Some((vars_view(vars@), *final(pos) as int)),
                Err(_) => args_spec(toks@, *old(pos) as int, Seq::empty(), Seq::empty()) is None,
            }),
    {
        match Self::parse_args_lined(toks, pos) {
            Ok((vars, _lines)) => Ok(vars),
            Err(e) => Err(e),
        }
    }

    /// Parses a typed argument list, also yielding the source line of
    /// each entry's name; the entries are exactly what `args_spec`
    /// reads off the tokens.
    #[verifier::rlimit(100)]
    fn parse_args_lined(toks: &Vec<TokenRecord>, pos: &mut usize) -> (r: Result<
        (Vec<Variable>, Vec<usize>),
        ParsingError,
    >)
        requires
            *old(pos) <= toks@.len(),
        ensures
            *old(pos) <= *final(pos) <= toks@.len(),
            r is Ok ==> *old(pos) < *final(pos),
            r matches Ok(p) ==> p.0@.len() == p.1@.len(),
            (match r {
                Ok(p) => args_spec(toks@, *old(pos) as int, Seq::empty(), Seq::empty()) == Some(
                    (vars_view(p.0@), *final(pos) as int),
                ),
                Err(_) => args_spec(toks@, *old(pos) as int, Seq::empty(), Seq::empty()) is None,
            }),
    {
        let mut result: Vec<Variable> = Vec::new();
        let mut result_lines: Vec<usize> = Vec::new();
        let mut pending: Vec<String> = Vec::new();
        let mut pending_lines: Vec<usize> = Vec::new();
        proof {
            assert(vars_view(result@) =~= Seq::<(Seq<char>, Option<Seq<char>>)>::empty());
            assert(strs_view(pending@) =~= Seq::<Seq<char>>::empty());
        }
        loop
            invariant
                *old(pos) <= *pos <= toks@.len(),
                result@.len() == result_lines@.len(),
                pending@.len() == pending_lines@.len(),
                args_spec(toks@, *old(pos) as int, Seq::empty(), Seq::empty()) == args_spec(
                    toks@,
                    *pos as int,
                    strs_view(pending@),
                    vars_view(result@),
                ),
            decreases toks@.len() - *pos,
        {
            let ghost pv = strs_view(pending@);
            let ghost av = vars_view(result@);
            if *pos >= toks.len() {
                return Err(err_at(toks, *pos, "an argument, a dash or a closing parenthesis"));
            }
            match &toks[*pos].token {
                Token::Identifier(w) => {
                    pending.push(w.clone());
                    pending_lines.push(toks[*pos].line);
                    proof {
                        assert(strs_view(pending@) =~= pv.push(w@));
                        assert(args_spec(toks@, *pos as int, pv, av) == args_spec(
                            toks@,
                            *pos + 1,
                            pv.push(w@),
                            av,
                        ));
                    }
                    *pos = *pos + 1;
                },
                Token::Punctuator(PunctuationType::Dash) => {
                    *pos = *pos + 1;
                    let (ty, _line) = match take_identifier(toks, pos) {
                        Ok(v) => v,
                        Err(e) => {
                            proof {
                                assert(args_spec(toks@, *pos as int - 1, pv, av) is None);
                            }
                            return Err(e);
                        },
                    };
                    proof {
                        assert(toks@[*pos - 2].token is Punctuator);
                        assert(toks@[*pos - 1].token is Identifier);
                        assert(toks@[*pos - 1].token->Identifier_0@ == ty@);
                        assert(args_spec(toks@, *pos - 2, pv, av) == args_spec(
                            toks@,
                            *pos as int,
                            Seq::empty(),
                            av + typed_pairs(pv, Some(ty@)),
                        ));
                    }
                    let mut k: usize = 0;
                    let n_pending = pending.len();
                    while k < n_pending
                        invariant
                            n_pending == pending@.len(),
                            pending@.len() == pending_lines@.len(),
                            result@.len() == result_lines@.len(),
                            k <= n_pending,
                            pv == strs_view(pending@),
                            vars_view(result@) =~= av + typed_pairs(pv, Some(ty@)).take(k as int),
                        decreases n_pending - k,
                    {
                        let ghost result_before = result@;
                        result.push(Variable::new(pending[k].clone(), Some(ty.clone())));
                        result_lines.push(pending_lines[k]);
                        proof {
                            let b = typed_pairs(pv, Some(ty@));
                            assert(pv.len() == pending@.len());
                            assert(b.len() == pv.len());
                            assert(vars_view(result_before).len() == result_before.len());
                            assert(result_before.len() == av.len() + k);
                            assert(vars_view(result@).len() == result_before.len() + 1);
                            assert(result@.last().name@ == pv[k as int]);
                            assert(type_view(result@.last().var_type) == Some(ty@));
                            assert forall|i: int|
                                0 <= i < vars_view(result@).len() implies vars_view(result@)[i]
                                == (av + b.take(k + 1))[i] by {
                                if i < result_before.len() {
                                    assert(result@[i] == result_before[i]);
                                    assert(vars_view(result_before)[i] == (av + b.take(
                                        k as int,
                                    ))[i]);
                                } else {
                                    assert(result@[i] == result@.last());
                                    assert(b[k as int] == (pv[k as int], Some(ty@)));
                                }
                            }
                            assert(vars_view(result@) =~= av + b.take(k + 1));
                        }
                        k += 1;
                    }
                    proof {
                        assert(typed_pairs(pv, Some(ty@)).take(n_pending as int) =~= typed_pairs(
                            pv,
                            Some(ty@),
                        ));
                        assert(vars_view(result@) =~= av + typed_pairs(pv, Some(ty@)));
                    }
                    pending = Vec::new();
                    pending_lines = Vec::new();
                    proof {
                        assert(strs_view(pending@) =~= Seq::<Seq<char>>::empty());
                    }
                },
                Token::Punctuator(PunctuationType::RParentheses) => {
                    proof {
                        assert(args_spec(toks@, *pos as int, pv, av) == Some(
                            (av + typed_pairs(pv, Option::<Seq<char>>::None), *pos + 1),
                        ));
                    }
                    *pos = *pos + 1;
                    let mut k: usize = 0;
                    let n_pending = pending.len();
                    while k < n_pending
                        invariant
                            n_pending == pending@.len(),
                            pending@.len() == pending_lines@.len(),
                            result@.len() == result_lines@.len(),
                            k <= n_pending,
                            pv == strs_view(pending@),
                            vars_view(result@) =~= av + typed_pairs(
                                pv,
                                Option::<Seq<char>>::None,
                            ).take(k as int),
                        decreases n_pending - k,
                    {
                        let ghost result_before = result@;
                        result.push(Variable::new(pending[k].clone(), None));
                        result_lines.push(pending_lines[k]);
                        proof {
                            let b = typed_pairs(pv, Option::<Seq<char>>::None);
                            assert(pv.len() == pending@.len());
                            assert(b.len() == pv.len());
                            assert(vars_view(result_before).len() == result_before.len());
                            assert(result_before.len() == av.len() + k);
                            assert(vars_view(result@).len() == result_before.len() + 1);
                            assert(result@.last().name@ == pv[k as int]);
                            assert(type_view(result@.last().var_type) is None);
                            assert forall|i: int|
                                0 <= i < vars_view(result@).len() implies vars_view(result@)[i]
                                == (av + b.take(k + 1))[i] by {
                                if i < result_before.len() {
                                    assert(result@[i] == result_before[i]);
                                    assert(vars_view(result_before)[i] == (av + b.take(
                                        k as int,
                                    ))[i]);
                                } else {
                                    assert(result@[i] == result@.last());
                                    assert(b[k as int] == (pv[k as int], Option::<Seq<char>>::None));
                                }
                            }
                            assert(vars_view(result@) =~= av + b.take(k + 1));
                        }
                        k += 1;
                    }
                    proof {
                        assert(typed_pairs(pv, Option::<Seq<char>>::None).take(n_pending as int)
                            =~= typed_pairs(pv, Option::<Seq<char>>::None));
                        assert(vars_view(result@) =~= av + typed_pairs(
                            pv,
                            Option::<Seq<char>>::None,
                        ));
                    }
                    return Ok((result, result_lines));
                },
                _ => {
                    return Err(err_at(toks, *pos, "an argument, a dash or a closing parenthesis"));
                },
            }
        }
    }

    /// Parses a formula: an atom, an empty pair of parentheses, or a
    /// connective applied to subformulas.
    fn parse_formula(toks: &Vec<TokenRecord>, pos: &mut usize) -> (r: Result<
        Formula,
        ParsingError,
    >)
        requires
            *old(pos) <= toks@.len(),
        ensures
            *old(pos) <= *final(pos) <= toks@.len(),
            r is Ok ==> *old(pos) < *final(pos),
        decreases toks@.len() - *old(pos), 1int,
    {
        if let Err(e) = expect_lparen(toks, pos) {
            return Err(e);
        }
        if *pos >= toks.len() {
            return Err(err_at(toks, *pos, "a formula"));
        }
        let line = toks[*pos].line;
        match &toks[*pos].token {
            Token::Punctuator(PunctuationType::RParentheses) => {
                *pos = *pos + 1;
                Ok(Formula::Empty)
            },
            Token::Operator(OperationType::And) => {
                *pos = *pos + 1;
                match Self::parse_formula_list(toks, pos) {
                    Ok(fs) => Ok(Formula::And(fs)),
                    Err(e) => Err(e),
                }
            },
            Token::Operator(OperationType::Or) => {
                *pos = *pos + 1;
                match Self::parse_formula_list(toks, pos) {
                    Ok(fs) => Ok(Formula::Or(fs)),
                    Err(e) => Err(e),
                }
            },
            Token::Operator(OperationType::Xor) => {
                *pos = *pos + 1;
                match Self::parse_formula_list(toks, pos) {
                    Ok(fs) => Ok(Formula::Xor(fs)),
                    Err(e) => Err(e),
                }
            },
            Token::Operator(OperationType::Not) => {
                *pos = *pos + 1;
                let f = match Self::parse_formula(toks, pos) {
                    Ok(f) => f,
                    Err(e) => {
                        return Err(e);
                    },
                };
                if let Err(e) = expect_rparen(toks, pos) {
                    return Err(e);
                }
                Ok(Formula::Not(Box::new(f)))
            },
            Token::Operator(OperationType::Implication) => {
                *pos = *pos + 1;
                let f1 = match Self::parse_formula(toks, pos) {
                    Ok(f) => f,
                    Err(e) => {
                        return Err(e);
                    },
                };
                let f2 = match Self::parse_formula(toks, pos) {
                    Ok(f) => f,
                    Err(e) => {
                        return Err(e);
                    },
                };
                if let Err(e) = expect_rparen(toks, pos) {
                    return Err(e);
                }
                Ok(Formula::Imply(Box::new(f1), Box::new(f2)))
            },
            Token::Operator(OperationType::ForAll) => {
                *pos = *pos + 1;
                match Self::parse_quantified(toks, pos) {
                    Ok((vars, f)) => Ok(Formula::ForAll(vars, Box::new(f))),
                    Err(e) => Err(e),
                }
            },
            Token::Operator(OperationType::Exists) => {
                *pos = *pos + 1;
                match Self::parse_quantified(toks, pos) {
                    Ok((vars, f)) => Ok(Formula::Exists(vars, Box::new(f))),
                    Err(e) => Err(e),
                }
            },
            Token::Operator(OperationType::Equal) => {
                *pos = *pos + 1;
                let (a, _l1) = match take_identifier(toks, pos) {
                    Ok(v) => v,
                    Err(e) => {
                        return Err(e);
                    },
                };
                let (b, _l2) = match take_identifier(toks, pos) {
                    Ok(v) => v,
                    Err(e) => {
                        return Err(e);
                    },
                };
                if let Err(e) = expect_rparen(toks, pos) {
                    return Err(e);
                }
                Ok(Formula::Equals(a, b))
            },
            Token::Identifier(w) => {
                let name = w.clone();
                *pos = *pos + 1;
                let terms = match take_terms(toks, pos) {
                    Ok(t) => t,
                    Err(e) => {
                        return Err(e);
                    },
                };
                let mut variables: Vec<Variable> = Vec::new();
                let mut k: usize = 0;
                let n_terms = terms.len();
                while k < n_terms
                    invariant
                        n_terms == terms@.len(),
                        k <= n_terms,
                    decreases n_terms - k,
                {
                    variables.push(Variable::new(terms[k].clone(), None));
                    k += 1;
                }
                Ok(Formula::Atom(Predicate { name, variables, position: TokenPosition { line } }))
            },
            _ => Err(err_at(toks, *pos, "a formula")),
        }
    }

    /// Parses `(vars) F )`: the tail of a quantified formula.
    fn parse_quantified(toks: &Vec<TokenRecord>, pos: &mut usize) -> (r: Result<
        (Vec<Variable>, Formula),
        ParsingError,
    >)
        requires
            *old(pos) <= toks@.len(),
        ensures
            *old(pos) <= *final(pos) <= toks@.len(),
            r is Ok ==> *old(pos) < *final(pos),
        decreases toks@.len() - *old(pos), 2int,
    {
        if let Err(e) = expect_lparen(toks, pos) {
            return Err(e);
        }
        let vars = match Self::parse_args(toks, pos) {
            Ok(v) => v,
            Err(e) => {
                return Err(e);
            },
        };
        let f = match Self::parse_formula(toks, pos) {
            Ok(f) => f,
            Err(e) => {
                return Err(e);
            },
        };
        if let Err(e) = expect_rparen(toks, pos) {
            return Err(e);
        }
        Ok((vars, f))
    }

    /// Parses subformulas up to and including the closing parenthesis.
    fn parse_formula_list(toks: &Vec<TokenRecord>, pos: &mut usize) -> (r: Result<
        Vec<Box<Formula>>,
        ParsingError,
    >)
        requires
            *old(pos) <= toks@.len(),
        ensures
            *old(pos) <= *final(pos) <= toks@.len(),
            r is Ok ==> *old(pos) < *final(pos),
        decreases toks@.len() - *old(pos), 2int,
    {
        let mut fs: Vec<Box<Formula>> = Vec::new();
        loop
            invariant
                *old(pos) <= *pos <= toks@.len(),
            decreases toks@.len() - *pos,
        {
            if peek_rparen(toks, *pos) {
                *pos = *pos + 1;
                return Ok(fs);
            }
            if *pos >= toks.len() {
                return Err(err_at(toks, *pos, "a formula or a closing parenthesis"));
            }
            let f = match Self::parse_formula(toks, pos) {
                Ok(f) => f,
                Err(e) => {
                    return Err(e);
                },
            };
            fs.push(Box::new(f));
        }
    }

    /// Parses the requirement flags up to and including the closing
    /// parenthesis.
    fn parse_requirements(toks: &Vec<TokenRecord>, pos: &mut usize) -> (r: Result<
        Vec<crate::token_types::RequirementType>,
        ParsingError,
    >)
        requires
            *old(pos) <= toks@.len(),
        ensures
            *old(pos) <= *final(pos) <= toks@.len(),
            r is Ok ==> *old(pos) < *final(pos),
    {
        let mut reqs: Vec<crate::token_types::RequirementType> = Vec::new();
        loop
            invariant
                *old(pos) <= *pos <= toks@.len(),
            decreases toks@.len() - *pos,
        {
            if *pos >= toks.len() {
                return Err(err_at(toks, *pos, "a requirement flag or a closing parenthesis"));
            }
            match &toks[*pos].token {
                Token::Requirement(rq) => {
                    reqs.push(*rq);
                    *pos = *pos + 1;
                },
                Token::Punctuator(PunctuationType::RParentheses) => {
                    *pos = *pos + 1;
                    return Ok(reqs);
                },
                _ => {
                    return Err(err_at(toks, *pos, "a requirement flag or a closing parenthesis"));
                },
            }
        }
    }

    /// Parses one subtask entry of an `and` list: `(sym terms)` or
    /// `(label (sym terms))`.
    fn parse_subtask_item(toks: &Vec<TokenRecord>, pos: &mut usize) -> (r: Result<
        Subtask,
        ParsingError,
    >)
        requires
            *old(pos) <= toks@.len(),
        ensures
            *old(pos) <= *final(pos) <= toks@.len(),
            r is Ok ==> *old(pos) < *final(pos),
    {
        if let Err(e) = expect_lparen(toks, pos) {
            return Err(e);
        }
        let (first, line) = match take_identifier(toks, pos) {
            Ok(v) => v,
            Err(e) => {
                return Err(e);
            },
        };
        if peek_lparen(toks, *pos) {
            *pos = *pos + 1;
            let (sym, _l) = match take_identifier(toks, pos) {
                Ok(v) => v,
                Err(e) => {
                    return Err(e);
                },
            };
            let terms = match take_terms(toks, pos) {
                Ok(t) => t,
                Err(e) => {
                    return Err(e);
                },
            };
            if let Err(e) = expect_rparen(toks, pos) {
                return Err(e);
            }
            Ok(
                Subtask {
                    id: Some(first),
                    task_symbol: sym,
                    terms,
                    position: TokenPosition { line },
                },
            )
        } else {
            let terms = match take_terms(toks, pos) {
                Ok(t) => t,
                Err(e) => {
                    return Err(e);
                },
            };
            Ok(Subtask { id: None, task_symbol: first, terms, position: TokenPosition { line } })
        }
    }

    /// Parses a task network: `()`, `(and <subtask>*)`, or a single
    /// bare subtask `(sym terms)`.
    fn parse_task_network(toks: &Vec<TokenRecord>, pos: &mut usize, total: bool) -> (r: Result<
        TaskNetwork,
        ParsingError,
    >)
        requires
            *old(pos) <= toks@.len(),
        ensures
            *old(pos) <= *final(pos) <= toks@.len(),
            r is Ok ==> *old(pos) < *final(pos),
    {
        if let Err(e) = expect_lparen(toks, pos) {
            return Err(e);
        }
        let orderings = if total {
            TaskOrdering::Total
        } else {
            TaskOrdering::Partial(Vec::new())
        };
        if peek_rparen(toks, *pos) {
            *pos = *pos + 1;
            return Ok(TaskNetwork { subtasks: Vec::new(), orderings, constraints: None });
        }
        if *pos >= toks.len() {
            return Err(err_at(toks, *pos, "a subtask list"));
        }
        let mut subtasks: Vec<Subtask> = Vec::new();
        match &toks[*pos].token {
            Token::Operator(OperationType::And) => {
                *pos = *pos + 1;
                loop
                    invariant
                        *old(pos) <= *pos <= toks@.len(),
                    decreases toks@.len() - *pos,
                {
                    if peek_rparen(toks, *pos) {
                        *pos = *pos + 1;
                        return Ok(TaskNetwork { subtasks, orderings, constraints: None });
                    }
                    if *pos >= toks.len() {
                        return Err(err_at(toks, *pos, "a subtask or a closing parenthesis"));
                    }
                    let st = match Self::parse_subtask_item(toks, pos) {
                        Ok(s) => s,
                        Err(e) => {
                            return Err(e);
                        },
                    };
                    subtasks.push(st);
                }
            },
            Token::Identifier(_) => {
                let (sym, line) = match take_identifier(toks, pos) {
                    Ok(v) => v,
                    Err(e) => {
                        return Err(e);
                    },
                };
                let terms = match take_terms(toks, pos) {
                    Ok(t) => t,
                    Err(e) => {
                        return Err(e);
                    },
                };
                subtasks.push(
                    Subtask { id: None, task_symbol: sym, terms, position: TokenPosition { line } },
                );
                Ok(TaskNetwork { subtasks, orderings, constraints: None })
            },
            _ => Err(err_at(toks, *pos, "a subtask list")),
        }
    }

    /// Parses ordering constraints: `(and (< a b)*)` or `((< a b)*)`.
    fn parse_ordering(toks: &Vec<TokenRecord>, pos: &mut usize) -> (r: Result<
        Vec<(String, String)>,
        ParsingError,
    >)
        requires
            *old(pos) <= toks@.len(),
        ensures
            *old(pos) <= *final(pos) <= toks@.len(),
            r is Ok ==> *old(pos) < *final(pos),
    {
        if let Err(e) = expect_lparen(toks, pos) {
            return Err(e);
        }
        if *pos < toks.len() {
            if let Token::Operator(OperationType::And) = toks[*pos].token {
                *pos = *pos + 1;
            }
        }
        let mut pairs: Vec<(String, String)> = Vec::new();
        loop
            invariant
                *old(pos) <= *pos <= toks@.len(),
            decreases toks@.len() - *pos,
        {
            if peek_rparen(toks, *pos) {
                *pos = *pos + 1;
                return Ok(pairs);
            }
            if let Err(e) = expect_lparen(toks, pos) {
                return Err(e);
            }
            if *pos < toks.len() {
                if let Token::Operator(OperationType::LessThan) = toks[*pos].token {
                    *pos = *pos + 1;
                    let (a, _l1) = match take_identifier(toks, pos) {
                        Ok(v) => v,
                        Err(e) => {
                            return Err(e);
                        },
                    };
                    let (b, _l2) = match take_identifier(toks, pos) {
                        Ok(v) => v,
                        Err(e) => {
                            return Err(e);
                        },
                    };
                    if let Err(e) = expect_rparen(toks, pos) {
                        return Err(e);
                    }
                    pairs.push((a, b));
                } else {
                    return Err(err_at(toks, *pos, "an ordering relation"));
                }
            } else {
                return Err(err_at(toks, *pos, "an ordering relation"));
            }
        }
    }

    /// Parses one constraint after its opening parenthesis: `= a b)` or
    /// `not (= a b))`.
    fn parse_constraint_body(toks: &Vec<TokenRecord>, pos: &mut usize) -> (r: Result<
        Constraint,
        ParsingError,
    >)
        requires
            *old(pos) <= toks@.len(),
        ensures
            *old(pos) <= *final(pos) <= toks@.len(),
            r is Ok ==> *old(pos) < *final(pos),
    {
        if *pos >= toks.len() {
            return Err(err_at(toks, *pos, "a constraint"));
        }
        match &toks[*pos].token {
            Token::Operator(OperationType::Equal) => {
                *pos = *pos + 1;
                let (a, _l1) = match take_identifier(toks, pos) {
                    Ok(v) => v,
                    Err(e) => {
                        return Err(e);
                    },
                };
                let (b, _l2) = match take_identifier(toks, pos) {
                    Ok(v) => v,
                    Err(e) => {
                        return Err(e);
                    },
                };
                if let Err(e) = expect_rparen(toks, pos) {
                    return Err(e);
                }
                Ok(Constraint::Equal(a, b))
            },
            Token::Operator(OperationType::Not) => {
                *pos = *pos + 1;
                if let Err(e) = expect_lparen(toks, pos) {
                    return Err(e);
                }
                if *pos < toks.len() {
                    if let Token::Operator(OperationType::Equal) = toks[*pos].token {
                        *pos = *pos + 1;
                        let (a, _l1) = match take_identifier(toks, pos) {
                            Ok(v) => v,
                            Err(e) => {
                                return Err(e);
                            },
                        };
                        let (b, _l2) = match take_identifier(toks, pos) {
                            Ok(v) => v,
                            Err(e) => {
                                return Err(e);
                            },
                        };
                        if let Err(e) = expect_rparen(toks, pos) {
                            return Err(e);
                        }
                        if let Err(e) = expect_rparen(toks, pos) {
                            return Err(e);
                        }
                        return Ok(Constraint::NotEqual(a, b));
                    }
                }
                Err(err_at(toks, *pos, "an equality constraint"))
            },
            _ => Err(err_at(toks, *pos, "a constraint")),
        }
    }

    /// Parses a constraint section: `(not (= a b))`, `(= a b)` or
    /// `(and <constraint>*)`.
    fn parse_constraints(toks: &Vec<TokenRecord>, pos: &mut usize) -> (r: Result<
        Vec<Constraint>,
        ParsingError,
    >)
        requires
            *old(pos) <= toks@.len(),
        ensures
            *old(pos) <= *final(pos) <= toks@.len(),
            r is Ok ==> *old(pos) < *final(pos),
    {
        if let Err(e) = expect_lparen(toks, pos) {
            return Err(e);
        }
        let mut cs: Vec<Constraint> = Vec::new();
        if *pos >= toks.len() {
            return Err(err_at(toks, *pos, "a constraint"));
        }
        if let Token::Operator(OperationType::And) = toks[*pos].token {
            *pos = *pos + 1;
            loop
                invariant
                    *old(pos) <= *pos <= toks@.len(),
                decreases toks@.len() - *pos,
            {
                if peek_rparen(toks, *pos) {
                    *pos = *pos + 1;
                    return Ok(cs);
                }
                if let Err(e) = expect_lparen(toks, pos) {
                    return Err(e);
                }
                let c = match Self::parse_constraint_body(toks, pos) {
                    Ok(c) => c,
                    Err(e) => {
                        return Err(e);
                    },
                };
                cs.push(c);
            }
        } else {
            let c = match Self::parse_constraint_body(toks, pos) {
                Ok(c) => c,
                Err(e) => {
                    return Err(e);
                },
            };
            cs.push(c);
            Ok(cs)
        }
    }

    /// Parses the sections of a domain body until the closing
    /// parenthesis or the end of the input.
    fn parse_domain(toks: &Vec<TokenRecord>, pos: &mut usize, name: String) -> (r: Result<
        DomainAST,
        ParsingError,
    >)
        requires
            *old(pos) <= toks@.len(),
        ensures
            *old(pos) <= *final(pos) <= toks@.len(),
    {
        let mut d = DomainAST {
            name,
            requirements: Vec::new(),
            types: None,
            constants: None,
            predicates: Vec::new(),
            compound_tasks: Vec::new(),
            actions: Vec::new(),
            methods: Vec::new(),
        };
        loop
            invariant
                *old(pos) <= *pos <= toks@.len(),
            decreases toks@.len() - *pos,
        {
            if *pos >= toks.len() {
                return Ok(d);
            }
            if peek_rparen(toks, *pos) {
                *pos = *pos + 1;
                return Ok(d);
            }
            if let Err(e) = expect_lparen(toks, pos) {
                return Err(e);
            }
            if *pos >= toks.len() {
                return Err(err_at(toks, *pos, "a section keyword"));
            }
            match &toks[*pos].token {
                Token::Keyword(KeywordName::Requirements) => {
                    *pos = *pos + 1;
                    d.requirements = match Self::parse_requirements(toks, pos) {
                        Ok(v) => v,
                        Err(e) => {
                            return Err(e);
                        },
                    };
                },
                Token::Keyword(KeywordName::Types) => {
                    *pos = *pos + 1;
                    d.types = match Self::parse_args(toks, pos) {
                        Ok(v) => Some(v),
                        Err(e) => {
                            return Err(e);
                        },
                    };
                },
                Token::Keyword(KeywordName::Constants) => {
                    *pos = *pos + 1;
                    d.constants = match Self::parse_args(toks, pos) {
                        Ok(v) => Some(v),
                        Err(e) => {
                            return Err(e);
                        },
                    };
                },
                Token::Keyword(KeywordName::Predicates) => {
                    *pos = *pos + 1;
                    if let Err(e) = Self::parse_predicate_decls(toks, pos, &mut d.predicates) {
                        return Err(e);
                    }
                },
                Token::Keyword(KeywordName::Task) => {
                    *pos = *pos + 1;
                    let t = match Self::parse_task_decl(toks, pos) {
                        Ok(t) => t,
                        Err(e) => {
                            return Err(e);
                        },
                    };
                    d.compound_tasks.push(t);
                },
                Token::Keyword(KeywordName::Action) => {
                    *pos = *pos + 1;
                    let a = match Self::parse_action(toks, pos) {
                        Ok(a) => a,
                        Err(e) => {
                            return Err(e);
                        },
                    };
                    d.actions.push(a);
                },
                Token::Keyword(KeywordName::Method) => {
                    *pos = *pos + 1;
                    let m = match Self::parse_method(toks, pos) {
                        Ok(m) => m,
                        Err(e) => {
                            return Err(e);
                        },
                    };
                    d.methods.push(m);
                },
                _ => {
                    return Err(err_at(toks, *pos, "a section keyword"));
                },
            }
        }
    }

    /// Parses the predicate signatures of a `:predicates` section up to
    /// and including the section's closing parenthesis.
    fn parse_predicate_decls(
        toks: &Vec<TokenRecord>,
        pos: &mut usize,
        out: &mut Vec<Predicate>,
    ) -> (r: Result<(), ParsingError>)
        requires
            *old(pos) <= toks@.len(),
        ensures
            *old(pos) <= *final(pos) <= toks@.len(),
    {
        loop
            invariant
                *old(pos) <= *pos <= toks@.len(),
            decreases toks@.len() - *pos,
        {
            if *pos >= toks.len() {
                return Ok(());
            }
            if peek_rparen(toks, *pos) {
                *pos = *pos + 1;
                return Ok(());
            }
            if let Err(e) = expect_lparen(toks, pos) {
                return Err(e);
            }
            let (name, line) = match take_identifier(toks, pos) {
                Ok(v) => v,
                Err(e) => {
                    return Err(e);
                },
            };
            let variables = match Self::parse_args(toks, pos) {
                Ok(v) => v,
                Err(e) => {
                    return Err(e);
                },
            };
            out.push(Predicate { name, variables, position: TokenPosition { line } });
        }
    }

    /// Parses `name [:parameters (args)] )` of a compound task
    /// declaration.
    fn parse_task_decl(toks: &Vec<TokenRecord>, pos: &mut usize) -> (r: Result<
        CompoundTask,
        ParsingError,
    >)
        requires
            *old(pos) <= toks@.len(),
        ensures
            *old(pos) <= *final(pos) <= toks@.len(),
    {
        let (name, line) = match take_identifier(toks, pos) {
            Ok(v) => v,
            Err(e) => {
                return Err(e);
            },
        };
        let mut parameters: Vec<Variable> = Vec::new();
        if *pos < toks.len() {
            if let Token::Keyword(KeywordName::Parameters) = toks[*pos].token {
                *pos = *pos + 1;
                if let Err(e) = expect_lparen(toks, pos) {
                    return Err(e);
                }
                parameters = match Self::parse_args(toks, pos) {
                    Ok(v) => v,
                    Err(e) => {
                        return Err(e);
                    },
                };
            }
        }
        if let Err(e) = expect_rparen(toks, pos) {
            return Err(e);
        }
        Ok(CompoundTask { name, parameters, position: TokenPosition { line } })
    }

    /// Parses the body of an `:action` declaration.
    fn parse_action(toks: &Vec<TokenRecord>, pos: &mut usize) -> (r: Result<Action, ParsingError>)
        requires
            *old(pos) <= toks@.len(),
        ensures
            *old(pos) <= *final(pos) <= toks@.len(),
    {
        let (name, line) = match take_identifier(toks, pos) {
            Ok(v) => v,
            Err(e) => {
                return Err(e);
            },
        };
        let mut parameters: Vec<Variable> = Vec::new();
        let mut preconditions: Option<Formula> = None;
        let mut effects: Option<Formula> = None;
        loop
            invariant
                *old(pos) <= *pos <= toks@.len(),
            decreases toks@.len() - *pos,
        {
            if *pos >= toks.len() {
                return Err(err_at(toks, *pos, "an action part or a closing parenthesis"));
            }
            match &toks[*pos].token {
                Token::Punctuator(PunctuationType::RParentheses) => {
                    *pos = *pos + 1;
                    return Ok(
                        Action {
                            name,
                            parameters,
                            preconditions,
                            effects,
                            position: TokenPosition { line },
                        },
                    );
                },
                Token::Keyword(KeywordName::Parameters) => {
                    *pos = *pos + 1;
                    if let Err(e) = expect_lparen(toks, pos) {
                        return Err(e);
                    }
                    parameters = match Self::parse_args(toks, pos) {
                        Ok(v) => v,
                        Err(e) => {
                            return Err(e);
                        },
                    };
                },
                Token::Keyword(KeywordName::Precondition) => {
                    *pos = *pos + 1;
                    preconditions = match Self::parse_formula(toks, pos) {
                        Ok(f) => Some(f),
                        Err(e) => {
                            return Err(e);
                        },
                    };
                },
                Token::Keyword(KeywordName::Effect) => {
                    *pos = *pos + 1;
                    effects = match Self::parse_formula(toks, pos) {
                        Ok(f) => Some(f),
                        Err(e) => {
                            return Err(e);
                        },
                    };
                },
                _ => {
                    return Err(err_at(toks, *pos, "an action part or a closing parenthesis"));
                },
            }
        }
    }

    /// Parses the body of a `:method` declaration.
    fn parse_method(toks: &Vec<TokenRecord>, pos: &mut usize) -> (r: Result<Method, ParsingError>)
        requires
            *old(pos) <= toks@.len(),
        ensures
            *old(pos) <= *final(pos) <= toks@.len(),
    {
        let (name, line) = match take_identifier(toks, pos) {
            Ok(v) => v,
            Err(e) => {
                return Err(e);
            },
        };
        let mut params: Vec<Variable> = Vec::new();
        let mut task_name: Option<String> = None;
        let mut task_terms: Vec<Variable> = Vec::new();
        let mut precondition: Option<Formula> = None;
        let mut tn = TaskNetwork {
            subtasks: Vec::new(),
            orderings: TaskOrdering::Total,
            constraints: None,
        };
        loop
            invariant
                *old(pos) <= *pos <= toks@.len(),
            decreases toks@.len() - *pos,
        {
            if *pos >= toks.len() {
                return Err(err_at(toks, *pos, "a method part or a closing parenthesis"));
            }
            match &toks[*pos].token {
                Token::Punctuator(PunctuationType::RParentheses) => {
                    *pos = *pos + 1;
                    match task_name {
                        Some(task_name) => {
                            return Ok(
                                Method {
                                    name,
                                    params,
                                    task_name,
                                    task_terms,
                                    precondition,
                                    tn,
                                    position: TokenPosition { line },
                                },
                            );
                        },
                        None => {
                            return Err(err_at(toks, *pos, "a decomposed task for the method"));
                        },
                    }
                },
                Token::Keyword(KeywordName::Parameters) => {
                    *pos = *pos + 1;
                    if let Err(e) = expect_lparen(toks, pos) {
                        return Err(e);
                    }
                    params = match Self::parse_args(toks, pos) {
                        Ok(v) => v,
                        Err(e) => {
                            return Err(e);
                        },
                    };
                },
                Token::Keyword(KeywordName::Task) => {
                    *pos = *pos + 1;
                    if let Err(e) = expect_lparen(toks, pos) {
                        return Err(e);
                    }
                    let (tname, _l) = match take_identifier(toks, pos) {
                        Ok(v) => v,
                        Err(e) => {
                            return Err(e);
                        },
                    };
                    let terms = match take_terms(toks, pos) {
                        Ok(t) => t,
                        Err(e) => {
                            return Err(e);
                        },
                    };
                    task_name = Some(tname);
                    task_terms = Vec::new();
                    let mut k: usize = 0;
                    let n_terms = terms.len();
                    while k < n_terms
                        invariant
                            n_terms == terms@.len(),
                            k <= n_terms,
                        decreases n_terms - k,
                    {
                        task_terms.push(Variable::new(terms[k].clone(), None));
                        k += 1;
                    }
                },
                Token::Keyword(KeywordName::Precondition) => {
                    *pos = *pos + 1;
                    precondition = match Self::parse_formula(toks, pos) {
                        Ok(f) => Some(f),
                        Err(e) => {
                            return Err(e);
                        },
                    };
                },
                Token::Keyword(KeywordName::Subtasks) => {
                    *pos = *pos + 1;
                    let parsed = match Self::parse_task_network(toks, pos, false) {
                        Ok(t) => t,
                        Err(e) => {
                            return Err(e);
                        },
                    };
                    tn = TaskNetwork {
                        subtasks: parsed.subtasks,
                        orderings: parsed.orderings,
                        constraints: tn.constraints,
                    };
                },
                Token::Keyword(KeywordName::OrderedSubtasks) => {
                    *pos = *pos + 1;
                    let parsed = match Self::parse_task_network(toks, pos, true) {
                        Ok(t) => t,
                        Err(e) => {
                            return Err(e);
                        },
                    };
                    tn = TaskNetwork {
                        subtasks: parsed.subtasks,
                        orderings: parsed.orderings,
                        constraints: tn.constraints,
                    };
                },
                Token::Keyword(KeywordName::Ordering) => {
                    *pos = *pos + 1;
                    let pairs = match Self::parse_ordering(toks, pos) {
                        Ok(p) => p,
                        Err(e) => {
                            return Err(e);
                        },
                    };
                    tn = TaskNetwork {
                        subtasks: tn.subtasks,
                        orderings: TaskOrdering::Partial(pairs),
                        constraints: tn.constraints,
                    };
                },
                Token::Keyword(KeywordName::Constraints) => {
                    *pos = *pos + 1;
                    let cs = match Self::parse_constraints(toks, pos) {
                        Ok(c) => c,
                        Err(e) => {
                            return Err(e);
                        },
                    };
                    tn = TaskNetwork {
                        subtasks: tn.subtasks,
                        orderings: tn.orderings,
                        constraints: Some(cs),
                    };
                },
                _ => {
                    return Err(err_at(toks, *pos, "a method part or a closing parenthesis"));
                },
            }
        }
    }

    /// Parses the sections of a problem body until the closing
    /// parenthesis or the end of the input.
    fn parse_problem(toks: &Vec<TokenRecord>, pos: &mut usize, name: String) -> (r: Result<
        ProblemAST,
        ParsingError,
    >)
        requires
            *old(pos) <= toks@.len(),
        ensures
            *old(pos) <= *final(pos) <= toks@.len(),
    {
        let mut p = ProblemAST {
            name,
            domain_name: String::new(),
            requirements: Vec::new(),
            objects: Vec::new(),
            object_lines: Vec::new(),
            init_state: Vec::new(),
            init_tn: None,
        };
        loop
            invariant
                *old(pos) <= *pos <= toks@.len(),
            decreases toks@.len() - *pos,
        {
            if *pos >= toks.len() {
                return Ok(p);
            }
            if peek_rparen(toks, *pos) {
                *pos = *pos + 1;
                return Ok(p);
            }
            if let Err(e) = expect_lparen(toks, pos) {
                return Err(e);
            }
            if *pos >= toks.len() {
                return Err(err_at(toks, *pos, "a section keyword"));
            }
            match &toks[*pos].token {
                Token::Keyword(KeywordName::Domain) => {
                    *pos = *pos + 1;
                    let (dn, _l) = match take_identifier(toks, pos) {
                        Ok(v) => v,
                        Err(e) => {
                            return Err(e);
                        },
                    };
                    p.domain_name = dn;
                    if let Err(e) = expect_rparen(toks, pos) {
                        return Err(e);
                    }
                },
                Token::Keyword(KeywordName::Requirements) => {
                    *pos = *pos + 1;
                    p.requirements = match Self::parse_requirements(toks, pos) {
                        Ok(v) => v,
                        Err(e) => {
                            return Err(e);
                        },
                    };
                },
                Token::Keyword(KeywordName::Objects) => {
                    *pos = *pos + 1;
                    match Self::parse_args_lined(toks, pos) {
                        Ok((vars, vlines)) => {
                            p.objects = vars;
                            p.object_lines = vlines;
                        },
                        Err(e) => {
                            return Err(e);
                        },
                    };
                },
                Token::Keyword(KeywordName::Init) => {
                    *pos = *pos + 1;
                    if let Err(e) = Self::parse_init_state(toks, pos, &mut p.init_state) {
                        return Err(e);
                    }
                },
                Token::Keyword(KeywordName::HTN) => {
                    *pos = *pos + 1;
                    p.init_tn = match Self::parse_init_tn(toks, pos) {
                        Ok(t) => Some(t),
                        Err(e) => {
                            return Err(e);
                        },
                    };
                },
                _ => {
                    return Err(err_at(toks, *pos, "a section keyword"));
                },
            }
        }
    }

    /// Parses the ground atoms of an `:init` section up to and
    /// including the section's closing parenthesis.
    fn parse_init_state(
        toks: &Vec<TokenRecord>,
        pos: &mut usize,
        out: &mut Vec<Predicate>,
    ) -> (r: Result<(), ParsingError>)
        requires
            *old(pos) <= toks@.len(),
        ensures
            *old(pos) <= *final(pos) <= toks@.len(),
    {
        loop
            invariant
                *old(pos) <= *pos <= toks@.len(),
            decreases toks@.len() - *pos,
        {
            if *pos >= toks.len() {
                return Ok(());
            }
            if peek_rparen(toks, *pos) {
                *pos = *pos + 1;
                return Ok(());
            }
            if let Err(e) = expect_lparen(toks, pos) {
                return Err(e);
            }
            let (name, line) = match take_identifier(toks, pos) {
                Ok(v) => v,
                Err(e) => {
                    return Err(e);
                },
            };
            let terms = match take_terms(toks, pos) {
                Ok(t) => t,
                Err(e) => {
                    return Err(e);
                },
            };
            let mut variables: Vec<Variable> = Vec::new();
            let mut k: usize = 0;
            let n_terms = terms.len();
            while k < n_terms
                invariant
                    n_terms == terms@.len(),
                    k <= n_terms,
                decreases n_terms - k,
            {
                variables.push(Variable::new(terms[k].clone(), None));
                k += 1;
            }
            out.push(Predicate { name, variables, position: TokenPosition { line } });
        }
    }

    /// Parses the body of an `:htn` section: optional parameters, the
    /// initial task network, orderings and constraints.
    fn parse_init_tn(toks: &Vec<TokenRecord>, pos: &mut usize) -> (r: Result<
        InitTaskNetwork,
        ParsingError,
    >)
        requires
            *old(pos) <= toks@.len(),
        ensures
            *old(pos) <= *final(pos) <= toks@.len(),
    {
        let mut parameters: Option<Vec<Variable>> = None;
        let mut tn = TaskNetwork {
            subtasks: Vec::new(),
            orderings: TaskOrdering::Total,
            constraints: None,
        };
        loop
            invariant
                *old(pos) <= *pos <= toks@.len(),
            decreases toks@.len() - *pos,
        {
            if *pos >= toks.len() {
                return Ok(InitTaskNetwork { parameters, tn });
            }
            match &toks[*pos].token {
                Token::Punctuator(PunctuationType::RParentheses) => {
                    *pos = *pos + 1;
                    return Ok(InitTaskNetwork { parameters, tn });
                },
                Token::Keyword(KeywordName::Parameters) => {
                    *pos = *pos + 1;
                    if let Err(e) = expect_lparen(toks, pos) {
                        return Err(e);
                    }
                    parameters = match Self::parse_args(toks, pos) {
                        Ok(v) => Some(v),
                        Err(e) => {
                            return Err(e);
                        },
                    };
                },
                Token::Keyword(KeywordName::Subtasks) => {
                    *pos = *pos + 1;
                    let parsed = match Self::parse_task_network(toks, pos, false) {
                        Ok(t) => t,
                        Err(e) => {
                            return Err(e);
                        },
                    };
                    tn = TaskNetwork {
                        subtasks: parsed.subtasks,
                        orderings: parsed.orderings,
                        constraints: tn.constraints,
                    };
                },
                Token::Keyword(KeywordName::OrderedSubtasks) => {
                    *pos = *pos + 1;
                    let parsed = match Self::parse_task_network(toks, pos, true) {
                        Ok(t) => t,
                        Err(e) => {
                            return Err(e);
                        },
                    };
                    tn = TaskNetwork {
                        subtasks: parsed.subtasks,
                        orderings: parsed.orderings,
                        constraints: tn.constraints,
                    };
                },
                Token::Keyword(KeywordName::Ordering) => {
                    *pos = *pos + 1;
                    let pairs = match Self::parse_ordering(toks, pos) {
                        Ok(v) => v,
                        Err(e) => {
                            return Err(e);
                        },
                    };
                    tn = TaskNetwork {
                        subtasks: tn.subtasks,
                        orderings: TaskOrdering::Partial(pairs),
                        constraints: tn.constraints,
                    };
                },
                Token::Keyword(KeywordName::Constraints) => {
                    *pos = *pos + 1;
                    let cs = match Self::parse_constraints(toks, pos) {
                        Ok(v) => v,
                        Err(e) => {
                            return Err(e);
                        },
                    };
                    tn = TaskNetwork {
                        subtasks: tn.subtasks,
                        orderings: tn.orderings,
                        constraints: Some(cs),
                    };
                },
                _ => {
                    return Err(err_at(toks, *pos, "a task network part or a closing parenthesis"));
                },
            }
        }
    }
}

} // verus!
