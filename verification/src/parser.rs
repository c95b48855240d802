//! A recursive-descent parser for the lambda calculus language: it turns the
//! token sequence into the ordered sequence of top-level instructions, or
//! reports the token position at which parsing failed.

use vstd::prelude::*;
use crate::lexer::{SpecTokenType, TokenType};
use crate::reduce::{Instruction, SpecInstruction};
use crate::term::{LambdaTerm, SpecTerm};

verus! {

/// The models of a vector of token types.
pub open spec fn kinds_of(s: Seq<TokenType>) -> Seq<SpecTokenType> {
    s.map_values(|t: TokenType| t@)
}

/// The models of a vector of instructions.
pub open spec fn instruction_views(s: Seq<Instruction>) -> Seq<SpecInstruction> {
    s.map_values(|x: Instruction| x@)
}

/// A term parse from position `i`, bounded by `fuel` nested productions; a
/// failure carries the position of the offending token. The grammar:
/// a term is an identifier, `\` identifier `.` term, or `(` term term `)`.
pub open spec fn spec_parse_term_fuel(toks: Seq<SpecTokenType>, i: int, fuel: nat) -> Result<
    (SpecTerm, int),
    int,
>
    decreases fuel,
{
    if fuel == 0 {
        Err(i)
    } else if i < 0 || i >= toks.len() {
        Err(i)
    } else {
        match toks[i] {
            SpecTokenType::Identifier(name) => Ok((SpecTerm::Var(name), i + 1)),
            SpecTokenType::Lambda => {
                if i + 1 < toks.len() && toks[i + 1] is Identifier {
                    if i + 2 < toks.len() && toks[i + 2] is Dot {
                        match spec_parse_term_fuel(toks, i + 3, (fuel - 1) as nat) {
                            Ok((body, j)) => Ok(
                                (
                                    SpecTerm::Abs(toks[i + 1]->Identifier_0, Box::new(body)),
                                    j,
                                ),
                            ),
                            Err(e) => Err(e),
                        }
                    } else {
                        Err(i + 2)
                    }
                } else {
                    Err(i + 1)
                }
            },
            SpecTokenType::LParen => {
                match spec_parse_term_fuel(toks, i + 1, (fuel - 1) as nat) {
                    Ok((func, j)) => {
                        match spec_parse_term_fuel(toks, j, (fuel - 1) as nat) {
                            Ok((arg, k)) => {
                                if k < toks.len() && toks[k] is RParen {
                                    Ok((SpecTerm::App(Box::new(func), Box::new(arg)), k + 1))
                                } else {
                                    Err(k)
                                }
                            },
                            Err(e) => Err(e),
                        }
                    },
                    Err(e) => Err(e),
                }
            },
            _ => Err(i),
        }
    }
}

/// A successful term parse consumes at least one token and stays within the
/// sequence.
pub proof fn lemma_parse_term_progress(toks: Seq<SpecTokenType>, i: int, fuel: nat)
    ensures
        spec_parse_term_fuel(toks, i, fuel) is Ok ==> i < spec_parse_term_fuel(
            toks,
            i,
            fuel,
        )->Ok_0.1 <= toks.len(),
    decreases fuel,
{
    if fuel > 0 && 0 <= i && i < toks.len() {
        match toks[i] {
            SpecTokenType::Lambda => {
                lemma_parse_term_progress(toks, i + 3, (fuel - 1) as nat);
            },
            SpecTokenType::LParen => {
                lemma_parse_term_progress(toks, i + 1, (fuel - 1) as nat);
                if spec_parse_term_fuel(toks, i + 1, (fuel - 1) as nat) is Ok {
                    let j = spec_parse_term_fuel(toks, i + 1, (fuel - 1) as nat)->Ok_0.1;
                    lemma_parse_term_progress(toks, j, (fuel - 1) as nat);
                }
            },
            _ => {},
        }
    }
}

/// With fuel beyond the tokens that remain, the amount of fuel does not
/// matter.
pub proof fn lemma_parse_term_fuel_irrelevant(toks: Seq<SpecTokenType>, i: int, f1: nat, f2: nat)
    requires
        f1 > toks.len() - i,
        f2 > toks.len() - i,
    ensures
        spec_parse_term_fuel(toks, i, f1) == spec_parse_term_fuel(toks, i, f2),
    decreases f1,
{
    if f1 > 0 && f2 > 0 && 0 <= i && i < toks.len() {
        match toks[i] {
            SpecTokenType::Lambda => {
                lemma_parse_term_fuel_irrelevant(toks, i + 3, (f1 - 1) as nat, (f2 - 1) as nat);
            },
            SpecTokenType::LParen => {
                lemma_parse_term_fuel_irrelevant(toks, i + 1, (f1 - 1) as nat, (f2 - 1) as nat);
                lemma_parse_term_progress(toks, i + 1, (f1 - 1) as nat);
                if spec_parse_term_fuel(toks, i + 1, (f1 - 1) as nat) is Ok {
                    let j = spec_parse_term_fuel(toks, i + 1, (f1 - 1) as nat)->Ok_0.1;
                    lemma_parse_term_fuel_irrelevant(toks, j, (f1 - 1) as nat, (f2 - 1) as nat);
                }
            },
            _ => {},
        }
    }
}

/// A term parse from position `i`, with fuel enough for the whole sequence.
pub open spec fn spec_parse_term(toks: Seq<SpecTokenType>, i: int) -> Result<
    (SpecTerm, int),
    int,
> {
    spec_parse_term_fuel(toks, i, (toks.len() + 1) as nat)
}

/// A top-level statement: `let` identifier `=` term, or `eval` term.
pub open spec fn spec_parse_stmt(toks: Seq<SpecTokenType>, i: int) -> Result<
    (SpecInstruction, int),
    int,
> {
    if i < 0 || i >= toks.len() {
        Err(i)
    } else {
        match toks[i] {
            SpecTokenType::Let => {
                if i + 1 < toks.len() && toks[i + 1] is Identifier {
                    if i + 2 < toks.len() && toks[i + 2] is Equals {
                        match spec_parse_term(toks, i + 3) {
                            Ok((t, j)) => Ok(
                                (SpecInstruction::Let(toks[i + 1]->Identifier_0, t), j),
                            ),
                            Err(e) => Err(e),
                        }
                    } else {
                        Err(i + 2)
                    }
                } else {
                    Err(i + 1)
                }
            },
            SpecTokenType::Eval => {
                match spec_parse_term(toks, i + 1) {
                    Ok((t, j)) => Ok((SpecInstruction::Eval(t), j)),
                    Err(e) => Err(e),
                }
            },
            _ => Err(i),
        }
    }
}

/// A successful statement parse consumes at least one token and stays within
/// the sequence.
pub proof fn lemma_parse_stmt_progress(toks: Seq<SpecTokenType>, i: int)
    ensures
        spec_parse_stmt(toks, i) is Ok ==> i < spec_parse_stmt(toks, i)->Ok_0.1 <= toks.len(),
{
    if 0 <= i && i < toks.len() {
        lemma_parse_term_progress(toks, i + 3, (toks.len() + 1) as nat);
        lemma_parse_term_progress(toks, i + 1, (toks.len() + 1) as nat);
    }
}

/// The first position at or after `i` holding no newline token.
pub open spec fn spec_skip_newlines(toks: Seq<SpecTokenType>, i: int) -> int
    decreases toks.len() - i when 0 <= i <= toks.len()
{
    if i >= toks.len() {
        i
    } else if toks[i] is NewLine {
        spec_skip_newlines(toks, i + 1)
    } else {
        i
    }
}

/// Where a newline skip ends up.
pub proof fn lemma_skip_newlines_bounds(toks: Seq<SpecTokenType>, i: int)
    requires
        0 <= i <= toks.len(),
    ensures
        i <= spec_skip_newlines(toks, i) <= toks.len(),
    decreases toks.len() - i,
{
    if i < toks.len() && toks[i] is NewLine {
        lemma_skip_newlines_bounds(toks, i + 1);
    }
}

/// The whole program from position `i` on: statements separated by one or
/// more newlines, with newlines allowed before the first and after the last.
pub open spec fn spec_parse_program_from(toks: Seq<SpecTokenType>, i: int) -> Result<
    Seq<SpecInstruction>,
    int,
>
    decreases toks.len() - i when 0 <= i <= toks.len()
    via spec_parse_program_from_decreases
{
    let i1 = spec_skip_newlines(toks, i);
    if i1 >= toks.len() {
        Ok(Seq::empty())
    } else {
        match spec_parse_stmt(toks, i1) {
            Err(e) => Err(e),
            Ok((inst, j)) => {
                let j1 = spec_skip_newlines(toks, j);
                if j1 >= toks.len() {
                    Ok(seq![inst])
                } else if j1 == j {
                    Err(j)
                } else {
                    match spec_parse_program_from(toks, j1) {
                        Ok(rest) => Ok(seq![inst] + rest),
                        Err(e) => Err(e),
                    }
                }
            },
        }
    }
}

#[via_fn]
proof fn spec_parse_program_from_decreases(toks: Seq<SpecTokenType>, i: int) {
    if 0 <= i <= toks.len() {
        lemma_skip_newlines_bounds(toks, i);
        let i1 = spec_skip_newlines(toks, i);
        if i1 < toks.len() {
            lemma_parse_stmt_progress(toks, i1);
            if spec_parse_stmt(toks, i1) is Ok {
                let j = spec_parse_stmt(toks, i1)->Ok_0.1;
                lemma_skip_newlines_bounds(toks, j);
            }
        }
    }
}

/// The whole program.
pub open spec fn spec_parse_program(toks: Seq<SpecTokenType>) -> Result<
    Seq<SpecInstruction>,
    int,
> {
    spec_parse_program_from(toks, 0)
}

/// A structured parse failure: the index of the token at which parsing
/// stopped, one past the last token when the input ended too soon.
#[derive(Debug, Clone, PartialEq)]
pub struct ParseError {
    /// The token index at which parsing failed.
    pub position: usize,
}

/// Parse one term starting at token `i`.
fn parse_term_at(tokens: &Vec<TokenType>, i: usize) -> (r: Result<(LambdaTerm, usize), usize>)
    requires
        i <= tokens@.len(),
    ensures
        ({
            let s = spec_parse_term(kinds_of(tokens@), i as int);
            match r {
                Ok((t, j)) => s is Ok && s->Ok_0.0 == t@ && s->Ok_0.1 == j as int && j
                    <= tokens@.len(),
                Err(e) => s is Err && s->Err_0 == e as int,
            }
        }),
    decreases tokens@.len() - i,
{
    let ghost ks = kinds_of(tokens@);
    let ghost full_fuel: nat = (ks.len() + 1) as nat;
    let n = tokens.len();
    if i >= n {
        return Err(i);
    }
    proof {
        assert(ks[i as int] == tokens@[i as int]@);
    }
    match &tokens[i] {
        TokenType::Identifier(name) => Ok((LambdaTerm::Variable(name.clone()), i + 1)),
        TokenType::Lambda => {
            if i + 1 < n {
                proof {
                    assert(ks[i as int + 1] == tokens@[i as int + 1]@);
                }
                match &tokens[i + 1] {
                    TokenType::Identifier(param) => {
                        if i + 2 < n {
                            proof {
                                assert(ks[i as int + 2] == tokens@[i as int + 2]@);
                            }
                            match &tokens[i + 2] {
                                TokenType::Dot => {
                                    proof {
                                        lemma_parse_term_fuel_irrelevant(
                                            ks,
                                            i as int + 3,
                                            full_fuel,
                                            (full_fuel - 1) as nat,
                                        );
                                    }
                                    match parse_term_at(tokens, i + 3) {
                                        Ok((body, j)) => Ok(
                                            (
                                                LambdaTerm::LambdaAbstraction(
                                                    param.clone(),
                                                    Box::new(body),
                                                ),
                                                j,
                                            ),
                                        ),
                                        Err(e) => Err(e),
                                    }
                                },
                                _ => Err(i + 2),
                            }
                        } else {
                            Err(i + 2)
                        }
                    },
                    _ => Err(i + 1),
                }
            } else {
                Err(i + 1)
            }
        },
        TokenType::LParen => {
            proof {
                lemma_parse_term_fuel_irrelevant(
                    ks,
                    i as int + 1,
                    full_fuel,
                    (full_fuel - 1) as nat,
                );
            }
            match parse_term_at(tokens, i + 1) {
                Ok((func, j)) => {
                    proof {
                        lemma_parse_term_progress(ks, i as int + 1, full_fuel);
                        lemma_parse_term_fuel_irrelevant(
                            ks,
                            j as int,
                            full_fuel,
                            (full_fuel - 1) as nat,
                        );
                    }
                    match parse_term_at(tokens, j) {
                        Ok((arg, k)) => {
                            if k < n {
                                proof {
                                    assert(ks[k as int] == tokens@[k as int]@);
                                }
                                match &tokens[k] {
                                    TokenType::RParen => Ok(
                                        (
                                            LambdaTerm::Application(
                                                Box::new(func),
                                                Box::new(arg),
                                            ),
                                            k + 1,
                                        ),
                                    ),
                                    _ => Err(k),
                                }
                            } else {
                                Err(k)
                            }
                        },
                        Err(e) => Err(e),
                    }
                },
                Err(e) => Err(e),
            }
        },
        _ => Err(i),
    }
}

/// Parse one top-level statement starting at token `i`.
fn parse_stmt_at(tokens: &Vec<TokenType>, i: usize) -> (r: Result<
    (Instruction, usize),
    usize,
>)
    requires
        i <= tokens@.len(),
    ensures
        ({
            let s = spec_parse_stmt(kinds_of(tokens@), i as int);
            match r {
                Ok((inst, j)) => s is Ok && s->Ok_0.0 == inst@ && s->Ok_0.1 == j as int && j
                    <= tokens@.len(),
                Err(e) => s is Err && s->Err_0 == e as int,
            }
        }),
{
    let ghost ks = kinds_of(tokens@);
    let n = tokens.len();
    if i >= n {
        return Err(i);
    }
    proof {
        assert(ks[i as int] == tokens@[i as int]@);
        lemma_parse_term_progress(ks, i as int + 3, (ks.len() + 1) as nat);
        lemma_parse_term_progress(ks, i as int + 1, (ks.len() + 1) as nat);
    }
    match &tokens[i] {
        TokenType::Let => {
            if i + 1 < n {
                proof {
                    assert(ks[i as int + 1] == tokens@[i as int + 1]@);
                }
                match &tokens[i + 1] {
                    TokenType::Identifier(name) => {
                        if i + 2 < n {
                            proof {
                                assert(ks[i as int + 2] == tokens@[i as int + 2]@);
                            }
                            match &tokens[i + 2] {
                                TokenType::Equals => {
                                    match parse_term_at(tokens, i + 3) {
                                        Ok((t, j)) => Ok(
                                            (
                                                Instruction::Let {
                                                    name: name.clone(),
                                                    lambda_term: t,
                                                },
                                                j,
                                            ),
                                        ),
                                        Err(e) => Err(e),
                                    }
                                },
                                _ => Err(i + 2),
                            }
                        } else {
                            Err(i + 2)
                        }
                    },
                    _ => Err(i + 1),
                }
            } else {
                Err(i + 1)
            }
        },
        TokenType::Eval => {
            match parse_term_at(tokens, i + 1) {
                Ok((t, j)) => Ok((Instruction::Eval(t), j)),
                Err(e) => Err(e),
            }
        },
        _ => Err(i),
    }
}

/// The first token index at or after `i` that is no newline.
fn skip_newlines_at(tokens: &Vec<TokenType>, i: usize) -> (r: usize)
    requires
        i <= tokens@.len(),
    ensures
        r as int == spec_skip_newlines(kinds_of(tokens@), i as int),
        i <= r <= tokens@.len(),
{
    let ghost ks = kinds_of(tokens@);
    let n = tokens.len();
    let mut j: usize = i;
    while j < n
        invariant
            ks == kinds_of(tokens@),
            n == tokens@.len(),
            i <= j <= n,
            spec_skip_newlines(ks, i as int) == spec_skip_newlines(ks, j as int),
        ensures
            i <= j <= n,
            j as int == spec_skip_newlines(ks, i as int),
        decreases n - j,
    {
        proof {
            assert(ks[j as int] == tokens@[j as int]@);
        }
        match &tokens[j] {
            TokenType::NewLine => {
                j += 1;
            },
            _ => {
                break;
            },
        }
    }
    j
}

/// Parse a whole program: top-level statements separated by newlines. A
/// failure names the token at which parsing stopped.
pub fn parse_program(tokens: &Vec<TokenType>) -> (r: Result<Vec<Instruction>, ParseError>)
    ensures
        ({
            let s = spec_parse_program(kinds_of(tokens@));
            match r {
                Ok(instrs) => s is Ok && instruction_views(instrs@) == s->Ok_0,
                Err(e) => s is Err && s->Err_0 == e.position as int,
            }
        }),
{
    let ghost ks = kinds_of(tokens@);
    let n = tokens.len();
    let mut built: Vec<Instruction> = Vec::new();
    let mut cur: usize = 0;
    proof {
        assert(instruction_views(built@) =~= Seq::<SpecInstruction>::empty());
    }
    loop
        invariant
            ks == kinds_of(tokens@),
            n == tokens@.len(),
            cur <= n,
            spec_parse_program_from(ks, 0) == (match spec_parse_program_from(ks, cur as int) {
                Ok(rest) => Ok::<Seq<SpecInstruction>, int>(instruction_views(built@) + rest),
                Err(e) => Err::<Seq<SpecInstruction>, int>(e),
            }),
        decreases n - cur,
    {
        let ghost built_before = built@;
        let i1 = skip_newlines_at(tokens, cur);
        if i1 >= n {
            proof {
                assert(spec_parse_program_from(ks, cur as int) == Ok::<
                    Seq<SpecInstruction>,
                    int,
                >(Seq::empty()));
                assert(instruction_views(built@) + Seq::<SpecInstruction>::empty()
                    =~= instruction_views(built@));
            }
            return Ok(built);
        }
        match parse_stmt_at(tokens, i1) {
            Err(e) => {
                return Err(ParseError { position: e });
            },
            Ok((inst, j)) => {
                proof {
                    lemma_parse_stmt_progress(ks, i1 as int);
                }
                let j1 = skip_newlines_at(tokens, j);
                built.push(inst);
                proof {
                    assert(instruction_views(built@) =~= instruction_views(built_before)
                        + seq![inst@]);
                }
                if j1 >= n {
                    proof {
                        assert(spec_parse_program_from(ks, cur as int) == Ok::<
                            Seq<SpecInstruction>,
                            int,
                        >(seq![inst@]));
                        assert(instruction_views(built_before) + seq![inst@]
                            =~= instruction_views(built@));
                    }
                    return Ok(built);
                }
                if j1 == j {
                    return Err(ParseError { position: j });
                }
                proof {
                    if spec_parse_program_from(ks, j1 as int) is Ok {
                        let rest = spec_parse_program_from(ks, j1 as int)->Ok_0;
                        assert(instruction_views(built_before) + (seq![inst@] + rest)
                            =~= instruction_views(built@) + rest);
                    }
                }
                cur = j1;
            },
        }
    }
}

} // verus!
