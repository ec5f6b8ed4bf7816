use crate::lexer::{lex, symbols, tokenize, Symbol, Token};
use crate::proposition::{Formula, Proposition};
use crate::prover::formulas;
use crate::raa_tt_grammar::{RaaTt, RaaTtGrammar};
use vstd::prelude::*;
use vstd::string::StringSliceAdditionalSpecFns;

verus! {

/// Why a text is no sequence of propositions.
#[derive(Debug, Clone, Copy, PartialEq, Eq, Structural)]
pub enum SyntaxFault {
    /// The byte at this place starts neither a token nor a blank nor a
    /// comment.
    UnexpectedCharacter(usize),
    /// The token with this number, counted from 0, cannot stand where it
    /// stands.
    UnexpectedToken(usize),
    /// The text ends where a proposition has to go on.
    UnexpectedEnd,
}

/// A text that could not be parsed.
#[derive(Debug)]
pub struct ParseError {
    /// The name under which the text was handed in.
    pub file_name: String,
    pub fault: SyntaxFault,
}

/// The weakest operator and the highest level of the grammar: `<->`.
pub const TOP_LEVEL: u8 = 4;

/// The operator of a level of the grammar: `&` binds strongest (level 1),
/// then `|`, then `->`, then `<->` (level 4).
pub open spec fn operator(level: nat) -> Symbol {
    if level == 1 {
        Symbol::And
    } else if level == 2 {
        Symbol::Or
    } else if level == 3 {
        Symbol::Cond
    } else {
        Symbol::BiCond
    }
}

/// Two formulas joined by the operator of a level.
pub open spec fn join(level: nat, left: Formula, right: Formula) -> Formula {
    if level == 1 {
        left.and(right)
    } else if level == 2 {
        left.or(right)
    } else if level == 3 {
        left.implies(right)
    } else {
        left.iff(right)
    }
}

/// The formula that starts at the token `at`, with the place behind it, or
/// the place of the token that cannot stand where it stands (the number of
/// tokens, if the text ends too early).
///
/// At level 0 a formula is a factor: a name, a factor after `!`, or a
/// formula of the top level in parentheses. At a higher level it is a
/// formula of the level below, followed by any number of formulas of the
/// level below with the operator of the level before each; they are joined
/// from the left.
pub open spec fn parse_level(tokens: Seq<Symbol>, level: nat, at: int) -> Result<(Formula, int), int>
    decreases tokens.len() - at, 2 * level + 1,
{
    if at < 0 || at >= tokens.len() {
        Err(tokens.len() as int)
    } else if level == 0 {
        match tokens[at] {
            Symbol::Var(name) => Ok((Formula::Atom(name), at + 1)),
            Symbol::Not => match parse_level(tokens, 0, at + 1) {
                Ok((inner, next)) => Ok((inner.not(), next)),
                Err(place) => Err(place),
            },
            Symbol::LPar => match parse_level(tokens, TOP_LEVEL as nat, at + 1) {
                Ok((inner, next)) => if 0 <= next < tokens.len() && tokens[next] == Symbol::RPar {
                    Ok((inner, next + 1))
                } else if 0 <= next < tokens.len() {
                    Err(next)
                } else {
                    Err(tokens.len() as int)
                },
                Err(place) => Err(place),
            },
            _ => Err(at),
        }
    } else {
        match parse_level(tokens, (level - 1) as nat, at) {
            Ok((left, next)) => if at <= next <= tokens.len() {
                parse_rest(tokens, level, left, next)
            } else {
                Err(at)
            },
            Err(place) => Err(place),
        }
    }
}

/// The formula that `left` becomes by what follows at the token `at`: as
/// long as the operator of the level stands there, the formula of the level
/// below behind it is joined to the right.
pub open spec fn parse_rest(tokens: Seq<Symbol>, level: nat, left: Formula, at: int) -> Result<
    (Formula, int),
    int,
>
    decreases tokens.len() - at, 2 * level,
{
    if level >= 1 && 0 <= at < tokens.len() && tokens[at] == operator(level) {
        match parse_level(tokens, (level - 1) as nat, at + 1) {
            Ok((right, next)) => if at < next <= tokens.len() {
                parse_rest(tokens, level, join(level, left, right), next)
            } else {
                Err(at)
            },
            Err(place) => Err(place),
        }
    } else {
        Ok((left, at))
    }
}

/// The formulas that the tokens from `at` on are, one after the other.
pub open spec fn parse_all(tokens: Seq<Symbol>, at: int) -> Result<Seq<Formula>, int>
    decreases tokens.len() - at,
{
    if at < 0 || at >= tokens.len() {
        Ok(Seq::empty())
    } else {
        match parse_level(tokens, TOP_LEVEL as nat, at) {
            Ok((formula, next)) => if at < next <= tokens.len() {
                match parse_all(tokens, next) {
                    Ok(rest) => Ok(seq![formula] + rest),
                    Err(place) => Err(place),
                }
            } else {
                Err(at)
            },
            Err(place) => Err(place),
        }
    }
}

/// The formulas that a text holds, or why it holds none.
pub open spec fn parse_text(bytes: Seq<u8>) -> Result<Seq<Formula>, SyntaxFault> {
    match lex(bytes) {
        Err(place) => Err(SyntaxFault::UnexpectedCharacter(place as usize)),
        Ok(tokens) => match parse_all(tokens, 0) {
            Ok(list) => Ok(list),
            Err(place) => if place >= tokens.len() {
                Err(SyntaxFault::UnexpectedEnd)
            } else {
                Err(SyntaxFault::UnexpectedToken(place as usize))
            },
        },
    }
}

/// Decides whether a token is the operator of a level.
fn is_operator(token: &Token, level: u8) -> (yes: bool)
    requires
        1 <= level <= TOP_LEVEL,
    ensures
        yes == (token@ == operator(level as nat)),
{
    match token {
        Token::And => level == 1,
        Token::Or => level == 2,
        Token::Cond => level == 3,
        Token::BiCond => level == 4,
        _ => false,
    }
}

/// Joins two propositions by the operator of a level.
fn join_propositions(level: u8, left: Proposition, right: Proposition) -> (joined: Proposition)
    requires
        1 <= level <= TOP_LEVEL,
    ensures
        joined@ == join(level as nat, left@, right@),
{
    if level == 1 {
        Proposition::conjunction(left, right)
    } else if level == 2 {
        Proposition::disjunction(left, right)
    } else if level == 3 {
        Proposition::implication(left, right)
    } else {
        Proposition::bi_implication(left, right)
    }
}

/// Parses the proposition of a level that starts at the token `at`.
pub fn parse_proposition(tokens: &Vec<Token>, level: u8, at: usize) -> (result: Result<
    (Proposition, usize),
    usize,
>)
    requires
        level <= TOP_LEVEL,
        at <= tokens.len(),
    ensures
        match result {
            Ok(found) => parse_level(symbols(tokens@), level as nat, at as int) == Ok::<
                (Formula, int),
                int,
            >((found.0@, found.1 as int)) && at < found.1 <= tokens.len(),
            Err(place) => parse_level(symbols(tokens@), level as nat, at as int) == Err::<
                (Formula, int),
                int,
            >(place as int) && place <= tokens.len(),
        },
    decreases tokens.len() - at, level,
{
    let ghost all = symbols(tokens@);
    if at >= tokens.len() {
        return Err(tokens.len());
    }
    assert(all[at as int] == tokens@[at as int]@);
    if level == 0 {
        match &tokens[at] {
            Token::Var(name) => Ok((Proposition::Atom(name.clone()), at + 1)),
            Token::Not => match parse_proposition(tokens, 0, at + 1) {
                Ok((inner, next)) => Ok((Proposition::negation(inner), next)),
                Err(place) => Err(place),
            },
            Token::LPar => match parse_proposition(tokens, TOP_LEVEL, at + 1) {
                Ok((inner, next)) => {
                    if next < tokens.len() {
                        assert(all[next as int] == tokens@[next as int]@);
                        match &tokens[next] {
                            Token::RPar => Ok((inner, next + 1)),
                            _ => Err(next),
                        }
                    } else {
                        Err(tokens.len())
                    }
                },
                Err(place) => Err(place),
            },
            _ => Err(at),
        }
    } else {
        let (mut left, mut next) = match parse_proposition(tokens, level - 1, at) {
            Ok(found) => found,
            Err(place) => { return Err(place); },
        };
        while next < tokens.len() && is_operator(&tokens[next], level)
            invariant
                1 <= level <= TOP_LEVEL,
                at < next <= tokens.len(),
                all == symbols(tokens@),
                parse_level(all, level as nat, at as int) == parse_rest(
                    all,
                    level as nat,
                    left@,
                    next as int,
                ),
            decreases tokens.len() - next,
        {
            assert(all[next as int] == tokens@[next as int]@);
            let (right, behind) = match parse_proposition(tokens, level - 1, next + 1) {
                Ok(found) => found,
                Err(place) => { return Err(place); },
            };
            left = join_propositions(level, left, right);
            next = behind;
        }
        proof {
            if next < tokens.len() {
                assert(all[next as int] == tokens@[next as int]@);
            }
        }
        Ok((left, next))
    }
}

/// Parses the propositions that a list of tokens is made of.
pub fn parse_propositions(tokens: &Vec<Token>) -> (result: Result<Vec<Proposition>, usize>)
    ensures
        match result {
            Ok(list) => parse_all(symbols(tokens@), 0) == Ok::<Seq<Formula>, int>(
                formulas(list@),
            ),
            Err(place) => parse_all(symbols(tokens@), 0) == Err::<Seq<Formula>, int>(
                place as int,
            ) && place <= tokens.len(),
        },
{
    let ghost all = symbols(tokens@);
    let mut list: Vec<Proposition> = Vec::new();
    let mut at: usize = 0;
    proof {
        lemma_behind_empty(parse_all(all, 0));
        assert(formulas(list@) =~= Seq::<Formula>::empty());
    }
    while at < tokens.len()
        invariant
            at <= tokens.len(),
            all == symbols(tokens@),
            parse_all(all, 0) == behind(formulas(list@), parse_all(all, at as int)),
        decreases tokens.len() - at,
    {
        let ghost before = formulas(list@);
        match parse_proposition(tokens, TOP_LEVEL, at) {
            Ok((proposition, next)) => {
                list.push(proposition);
                proof {
                    assert(formulas(list@) =~= before + seq![proposition@]);
                    lemma_behind_behind(before, seq![proposition@], parse_all(all, next as int));
                }
                at = next;
            },
            Err(place) => {
                return Err(place);
            },
        }
    }
    proof {
        assert(formulas(list@) + Seq::<Formula>::empty() =~= formulas(list@));
    }
    Ok(list)
}

/// The formulas in front of what the rest of the tokens yields.
pub open spec fn behind(front: Seq<Formula>, rest: Result<Seq<Formula>, int>) -> Result<
    Seq<Formula>,
    int,
> {
    match rest {
        Ok(list) => Ok(front + list),
        Err(place) => Err(place),
    }
}

/// Nothing in front changes nothing.
pub proof fn lemma_behind_empty(rest: Result<Seq<Formula>, int>)
    ensures
        behind(Seq::empty(), rest) == rest,
{
    match rest {
        Ok(list) => {
            assert(Seq::<Formula>::empty() + list =~= list);
        },
        Err(_) => {},
    }
}

/// Formulas in front of formulas in front of a rest are in front of it
/// together.
pub proof fn lemma_behind_behind(
    first: Seq<Formula>,
    second: Seq<Formula>,
    rest: Result<Seq<Formula>, int>,
)
    ensures
        behind(first, behind(second, rest)) == behind(first + second, rest),
{
    match rest {
        Ok(list) => {
            assert(first + (second + list) =~= (first + second) + list);
        },
        Err(_) => {},
    }
}

/// Parses a text: a sequence of propositions, with blanks, line breaks and
/// comments between the tokens. What was read is handed to `user_actions`;
/// a text that is refused leaves it as it was. `file_name` names the text
/// in the error.
pub fn parse(input: &str, file_name: &str, user_actions: &mut RaaTtGrammar) -> (result: Result<
    (),
    ParseError,
>)
    ensures
        match result {
            Ok(_) => match (parse_text(input.spec_bytes()), final(user_actions).raa_tt) {
                (Ok(list), Some(read)) => formulas(read.raa_tt_list@) == list,
                _ => false,
            },
            Err(error) => parse_text(input.spec_bytes()) == Err::<Seq<Formula>, SyntaxFault>(
                error.fault,
            ) && error.file_name@ == file_name@ && *final(user_actions) == *old(user_actions),
        },
{
    let tokens = match tokenize(input.as_bytes()) {
        Ok(tokens) => tokens,
        Err(place) => {
            return Err(
                ParseError {
                    file_name: String::from_str(file_name),
                    fault: SyntaxFault::UnexpectedCharacter(place),
                },
            );
        },
    };
    match parse_propositions(&tokens) {
        Ok(list) => {
            user_actions.raa_tt(RaaTt { raa_tt_list: list });
            Ok(())
        },
        Err(place) => Err(
            ParseError {
                file_name: String::from_str(file_name),
                fault: if place >= tokens.len() {
                    SyntaxFault::UnexpectedEnd
                } else {
                    SyntaxFault::UnexpectedToken(place)
                },
            },
        ),
    }
}

} // verus!
