use crate::lexer::{
    after, is_blank, is_name_part, is_name_start, lemma_after_after, lex, lex_from, name_end, scan,
    text_of, Scan, Symbol, AMPERSAND, BANG, BAR, BLANK, GREATER, LEFT_PARENTHESIS, LESS, MINUS,
    RIGHT_PARENTHESIS,
};
use crate::proposition::Formula;
use crate::raa_tt_parser::{join, operator, parse_all, parse_level, parse_rest, parse_text, SyntaxFault};
use vstd::prelude::*;
use vstd::utf8::{encode_utf8, is_ascii_chars, is_ascii_chars_encode_utf8};

verus! {

/// Whether the text is a name of the language: a small letter, then
/// letters, digits and underscores.
pub open spec fn is_name(name: Seq<char>) -> bool {
    &&& name.len() > 0
    &&& 97 <= name[0] as int <= 122
    &&& forall|i: int|
        0 <= i < name.len() ==> 0 <= (#[trigger] name[i]) as int <= 255 && is_name_part(
            name[i] as u8,
        )
}

impl Formula {
    /// Whether the formula can be written in the language: it is free of
    /// the placeholder, and its atoms have names of the language.
    pub open spec fn is_readable(self) -> bool
        decreases self,
    {
        match self {
            Formula::Void => false,
            Formula::Atom(name) => is_name(name),
            Formula::Negation(inner) => inner.is_readable(),
            Formula::Implication(left, right) => left.is_readable() && right.is_readable(),
            Formula::BiImplication(left, right) => left.is_readable() && right.is_readable(),
            Formula::Disjunction(left, right) => left.is_readable() && right.is_readable(),
            Formula::Conjunction(left, right) => left.is_readable() && right.is_readable(),
        }
    }

    /// The tokens of the text of the formula.
    pub open spec fn tokens(self) -> Seq<Symbol>
        decreases self,
    {
        match self {
            Formula::Void => Seq::empty(),
            Formula::Atom(name) => seq![Symbol::Var(name)],
            Formula::Negation(inner) => seq![Symbol::Not] + inner.tokens(),
            Formula::Implication(left, right) => seq![Symbol::LPar] + left.tokens() + seq![
                Symbol::Cond,
            ] + right.tokens() + seq![Symbol::RPar],
            Formula::BiImplication(left, right) => seq![Symbol::LPar] + left.tokens() + seq![
                Symbol::BiCond,
            ] + right.tokens() + seq![Symbol::RPar],
            Formula::Disjunction(left, right) => seq![Symbol::LPar] + left.tokens() + seq![
                Symbol::Or,
            ] + right.tokens() + seq![Symbol::RPar],
            Formula::Conjunction(left, right) => seq![Symbol::LPar] + left.tokens() + seq![
                Symbol::And,
            ] + right.tokens() + seq![Symbol::RPar],
        }
    }
}

/// Whether the bytes from `at` on are the characters of the text.
pub open spec fn spells(bytes: Seq<u8>, at: int, text: Seq<char>) -> bool {
    &&& 0 <= at
    &&& at + text.len() <= bytes.len()
    &&& forall|i: int| 0 <= i < text.len() ==> bytes[at + i] as char == #[trigger] text[i]
}

/// Whether no name can go on at the place `at`.
pub open spec fn ends_name(bytes: Seq<u8>, at: int) -> bool {
    at >= bytes.len() || !is_name_part(bytes[at])
}

/// The text of the operator of a level, with the blanks around it.
pub open spec fn operator_text(level: nat) -> Seq<char> {
    if level == 1 {
        seq![' ', '&', ' ']
    } else if level == 2 {
        seq![' ', '|', ' ']
    } else if level == 3 {
        seq![' ', '-', '>', ' ']
    } else {
        seq![' ', '<', '-', '>', ' ']
    }
}

/// The level of the operator of a formula with two operands; 0 for any
/// other formula.
pub open spec fn level_of(formula: Formula) -> nat {
    match formula {
        Formula::Conjunction(_, _) => 1,
        Formula::Disjunction(_, _) => 2,
        Formula::Implication(_, _) => 3,
        Formula::BiImplication(_, _) => 4,
        _ => 0,
    }
}

/// The left operand of a formula with two operands.
pub open spec fn left_of(formula: Formula) -> Formula {
    match formula {
        Formula::Conjunction(left, _) => *left,
        Formula::Disjunction(left, _) => *left,
        Formula::Implication(left, _) => *left,
        Formula::BiImplication(left, _) => *left,
        _ => formula,
    }
}

/// The right operand of a formula with two operands.
pub open spec fn right_of(formula: Formula) -> Formula {
    match formula {
        Formula::Conjunction(_, right) => *right,
        Formula::Disjunction(_, right) => *right,
        Formula::Implication(_, right) => *right,
        Formula::BiImplication(_, right) => *right,
        _ => formula,
    }
}

/// A formula with two operands in its parts: how it is joined, written
/// and split into tokens.
pub proof fn lemma_binary_parts(formula: Formula)
    requires
        level_of(formula) > 0,
    ensures
        formula == join(level_of(formula), left_of(formula), right_of(formula)),
        formula.render() == seq!['('] + left_of(formula).render() + operator_text(
            level_of(formula),
        ) + right_of(formula).render() + seq![')'],
        formula.tokens() == seq![Symbol::LPar] + left_of(formula).tokens() + seq![
            operator(level_of(formula)),
        ] + right_of(formula).tokens() + seq![Symbol::RPar],
        formula.is_readable() == (left_of(formula).is_readable() && right_of(
            formula,
        ).is_readable()),
{
    reveal_strlit("(");
    reveal_strlit(")");
    reveal_strlit(" & ");
    reveal_strlit(" | ");
    reveal_strlit(" -> ");
    reveal_strlit(" <-> ");
    assert("("@ =~= seq!['(']);
    assert(")"@ =~= seq![')']);
    assert(" & "@ =~= seq![' ', '&', ' ']);
    assert(" | "@ =~= seq![' ', '|', ' ']);
    assert(" -> "@ =~= seq![' ', '-', '>', ' ']);
    assert(" <-> "@ =~= seq![' ', '<', '-', '>', ' ']);
}

/// A part of a text that is spelled is spelled at its place.
pub proof fn lemma_spells_part(bytes: Seq<u8>, at: int, whole: Seq<char>, from: int, to: int)
    requires
        spells(bytes, at, whole),
        0 <= from <= to <= whole.len(),
    ensures
        spells(bytes, at + from, whole.subrange(from, to)),
{
    let part = whole.subrange(from, to);
    assert forall|i: int| 0 <= i < part.len() implies bytes[at + from + i] as char
        == #[trigger] part[i] by {
        assert(bytes[at + (from + i)] as char == whole[from + i]);
    }
}

/// A blank is passed over.
pub proof fn lemma_lex_blank(bytes: Seq<u8>, at: int)
    requires
        0 <= at < bytes.len(),
        is_blank(bytes[at]),
    ensures
        lex_from(bytes, at) == lex_from(bytes, at + 1),
{
    reveal(lex_from);
}

/// A token is followed by the tokens behind it.
pub proof fn lemma_lex_symbol(bytes: Seq<u8>, at: int, symbol: Symbol, next: int)
    requires
        scan(bytes, at) == Scan::Found(symbol, next),
        0 <= at < next <= bytes.len(),
    ensures
        lex_from(bytes, at) == after(seq![symbol], lex_from(bytes, next)),
{
    reveal(lex_from);
}

/// A run of bytes of which names are made, with no such byte behind it,
/// ends where it ends.
pub proof fn lemma_name_run(bytes: Seq<u8>, from: int, to: int)
    requires
        0 <= from <= to <= bytes.len(),
        forall|i: int| from <= i < to ==> is_name_part(#[trigger] bytes[i]),
        ends_name(bytes, to),
    ensures
        name_end(bytes, from) == to,
    decreases to - from,
{
    if from < to {
        assert(is_name_part(bytes[from]));
        lemma_name_run(bytes, from + 1, to);
    }
}

/// A name is read as the token of the name.
pub proof fn lemma_lex_name(bytes: Seq<u8>, at: int, name: Seq<char>)
    requires
        is_name(name),
        spells(bytes, at, name),
        ends_name(bytes, at + name.len()),
    ensures
        lex_from(bytes, at) == after(seq![Symbol::Var(name)], lex_from(bytes, at + name.len())),
{
    let end = at + name.len();
    assert forall|i: int| at <= i < end implies is_name_part(#[trigger] bytes[i]) by {
        assert(bytes[at + (i - at)] as char == name[i - at]);
        assert(is_name_part(name[i - at] as u8));
    }
    assert(bytes[at + 0] as char == name[0]);
    lemma_name_run(bytes, at + 1, end);
    assert(text_of(bytes, at, end) =~= name) by {
        assert forall|i: int| 0 <= i < name.len() implies text_of(bytes, at, end)[i]
            == name[i] by {
            assert(bytes[at + i] as char == name[i]);
        }
    }
    assert(is_name_start(bytes[at]));
    assert(scan(bytes, at) == Scan::Found(Symbol::Var(name), end));
    lemma_lex_symbol(bytes, at, Symbol::Var(name), end);
}

/// An operator between blanks is read as its token.
pub proof fn lemma_lex_operator(bytes: Seq<u8>, at: int, level: nat)
    requires
        1 <= level <= 4,
        spells(bytes, at, operator_text(level)),
    ensures
        lex_from(bytes, at) == after(
            seq![operator(level)],
            lex_from(bytes, at + operator_text(level).len()),
        ),
{
    let text = operator_text(level);
    assert(bytes[at + 0] as char == text[0]);
    assert(bytes[at + 1] as char == text[1]);
    assert(bytes[at + 2] as char == text[2]);
    lemma_lex_blank(bytes, at);
    if level <= 2 {
        lemma_lex_symbol(bytes, at + 1, operator(level), at + 2);
        lemma_lex_blank(bytes, at + 2);
    } else if level == 3 {
        assert(bytes[at + 3] as char == text[3]);
        lemma_lex_symbol(bytes, at + 1, operator(level), at + 3);
        lemma_lex_blank(bytes, at + 3);
    } else {
        assert(bytes[at + 3] as char == text[3]);
        assert(bytes[at + 4] as char == text[4]);
        lemma_lex_symbol(bytes, at + 1, operator(level), at + 4);
        lemma_lex_blank(bytes, at + 4);
    }
}

/// The text of a readable formula is read as the tokens of the formula.
pub proof fn lemma_lex_formula(bytes: Seq<u8>, at: int, formula: Formula)
    requires
        formula.is_readable(),
        spells(bytes, at, formula.render()),
        ends_name(bytes, at + formula.render().len()),
    ensures
        lex_from(bytes, at) == after(
            formula.tokens(),
            lex_from(bytes, at + formula.render().len()),
        ),
    decreases formula,
{
    let text = formula.render();
    let rest = lex_from(bytes, at + text.len());
    match formula {
        Formula::Void => {},
        Formula::Atom(name) => {
            lemma_lex_name(bytes, at, name);
        },
        Formula::Negation(inner) => {
            reveal_strlit("!");
            assert(text =~= seq!['!'] + inner.render());
            assert(bytes[at + 0] as char == text[0]);
            lemma_spells_part(bytes, at, text, 1, text.len() as int);
            assert(text.subrange(1, text.len() as int) =~= inner.render());
            lemma_lex_symbol(bytes, at, Symbol::Not, at + 1);
            lemma_lex_formula(bytes, at + 1, *inner);
            lemma_after_after(seq![Symbol::Not], inner.tokens(), rest);
        },
        _ => {
            lemma_binary_parts(formula);
            let level = level_of(formula);
            let left = left_of(formula);
            let right = right_of(formula);
            let p1 = at + 1 + left.render().len();
            let p2 = p1 + operator_text(level).len();
            let p3 = p2 + right.render().len();
            lemma_binary_layout(
                bytes,
                at,
                left.render(),
                operator_text(level),
                right.render(),
                text,
            );
            lemma_lex_symbol(bytes, at, Symbol::LPar, at + 1);
            lemma_lex_formula(bytes, at + 1, left);
            lemma_lex_operator(bytes, p1, level);
            lemma_lex_formula(bytes, p2, right);
            lemma_lex_symbol(bytes, p3, Symbol::RPar, p3 + 1);
            lemma_after_five(
                seq![Symbol::LPar],
                left.tokens(),
                seq![operator(level)],
                right.tokens(),
                seq![Symbol::RPar],
                rest,
            );
        },
    }
}

/// Where the parts of the text of a formula with two operands stand.
pub proof fn lemma_binary_layout(
    bytes: Seq<u8>,
    at: int,
    left: Seq<char>,
    sign: Seq<char>,
    right: Seq<char>,
    whole: Seq<char>,
)
    requires
        whole == seq!['('] + left + sign + right + seq![')'],
        sign.len() > 0,
        sign[0] == ' ',
        spells(bytes, at, whole),
    ensures
        whole.len() == left.len() + sign.len() + right.len() + 2,
        scan(bytes, at) == Scan::Found(Symbol::LPar, at + 1),
        spells(bytes, at + 1, left),
        ends_name(bytes, at + 1 + left.len()),
        spells(bytes, at + 1 + left.len(), sign),
        spells(bytes, at + 1 + left.len() + sign.len(), right),
        ends_name(bytes, at + 1 + left.len() + sign.len() + right.len()),
        scan(bytes, at + 1 + left.len() + sign.len() + right.len()) == Scan::Found(
            Symbol::RPar,
            at + whole.len(),
        ),
{
    let p1 = left.len() as int + 1;
    let p2 = p1 + sign.len() as int;
    let p3 = p2 + right.len() as int;
    assert(bytes[at + 0] as char == whole[0]);
    lemma_spells_part(bytes, at, whole, 1, p1);
    assert(whole.subrange(1, p1) =~= left);
    assert(bytes[at + p1] as char == whole[p1]);
    assert(whole[p1] == sign[0]);
    lemma_spells_part(bytes, at, whole, p1, p2);
    assert(whole.subrange(p1, p2) =~= sign);
    lemma_spells_part(bytes, at, whole, p2, p3);
    assert(whole.subrange(p2, p3) =~= right);
    assert(bytes[at + p3] as char == whole[p3]);
}

/// Five lists of symbols in front of a rest, one after the other, are in
/// front of it together.
pub proof fn lemma_after_five(
    a: Seq<Symbol>,
    b: Seq<Symbol>,
    c: Seq<Symbol>,
    d: Seq<Symbol>,
    e: Seq<Symbol>,
    rest: Result<Seq<Symbol>, int>,
)
    ensures
        after(a, after(b, after(c, after(d, after(e, rest))))) == after(a + b + c + d + e, rest),
{
    match rest {
        Ok(symbols) => {
            assert(a + (b + (c + (d + (e + symbols)))) =~= (a + b + c + d + e) + symbols);
        },
        Err(_) => {},
    }
}

/// Whether the tokens from `at` on start with the given ones.
pub open spec fn holds(tokens: Seq<Symbol>, at: int, part: Seq<Symbol>) -> bool {
    &&& 0 <= at
    &&& at + part.len() <= tokens.len()
    &&& forall|i: int| 0 <= i < part.len() ==> tokens[at + i] == #[trigger] part[i]
}

/// Whether the token at `at`, if there is one, is no operator of a level
/// above `from` and up to `to`.
pub open spec fn passes(tokens: Seq<Symbol>, at: int, from: nat, to: nat) -> bool {
    at < 0 || at >= tokens.len() || forall|level: nat|
        from < level <= to ==> tokens[at] != #[trigger] operator(level)
}

/// A part of tokens that are held is held at its place.
pub proof fn lemma_holds_part(tokens: Seq<Symbol>, at: int, whole: Seq<Symbol>, from: int, to: int)
    requires
        holds(tokens, at, whole),
        0 <= from <= to <= whole.len(),
    ensures
        holds(tokens, at + from, whole.subrange(from, to)),
{
    let part = whole.subrange(from, to);
    assert forall|i: int| 0 <= i < part.len() implies tokens[at + from + i]
        == #[trigger] part[i] by {
        assert(tokens[at + (from + i)] == whole[from + i]);
    }
}

/// Where the operator of the level does not follow, nothing is joined.
pub proof fn lemma_rest_ends(tokens: Seq<Symbol>, level: nat, left: Formula, at: int)
    requires
        at < 0 || at >= tokens.len() || tokens[at] != operator(level),
    ensures
        parse_rest(tokens, level, left, at) == Ok::<(Formula, int), int>((left, at)),
{
}

/// Where the operator of the level follows, the formula of the level below
/// behind it is joined.
pub proof fn lemma_rest_joins(
    tokens: Seq<Symbol>,
    level: nat,
    left: Formula,
    at: int,
    right: Formula,
    next: int,
)
    requires
        level >= 1,
        0 <= at < tokens.len(),
        tokens[at] == operator(level),
        parse_level(tokens, (level - 1) as nat, at + 1) == Ok::<(Formula, int), int>(
            (right, next),
        ),
        at < next <= tokens.len(),
    ensures
        parse_rest(tokens, level, left, at) == parse_rest(
            tokens,
            level,
            join(level, left, right),
            next,
        ),
{
}

/// A formula of a level is a formula of the level below and what is joined
/// to it.
pub proof fn lemma_level_up(tokens: Seq<Symbol>, level: nat, at: int, left: Formula, next: int)
    requires
        level >= 1,
        0 <= at < tokens.len(),
        parse_level(tokens, (level - 1) as nat, at) == Ok::<(Formula, int), int>((left, next)),
        at <= next <= tokens.len(),
    ensures
        parse_level(tokens, level, at) == parse_rest(tokens, level, left, next),
{
}

/// A formula of a level that is followed by no operator of a higher level
/// is the same formula at the higher level.
pub proof fn lemma_climb(
    tokens: Seq<Symbol>,
    at: int,
    formula: Formula,
    next: int,
    from: nat,
    to: nat,
)
    requires
        from <= to,
        0 <= at < tokens.len(),
        at <= next <= tokens.len(),
        parse_level(tokens, from, at) == Ok::<(Formula, int), int>((formula, next)),
        passes(tokens, next, from, to),
    ensures
        parse_level(tokens, to, at) == Ok::<(Formula, int), int>((formula, next)),
    decreases to,
{
    if from < to {
        assert(passes(tokens, next, from, (to - 1) as nat)) by {
            if 0 <= next < tokens.len() {
                assert forall|level: nat| from < level <= to - 1 implies tokens[next]
                    != #[trigger] operator(level) by {}
            }
        }
        lemma_climb(tokens, at, formula, next, from, (to - 1) as nat);
        lemma_level_up(tokens, to, at, formula, next);
        if 0 <= next < tokens.len() {
            assert(tokens[next] != operator(to));
        }
        lemma_rest_ends(tokens, to, formula, next);
    }
}

/// The tokens of a readable formula are parsed as the formula.
pub proof fn lemma_parse_formula(tokens: Seq<Symbol>, at: int, formula: Formula)
    requires
        formula.is_readable(),
        holds(tokens, at, formula.tokens()),
    ensures
        formula.tokens().len() > 0,
        parse_level(tokens, 0, at) == Ok::<(Formula, int), int>(
            (formula, at + formula.tokens().len()),
        ),
    decreases formula,
{
    let part = formula.tokens();
    match formula {
        Formula::Void => {},
        Formula::Atom(name) => {
            assert(tokens[at + 0] == part[0]);
        },
        Formula::Negation(inner) => {
            assert(tokens[at + 0] == part[0]);
            lemma_holds_part(tokens, at, part, 1, part.len() as int);
            assert(part.subrange(1, part.len() as int) =~= inner.tokens());
            lemma_parse_formula(tokens, at + 1, *inner);
        },
        _ => {
            lemma_binary_parts(formula);
            let level = level_of(formula);
            let left = left_of(formula);
            let right = right_of(formula);
            let a1 = at + 1;
            let p = a1 + left.tokens().len();
            let r = p + 1;
            let q = r + right.tokens().len();
            assert(part.len() == left.tokens().len() + right.tokens().len() + 3);
            assert(tokens[at + 0] == part[0]);
            assert(tokens[at + (p - at)] == part[p - at]);
            assert(tokens[at + (q - at)] == part[q - at]);
            lemma_holds_part(tokens, at, part, 1, p - at);
            assert(part.subrange(1, p - at) =~= left.tokens());
            lemma_holds_part(tokens, at, part, r - at, q - at);
            assert(part.subrange(r - at, q - at) =~= right.tokens());
            lemma_parse_formula(tokens, a1, left);
            lemma_parse_formula(tokens, r, right);
            lemma_parse_binary(tokens, at, level, left, right, p, q);
        },
    }
}

/// Two formulas in parentheses with an operator between them are parsed as
/// the formula that joins them.
pub proof fn lemma_parse_binary(
    tokens: Seq<Symbol>,
    at: int,
    level: nat,
    left: Formula,
    right: Formula,
    p: int,
    q: int,
)
    requires
        1 <= level <= 4,
        0 <= at,
        at + 1 < p,
        p + 1 < q < tokens.len(),
        tokens[at] == Symbol::LPar,
        tokens[p] == operator(level),
        tokens[q] == Symbol::RPar,
        parse_level(tokens, 0, at + 1) == Ok::<(Formula, int), int>((left, p)),
        parse_level(tokens, 0, p + 1) == Ok::<(Formula, int), int>((right, q)),
    ensures
        parse_level(tokens, 0, at) == Ok::<(Formula, int), int>(
            (join(level, left, right), q + 1),
        ),
{
    let below = (level - 1) as nat;
    let joined = join(level, left, right);
    assert(passes(tokens, p, 0, below));
    assert(passes(tokens, q, 0, below));
    assert(passes(tokens, q, level, 4));
    lemma_climb(tokens, at + 1, left, p, 0, below);
    lemma_climb(tokens, p + 1, right, q, 0, below);
    lemma_level_up(tokens, level, at + 1, left, p);
    lemma_rest_joins(tokens, level, left, p, right, q);
    lemma_rest_ends(tokens, level, joined, q);
    lemma_climb(tokens, at + 1, joined, q, level, 4);
}

/// The text of a readable formula, and nothing else, is read as the
/// formula.
pub proof fn theorem_text_is_read_back(bytes: Seq<u8>, formula: Formula)
    requires
        formula.is_readable(),
        spells(bytes, 0, formula.render()),
        bytes.len() == formula.render().len(),
    ensures
        parse_text(bytes) == Ok::<Seq<Formula>, SyntaxFault>(seq![formula]),
{
    let tokens = formula.tokens();
    lemma_lex_formula(bytes, 0, formula);
    assert(lex_from(bytes, bytes.len() as int) == Ok::<Seq<Symbol>, int>(Seq::empty())) by {
        reveal(lex_from);
    }
    assert(tokens + Seq::<Symbol>::empty() =~= tokens);
    assert(lex(bytes) == Ok::<Seq<Symbol>, int>(tokens));
    assert(holds(tokens, 0, tokens));
    lemma_parse_formula(tokens, 0, formula);
    let n = tokens.len() as int;
    lemma_climb(tokens, 0, formula, n, 0, 4);
    assert(parse_all(tokens, n) == Ok::<Seq<Formula>, int>(Seq::empty()));
    assert(seq![formula] + Seq::<Formula>::empty() =~= seq![formula]);
    assert(parse_all(tokens, 0) == Ok::<Seq<Formula>, int>(seq![formula]));
}

/// The text of a readable formula is made of ASCII characters.
pub proof fn lemma_render_is_ascii(formula: Formula)
    requires
        formula.is_readable(),
    ensures
        is_ascii_chars(formula.render()),
    decreases formula,
{
    let text = formula.render();
    match formula {
        Formula::Void => {},
        Formula::Atom(name) => {
            assert forall|i: int| 0 <= i < text.len() implies '\0' <= #[trigger] text[i]
                <= '\u{7f}' by {
                assert(is_name_part(name[i] as u8));
            }
        },
        Formula::Negation(inner) => {
            reveal_strlit("!");
            lemma_render_is_ascii(*inner);
            assert(text =~= seq!['!'] + inner.render());
            assert forall|i: int| 0 <= i < text.len() implies '\0' <= #[trigger] text[i]
                <= '\u{7f}' by {
                if i > 0 {
                    assert(text[i] == inner.render()[i - 1]);
                }
            }
        },
        _ => {
            lemma_binary_parts(formula);
            let left = left_of(formula).render();
            let sign = operator_text(level_of(formula));
            let right = right_of(formula).render();
            lemma_render_is_ascii(left_of(formula));
            lemma_render_is_ascii(right_of(formula));
            let p1 = left.len() as int + 1;
            let p2 = p1 + sign.len() as int;
            let p3 = p2 + right.len() as int;
            assert forall|i: int| 0 <= i < text.len() implies '\0' <= #[trigger] text[i]
                <= '\u{7f}' by {
                if i == 0 {
                } else if i < p1 {
                    assert(text[i] == left[i - 1]);
                } else if i < p2 {
                    assert(text[i] == sign[i - p1]);
                } else if i < p3 {
                    assert(text[i] == right[i - p2]);
                } else {
                }
            }
        },
    }
}

/// The text of a readable formula, encoded as it is in a string, is read
/// as the formula.
pub proof fn theorem_rendering_is_read_back(formula: Formula)
    requires
        formula.is_readable(),
    ensures
        parse_text(encode_utf8(formula.render())) == Ok::<Seq<Formula>, SyntaxFault>(
            seq![formula],
        ),
{
    let text = formula.render();
    let bytes = encode_utf8(text);
    lemma_render_is_ascii(formula);
    is_ascii_chars_encode_utf8(text);
    assert forall|i: int| 0 <= i < text.len() implies bytes[0 + i] as char
        == #[trigger] text[i] by {
        assert('\0' <= text[i] <= '\u{7f}');
    }
    theorem_text_is_read_back(bytes, formula);
}

} // verus!
