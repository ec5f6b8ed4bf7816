use crate::text::push_char;
use vstd::prelude::*;

verus! {

/// A token of the language of propositions, as contracts speak of it.
pub enum Symbol {
    /// `!`
    Not,
    /// `&`
    And,
    /// `|`
    Or,
    /// `->`
    Cond,
    /// `<->`
    BiCond,
    /// `(`
    LPar,
    /// `)`
    RPar,
    /// The name of a variable.
    Var(Seq<char>),
}

/// A token of the language of propositions.
#[derive(Debug)]
pub enum Token {
    /// `!`
    Not,
    /// `&`
    And,
    /// `|`
    Or,
    /// `->`
    Cond,
    /// `<->`
    BiCond,
    /// `(`
    LPar,
    /// `)`
    RPar,
    /// The name of a variable.
    Var(String),
}

impl View for Token {
    type V = Symbol;

    open spec fn view(&self) -> Symbol {
        match self {
            Token::Not => Symbol::Not,
            Token::And => Symbol::And,
            Token::Or => Symbol::Or,
            Token::Cond => Symbol::Cond,
            Token::BiCond => Symbol::BiCond,
            Token::LPar => Symbol::LPar,
            Token::RPar => Symbol::RPar,
            Token::Var(name) => Symbol::Var(name@),
        }
    }
}

/// The symbols of a list of tokens.
pub open spec fn symbols(tokens: Seq<Token>) -> Seq<Symbol> {
    Seq::new(tokens.len(), |i: int| tokens[i]@)
}

pub const LINE_FEED: u8 = 10;

pub const BLANK: u8 = 32;

pub const BANG: u8 = 33;

pub const AMPERSAND: u8 = 38;

pub const LEFT_PARENTHESIS: u8 = 40;

pub const RIGHT_PARENTHESIS: u8 = 41;

pub const MINUS: u8 = 45;

pub const SLASH: u8 = 47;

pub const LESS: u8 = 60;

pub const GREATER: u8 = 62;

pub const UNDERSCORE: u8 = 95;

pub const BAR: u8 = 124;

/// Blanks, tabulators and line breaks stand between tokens.
pub open spec fn is_blank(byte: u8) -> bool {
    byte == BLANK || 9 <= byte <= 13
}

/// A name starts with a small letter.
pub open spec fn is_name_start(byte: u8) -> bool {
    97 <= byte <= 122
}

/// A name goes on with letters, digits and underscores.
pub open spec fn is_name_part(byte: u8) -> bool {
    byte == UNDERSCORE || 48 <= byte <= 57 || 65 <= byte <= 90 || 97 <= byte <= 122
}

/// Where the name that holds the byte at `at` ends.
pub open spec fn name_end(bytes: Seq<u8>, at: int) -> int
    decreases bytes.len() - at,
{
    if 0 <= at < bytes.len() && is_name_part(bytes[at]) {
        name_end(bytes, at + 1)
    } else {
        at
    }
}

/// Where the line that holds the byte at `at` ends: at its line feed, or at
/// the end of the text.
pub open spec fn line_end(bytes: Seq<u8>, at: int) -> int
    decreases bytes.len() - at,
{
    if 0 <= at < bytes.len() && bytes[at] != LINE_FEED {
        line_end(bytes, at + 1)
    } else {
        at
    }
}

/// The bytes from `from` to `to` as characters.
pub open spec fn text_of(bytes: Seq<u8>, from: int, to: int) -> Seq<char> {
    Seq::new((to - from) as nat, |i: int| bytes[from + i] as char)
}

/// What stands at a place of the text.
pub enum Scan {
    /// The text ends here.
    End,
    /// Blanks or a comment, up to the given place.
    Skip(int),
    /// A token, up to the given place.
    Found(Symbol, int),
    /// Nothing that the language knows.
    Bad,
}

/// What stands at the place `at` of the text. A comment starts with `//`
/// and goes to the end of its line.
pub open spec fn scan(bytes: Seq<u8>, at: int) -> Scan {
    if at < 0 || at >= bytes.len() {
        Scan::End
    } else if is_blank(bytes[at]) {
        Scan::Skip(at + 1)
    } else if bytes[at] == SLASH && at + 1 < bytes.len() && bytes[at + 1] == SLASH {
        Scan::Skip(line_end(bytes, at + 2))
    } else if bytes[at] == BANG {
        Scan::Found(Symbol::Not, at + 1)
    } else if bytes[at] == AMPERSAND {
        Scan::Found(Symbol::And, at + 1)
    } else if bytes[at] == BAR {
        Scan::Found(Symbol::Or, at + 1)
    } else if bytes[at] == LEFT_PARENTHESIS {
        Scan::Found(Symbol::LPar, at + 1)
    } else if bytes[at] == RIGHT_PARENTHESIS {
        Scan::Found(Symbol::RPar, at + 1)
    } else if bytes[at] == MINUS && at + 1 < bytes.len() && bytes[at + 1] == GREATER {
        Scan::Found(Symbol::Cond, at + 2)
    } else if bytes[at] == LESS && at + 2 < bytes.len() && bytes[at + 1] == MINUS && bytes[at + 2]
        == GREATER {
        Scan::Found(Symbol::BiCond, at + 3)
    } else if is_name_start(bytes[at]) {
        Scan::Found(
            Symbol::Var(text_of(bytes, at, name_end(bytes, at + 1))),
            name_end(bytes, at + 1),
        )
    } else {
        Scan::Bad
    }
}

/// The symbols in front of what the rest of a text yields.
pub open spec fn after(front: Seq<Symbol>, rest: Result<Seq<Symbol>, int>) -> Result<
    Seq<Symbol>,
    int,
> {
    match rest {
        Ok(symbols) => Ok(front + symbols),
        Err(place) => Err(place),
    }
}

/// The tokens of the text from `at` on, or the place of the first byte that
/// starts neither a token nor a blank nor a comment.
#[verifier::opaque]
pub open spec fn lex_from(bytes: Seq<u8>, at: int) -> Result<Seq<Symbol>, int>
    decreases bytes.len() - at,
{
    if at < 0 || at >= bytes.len() {
        Ok(Seq::empty())
    } else {
        match scan(bytes, at) {
            Scan::End => Ok(Seq::empty()),
            Scan::Bad => Err(at),
            Scan::Skip(next) => if at < next <= bytes.len() {
                lex_from(bytes, next)
            } else {
                Err(at)
            },
            Scan::Found(symbol, next) => if at < next <= bytes.len() {
                after(seq![symbol], lex_from(bytes, next))
            } else {
                Err(at)
            },
        }
    }
}

/// The tokens of a text.
pub open spec fn lex(bytes: Seq<u8>) -> Result<Seq<Symbol>, int> {
    lex_from(bytes, 0)
}

/// The end of a name lies behind its start and within the text.
pub proof fn lemma_name_end(bytes: Seq<u8>, at: int)
    requires
        0 <= at <= bytes.len(),
    ensures
        at <= name_end(bytes, at) <= bytes.len(),
    decreases bytes.len() - at,
{
    if at < bytes.len() && is_name_part(bytes[at]) {
        lemma_name_end(bytes, at + 1);
    }
}

/// The end of a line lies behind its start and within the text.
pub proof fn lemma_line_end(bytes: Seq<u8>, at: int)
    requires
        0 <= at <= bytes.len(),
    ensures
        at <= line_end(bytes, at) <= bytes.len(),
    decreases bytes.len() - at,
{
    if at < bytes.len() && bytes[at] != LINE_FEED {
        lemma_line_end(bytes, at + 1);
    }
}

/// Decides whether blanks are made of the byte.
pub fn blank(byte: u8) -> (yes: bool)
    ensures
        yes == is_blank(byte),
{
    byte == BLANK || (9 <= byte && byte <= 13)
}

/// Decides whether a name can go on with the byte.
pub fn name_part(byte: u8) -> (yes: bool)
    ensures
        yes == is_name_part(byte),
{
    byte == UNDERSCORE || (48 <= byte && byte <= 57) || (65 <= byte && byte <= 90) || (97 <= byte
        && byte <= 122)
}

/// Reads the name that starts at `from`.
fn read_name(bytes: &[u8], from: usize) -> (found: (String, usize))
    requires
        from < bytes@.len(),
    ensures
        found.1 == name_end(bytes@, from + 1),
        found.0@ == text_of(bytes@, from as int, found.1 as int),
        from < found.1 <= bytes@.len(),
{
    let mut name = String::new();
    push_char(&mut name, bytes[from] as char);
    let mut at: usize = from + 1;
    proof {
        assert(name@ =~= text_of(bytes@, from as int, at as int));
    }
    while at < bytes.len() && name_part(bytes[at])
        invariant
            from < at <= bytes@.len(),
            name_end(bytes@, from + 1) == name_end(bytes@, at as int),
            name@ == text_of(bytes@, from as int, at as int),
        decreases bytes@.len() - at,
    {
        push_char(&mut name, bytes[at] as char);
        proof {
            assert(name@ =~= text_of(bytes@, from as int, at + 1));
        }
        at += 1;
    }
    (name, at)
}

/// Splits a text into its tokens. Blanks, line breaks and comments are
/// passed over; the place of the first byte that fits nothing is returned
/// as the error.
pub fn tokenize(bytes: &[u8]) -> (result: Result<Vec<Token>, usize>)
    ensures
        match result {
            Ok(tokens) => lex(bytes@) == Ok::<Seq<Symbol>, int>(symbols(tokens@)),
            Err(place) => lex(bytes@) == Err::<Seq<Symbol>, int>(place as int),
        },
{
    let mut tokens: Vec<Token> = Vec::new();
    let mut at: usize = 0;
    let n = bytes.len();
    proof {
        reveal(lex_from);
        assert(Seq::<Symbol>::empty() + Seq::<Symbol>::empty() =~= Seq::<Symbol>::empty());
        lemma_after_empty(lex(bytes@));
        assert(symbols(tokens@) =~= Seq::<Symbol>::empty());
    }
    while at < n
        invariant
            at <= n,
            n == bytes@.len(),
            lex(bytes@) == after(symbols(tokens@), lex_from(bytes@, at as int)),
        decreases n - at,
    {
        let byte = bytes[at];
        let ghost before = symbols(tokens@);
        let ghost start = at as int;
        proof {
            reveal(lex_from);
        }
        if blank(byte) {
            at += 1;
        } else if byte == SLASH && at + 1 < n && bytes[at + 1] == SLASH {
            at += 2;
            while at < n && bytes[at] != LINE_FEED
                invariant
                    start + 2 <= at <= n,
                    n == bytes@.len(),
                    line_end(bytes@, start + 2) == line_end(bytes@, at as int),
                decreases n - at,
            {
                at += 1;
            }
        } else {
            let token = if byte == BANG {
                at += 1;
                Token::Not
            } else if byte == AMPERSAND {
                at += 1;
                Token::And
            } else if byte == BAR {
                at += 1;
                Token::Or
            } else if byte == LEFT_PARENTHESIS {
                at += 1;
                Token::LPar
            } else if byte == RIGHT_PARENTHESIS {
                at += 1;
                Token::RPar
            } else if byte == MINUS && at + 1 < n && bytes[at + 1] == GREATER {
                at += 2;
                Token::Cond
            } else if byte == LESS && n - at > 2 && bytes[at + 1] == MINUS && bytes[at + 2]
                == GREATER {
                at += 3;
                Token::BiCond
            } else if 97 <= byte && byte <= 122 {
                let (name, end) = read_name(bytes, at);
                at = end;
                Token::Var(name)
            } else {
                return Err(at);
            };
            tokens.push(token);
            proof {
                assert(symbols(tokens@) =~= before + seq![token@]);
                lemma_after_after(before, seq![token@], lex_from(bytes@, at as int));
            }
        }
    }
    proof {
        reveal(lex_from);
        assert(symbols(tokens@) + Seq::<Symbol>::empty() =~= symbols(tokens@));
    }
    Ok(tokens)
}

/// Nothing in front changes nothing.
pub proof fn lemma_after_empty(rest: Result<Seq<Symbol>, int>)
    ensures
        after(Seq::empty(), rest) == rest,
{
    match rest {
        Ok(symbols) => {
            assert(Seq::<Symbol>::empty() + symbols =~= symbols);
        },
        Err(_) => {},
    }
}

/// Symbols in front of symbols in front of a rest are in front of it
/// together.
pub proof fn lemma_after_after(
    first: Seq<Symbol>,
    second: Seq<Symbol>,
    rest: Result<Seq<Symbol>, int>,
)
    ensures
        after(first, after(second, rest)) == after(first + second, rest),
{
    match rest {
        Ok(symbols) => {
            assert(first + (second + symbols) =~= (first + second) + symbols);
        },
        Err(_) => {},
    }
}

} // verus!
