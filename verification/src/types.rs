//! Grammar symbols and source positions.
//!
//! A `Token` is a tagged symbol: either a terminal (a literal token of the
//! input stream) or a nonterminal (defined by productions).  Symbols are
//! compared structurally by tag and name; the optional source position and
//! the lexical kind never take part in symbol identity.

use vstd::prelude::*;

verus! {

/// The specification-level identity of a grammar symbol: its tag and its
/// name.  Two tokens stand for the same grammar symbol exactly when their
/// `SpecSym` views are equal.
#[verifier::ext_equal]
pub struct SpecSym {
    pub terminal: bool,
    pub name: Seq<char>,
}

/// Lexical category of a token, carried for diagnostics only.
#[derive(Debug, Clone, Copy, PartialEq, Eq, Structural)]
pub enum TokenKind {
    Keyword,
    Identifier,
    Operator,
    Literal,
    Separator,
}

/// Tag distinguishing terminals from nonterminals.
#[derive(Debug, Clone, Copy, PartialEq, Eq, Structural)]
pub enum TokenType {
    Terminal(TokenKind),
    NotTerminal(TokenKind),
}

/// A position in the source text (row and column).
#[derive(Debug, Clone, Copy, PartialEq, Eq, Structural)]
pub struct Point {
    pub row: usize,
    pub col: usize,
}

impl Point {
    pub fn new(row: usize, col: usize) -> (p: Self)
        ensures
            p.row == row,
            p.col == col,
    {
        Self { row, col }
    }
}

/// A grammar symbol, optionally annotated with the source position of the
/// concrete token it came from.
#[derive(Debug, Clone)]
pub struct Token {
    pub token_type: TokenType,
    pub value: String,
    pub pos: Option<Point>,
}

/// The symbol a token stands for.
pub open spec fn sym_of(t: Token) -> SpecSym {
    SpecSym { terminal: t.token_type is Terminal, name: t.value@ }
}

/// The symbols a sequence of tokens stands for.
pub open spec fn syms_of(s: Seq<Token>) -> Seq<SpecSym> {
    s.map_values(|t: Token| sym_of(t))
}

impl Token {
    fn new(token_type: TokenType, value: String, pos: Option<Point>) -> (t: Self)
        ensures
            t == (Token { token_type, value, pos }),
    {
        Self { token_type, value, pos }
    }

    pub fn new_terminal(value: String, pos: Option<Point>) -> (t: Self)
        ensures
            t == (Token { token_type: TokenType::Terminal(TokenKind::Identifier), value, pos }),
            sym_of(t) == (SpecSym { terminal: true, name: value@ }),
    {
        Self::new(TokenType::Terminal(TokenKind::Identifier), value, pos)
    }

    pub fn new_not_terminal(value: String, pos: Option<Point>) -> (t: Self)
        ensures
            t == (Token { token_type: TokenType::NotTerminal(TokenKind::Identifier), value, pos }),
            sym_of(t) == (SpecSym { terminal: false, name: value@ }),
    {
        Self::new(TokenType::NotTerminal(TokenKind::Identifier), value, pos)
    }

    pub fn is_terminal(&self) -> (r: bool)
        ensures
            r == sym_of(*self).terminal,
    {
        if let TokenType::Terminal(_) = self.token_type {
            return true;
        }
        false
    }

    pub fn is_not_terminal(&self) -> (r: bool)
        ensures
            r == !sym_of(*self).terminal,
    {
        if let TokenType::NotTerminal(_) = self.token_type {
            return true;
        }
        false
    }

    pub fn get_pos(&self) -> (r: &Option<Point>)
        ensures
            *r == self.pos,
    {
        &self.pos
    }

    pub fn get_value(&self) -> (r: &String)
        ensures
            *r == self.value,
    {
        &self.value
    }

    /// An exact copy of the token.  Unlike the derived `Clone`, its result
    /// is known to equal the original.
    pub fn duplicate(&self) -> (t: Token)
        ensures
            t == *self,
    {
        Token { token_type: self.token_type, value: self.value.clone(), pos: self.pos }
    }

    /// Whether `self` is an opening bracket and `other` the closing bracket
    /// of the same shape.
    pub fn is_paired(&self, other: &Token) -> (r: bool)
        ensures
            r == spec_paired(sym_of(*self).name, sym_of(*other).name),
    {
        (self.value == "'('".to_owned() && other.value == "')'".to_owned()) || (self.value
            == "'['".to_owned() && other.value == "']'".to_owned()) || (self.value
            == "'{'".to_owned() && other.value == "'}'".to_owned())
    }
}

/// The three bracket pairs recognised by the recovery checkpoints.
pub open spec fn spec_paired(a: Seq<char>, b: Seq<char>) -> bool {
    (a == "'('"@ && b == "')'"@) || (a == "'['"@ && b == "']'"@) || (a == "'{'"@ && b == "'}'"@)
}

/// Whether two tokens stand for the same grammar symbol (same tag, same
/// name); positions and lexical kinds are ignored.
pub fn sym_eq(a: &Token, b: &Token) -> (r: bool)
    ensures
        r == (sym_of(*a) == sym_of(*b)),
{
    let ta = matches!(a.token_type, TokenType::Terminal(_));
    let tb = matches!(b.token_type, TokenType::Terminal(_));
    let r = ta == tb && a.value == b.value;
    proof {
        if r {
            assert(sym_of(*a) =~= sym_of(*b));
        }
    }
    r
}

/// The augmented start symbol wrapping the grammar's real start symbol.
pub fn start_symbol() -> (t: Token)
    ensures
        sym_of(t) == (SpecSym { terminal: false, name: "CompUnit'"@ }),
        t.pos is None,
{
    Token::new_not_terminal("CompUnit'".to_owned(), None)
}

/// The end-of-stream marker appended behind every token stream.
pub fn end_symbol() -> (t: Token)
    ensures
        sym_of(t) == (SpecSym { terminal: true, name: "#"@ }),
        t.pos is None,
{
    Token::new_terminal("#".to_owned(), None)
}

/// The marker standing for the empty production body.
pub fn empty_symbol() -> (t: Token)
    ensures
        sym_of(t) == (SpecSym { terminal: true, name: "\u{03b5}"@ }),
        t.pos is None,
{
    Token::new_terminal("\u{03b5}".to_owned(), None)
}

/// The reserved error terminal.
pub fn error_symbol() -> (t: Token)
    ensures
        sym_of(t) == (SpecSym { terminal: true, name: "err"@ }),
        t.pos is None,
{
    Token::new_terminal("err".to_owned(), None)
}

/// Pushing onto a sequence inserts into its set of elements.
pub proof fn push_to_set<A>(s: Seq<A>, x: A)
    ensures
        s.push(x).to_set() == s.to_set().insert(x),
{
    assert forall|a: A| s.push(x).to_set().contains(a) implies s.to_set().insert(x).contains(
        a,
    ) by {
        let k = choose|k: int| 0 <= k < s.push(x).len() && s.push(x)[k] == a;
        if k < s.len() {
            assert(s[k] == a);
        } else {
            assert(a == x);
        }
    };
    assert forall|a: A| s.to_set().insert(x).contains(a) implies s.push(x).to_set().contains(
        a,
    ) by {
        if a == x {
            assert(s.push(x)[s.len() as int] == a);
        } else {
            let k = choose|k: int| 0 <= k < s.len() && s[k] == a;
            assert(s.push(x)[k] == a);
        }
    };
    assert(s.push(x).to_set() =~= s.to_set().insert(x));
}

} // verus!
