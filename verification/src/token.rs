//! Token data model: the closed set of token kinds, the token record,
//! the keyword table and the display form of every kind.

use vstd::prelude::*;
use vstd::string::StrSliceExecFns;

verus! {

/// The kind of a token as it appears in specifications. Literal-carrying
/// kinds hold the matched text as a sequence of characters.
pub enum TypeView {
    LeftParent,
    RightParent,
    LeftBrace,
    RightBrace,
    Comma,
    Dot,
    Minus,
    Plus,
    Semicolon,
    Slash,
    Star,
    Bang,
    BangEqual,
    Equal,
    EqualEqual,
    Greater,
    GreaterEqual,
    Less,
    LessEqual,
    Identifier(Seq<char>),
    String(Seq<char>),
    Number(Seq<char>),
    And,
    Class,
    Else,
    False,
    Fun,
    For,
    If,
    Nil,
    Or,
    Print,
    Return,
    Super,
    This,
    True,
    Var,
    While,
}

/// The kind of a token. `Identifier` and `String` carry the exact matched
/// span of the original source (the `String` payload excludes the two
/// delimiting quotes); `Number` carries the exact numeric lexeme, ready to
/// be parsed into a machine number by a downstream consumer.
#[derive(Clone, Debug, PartialEq)]
pub enum Type<'a> {
    // Single character tokens
    LeftParent,
    RightParent,
    LeftBrace,
    RightBrace,
    Comma,
    Dot,
    Minus,
    Plus,
    Semicolon,
    Slash,
    Star,
    // One or two character tokens
    Bang,
    BangEqual,
    Equal,
    EqualEqual,
    Greater,
    GreaterEqual,
    Less,
    LessEqual,
    // Literals
    Identifier(&'a str),
    String(&'a str),
    Number(&'a str),
    // Keywords
    And,
    Class,
    Else,
    False,
    Fun,
    For,
    If,
    Nil,
    Or,
    Print,
    Return,
    Super,
    This,
    True,
    Var,
    While,
}

impl<'a> View for Type<'a> {
    type V = TypeView;

    open spec fn view(&self) -> TypeView {
        match self {
            Type::LeftParent => TypeView::LeftParent,
            Type::RightParent => TypeView::RightParent,
            Type::LeftBrace => TypeView::LeftBrace,
            Type::RightBrace => TypeView::RightBrace,
            Type::Comma => TypeView::Comma,
            Type::Dot => TypeView::Dot,
            Type::Minus => TypeView::Minus,
            Type::Plus => TypeView::Plus,
            Type::Semicolon => TypeView::Semicolon,
            Type::Slash => TypeView::Slash,
            Type::Star => TypeView::Star,
            Type::Bang => TypeView::Bang,
            Type::BangEqual => TypeView::BangEqual,
            Type::Equal => TypeView::Equal,
            Type::EqualEqual => TypeView::EqualEqual,
            Type::Greater => TypeView::Greater,
            Type::GreaterEqual => TypeView::GreaterEqual,
            Type::Less => TypeView::Less,
            Type::LessEqual => TypeView::LessEqual,
            Type::Identifier(s) => TypeView::Identifier(s@),
            Type::String(s) => TypeView::String(s@),
            Type::Number(s) => TypeView::Number(s@),
            Type::And => TypeView::And,
            Type::Class => TypeView::Class,
            Type::Else => TypeView::Else,
            Type::False => TypeView::False,
            Type::Fun => TypeView::Fun,
            Type::For => TypeView::For,
            Type::If => TypeView::If,
            Type::Nil => TypeView::Nil,
            Type::Or => TypeView::Or,
            Type::Print => TypeView::Print,
            Type::Return => TypeView::Return,
            Type::Super => TypeView::Super,
            Type::This => TypeView::This,
            Type::True => TypeView::True,
            Type::Var => TypeView::Var,
            Type::While => TypeView::While,
        }
    }
}

/// A token as it appears in specifications.
pub struct TokenView {
    pub typ: TypeView,
    pub line: nat,
}

/// An immutable record of one recognized lexeme: its kind and the 1-based
/// source line on which its first character appears (for a multi-line
/// string literal, the line of the closing quote).
#[derive(Clone, Debug, PartialEq)]
pub struct Token<'a> {
    pub typ: Type<'a>,
    pub line: usize,
}

impl<'a> View for Token<'a> {
    type V = TokenView;

    open spec fn view(&self) -> TokenView {
        TokenView { typ: self.typ@, line: self.line as nat }
    }
}

impl<'a> Token<'a> {
    #[must_use]
    pub fn new(typ: Type<'a>, line: usize) -> (t: Token<'a>)
        ensures
            t.typ == typ,
            t.line == line,
    {
        Token { typ, line }
    }
}

/// The keyword table: maps a reserved-word spelling to its token kind.
/// Lookup is by exact spelling; no case folding, no partial matches.
pub open spec fn keyword_of(s: Seq<char>) -> Option<TypeView> {
    if s == seq!['a', 'n', 'd'] {
        Some(TypeView::And)
    } else if s == seq!['c', 'l', 'a', 's', 's'] {
        Some(TypeView::Class)
    } else if s == seq!['e', 'l', 's', 'e'] {
        Some(TypeView::Else)
    } else if s == seq!['f', 'a', 'l', 's', 'e'] {
        Some(TypeView::False)
    } else if s == seq!['f', 'u', 'n'] {
        Some(TypeView::Fun)
    } else if s == seq!['f', 'o', 'r'] {
        Some(TypeView::For)
    } else if s == seq!['i', 'f'] {
        Some(TypeView::If)
    } else if s == seq!['n', 'i', 'l'] {
        Some(TypeView::Nil)
    } else if s == seq!['o', 'r'] {
        Some(TypeView::Or)
    } else if s == seq!['p', 'r', 'i', 'n', 't'] {
        Some(TypeView::Print)
    } else if s == seq!['r', 'e', 't', 'u', 'r', 'n'] {
        Some(TypeView::Return)
    } else if s == seq!['s', 'u', 'p', 'e', 'r'] {
        Some(TypeView::Super)
    } else if s == seq!['t', 'h', 'i', 's'] {
        Some(TypeView::This)
    } else if s == seq!['t', 'r', 'u', 'e'] {
        Some(TypeView::True)
    } else if s == seq!['v', 'a', 'r'] {
        Some(TypeView::Var)
    } else if s == seq!['w', 'h', 'i', 'l', 'e'] {
        Some(TypeView::While)
    } else {
        None
    }
}

/// The kind produced for an identifier candidate: the matching keyword
/// kind on a keyword-table hit, a generic identifier otherwise.
pub open spec fn ident_kind_of(s: Seq<char>) -> TypeView {
    match keyword_of(s) {
        Some(k) => k,
        None => TypeView::Identifier(s),
    }
}

/// The display form of a token kind: punctuation and operators display as
/// their literal characters, literal-carrying kinds as their payload text,
/// keywords as their reserved-word spelling. This mapping exactly inverts
/// the punctuation dispatch and the keyword table used for recognition.
pub open spec fn display_of(t: TypeView) -> Seq<char> {
    match t {
        TypeView::LeftParent => seq!['('],
        TypeView::RightParent => seq![')'],
        TypeView::LeftBrace => seq!['{'],
        TypeView::RightBrace => seq!['}'],
        TypeView::Comma => seq![','],
        TypeView::Dot => seq!['.'],
        TypeView::Minus => seq!['-'],
        TypeView::Plus => seq!['+'],
        TypeView::Semicolon => seq![';'],
        TypeView::Slash => seq!['/'],
        TypeView::Star => seq!['*'],
        TypeView::Bang => seq!['!'],
        TypeView::BangEqual => seq!['!', '='],
        TypeView::Equal => seq!['='],
        TypeView::EqualEqual => seq!['=', '='],
        TypeView::Greater => seq!['>'],
        TypeView::GreaterEqual => seq!['>', '='],
        TypeView::Less => seq!['<'],
        TypeView::LessEqual => seq!['<', '='],
        TypeView::Identifier(s) => s,
        TypeView::String(s) => s,
        TypeView::Number(s) => s,
        TypeView::And => seq!['a', 'n', 'd'],
        TypeView::Class => seq!['c', 'l', 'a', 's', 's'],
        TypeView::Else => seq!['e', 'l', 's', 'e'],
        TypeView::False => seq!['f', 'a', 'l', 's', 'e'],
        TypeView::Fun => seq!['f', 'u', 'n'],
        TypeView::For => seq!['f', 'o', 'r'],
        TypeView::If => seq!['i', 'f'],
        TypeView::Nil => seq!['n', 'i', 'l'],
        TypeView::Or => seq!['o', 'r'],
        TypeView::Print => seq!['p', 'r', 'i', 'n', 't'],
        TypeView::Return => seq!['r', 'e', 't', 'u', 'r', 'n'],
        TypeView::Super => seq!['s', 'u', 'p', 'e', 'r'],
        TypeView::This => seq!['t', 'h', 'i', 's'],
        TypeView::True => seq!['t', 'r', 'u', 'e'],
        TypeView::Var => seq!['v', 'a', 'r'],
        TypeView::While => seq!['w', 'h', 'i', 'l', 'e'],
    }
}

/// Character-by-character equality of two string slices.
fn str_eq(a: &str, b: &str) -> (r: bool)
    ensures
        r == (a@ == b@),
{
    let n = a.unicode_len();
    if n != b.unicode_len() {
        return false;
    }
    let mut j: usize = 0;
    while j < n
        invariant
            n == a@.len(),
            a@.len() == b@.len(),
            j <= n,
            forall|k: int| 0 <= k < j ==> a@[k] == b@[k],
        decreases n - j,
    {
        if a.get_char(j) != b.get_char(j) {
            return false;
        }
        j += 1;
    }
    proof {
        assert(a@ =~= b@);
    }
    true
}

/// Classifies an identifier candidate: consults the keyword table and
/// returns the matching keyword kind, or an identifier carrying the exact
/// span as its payload on a miss.
pub fn keyword_or_identifier<'a>(span: &'a str) -> (t: Type<'a>)
    ensures
        t@ == ident_kind_of(span@),
{
    proof {
        reveal_strlit("and");
        reveal_strlit("class");
        reveal_strlit("else");
        reveal_strlit("false");
        reveal_strlit("fun");
        reveal_strlit("for");
        reveal_strlit("if");
        reveal_strlit("nil");
        reveal_strlit("or");
        reveal_strlit("print");
        reveal_strlit("return");
        reveal_strlit("super");
        reveal_strlit("this");
        reveal_strlit("true");
        reveal_strlit("var");
        reveal_strlit("while");
        assert("and"@ =~= seq!['a', 'n', 'd']);
        assert("class"@ =~= seq!['c', 'l', 'a', 's', 's']);
        assert("else"@ =~= seq!['e', 'l', 's', 'e']);
        assert("false"@ =~= seq!['f', 'a', 'l', 's', 'e']);
        assert("fun"@ =~= seq!['f', 'u', 'n']);
        assert("for"@ =~= seq!['f', 'o', 'r']);
        assert("if"@ =~= seq!['i', 'f']);
        assert("nil"@ =~= seq!['n', 'i', 'l']);
        assert("or"@ =~= seq!['o', 'r']);
        assert("print"@ =~= seq!['p', 'r', 'i', 'n', 't']);
        assert("return"@ =~= seq!['r', 'e', 't', 'u', 'r', 'n']);
        assert("super"@ =~= seq!['s', 'u', 'p', 'e', 'r']);
        assert("this"@ =~= seq!['t', 'h', 'i', 's']);
        assert("true"@ =~= seq!['t', 'r', 'u', 'e']);
        assert("var"@ =~= seq!['v', 'a', 'r']);
        assert("while"@ =~= seq!['w', 'h', 'i', 'l', 'e']);
    }
    if str_eq(span, "and") {
        Type::And
    } else if str_eq(span, "class") {
        Type::Class
    } else if str_eq(span, "else") {
        Type::Else
    } else if str_eq(span, "false") {
        Type::False
    } else if str_eq(span, "fun") {
        Type::Fun
    } else if str_eq(span, "for") {
        Type::For
    } else if str_eq(span, "if") {
        Type::If
    } else if str_eq(span, "nil") {
        Type::Nil
    } else if str_eq(span, "or") {
        Type::Or
    } else if str_eq(span, "print") {
        Type::Print
    } else if str_eq(span, "return") {
        Type::Return
    } else if str_eq(span, "super") {
        Type::Super
    } else if str_eq(span, "this") {
        Type::This
    } else if str_eq(span, "true") {
        Type::True
    } else if str_eq(span, "var") {
        Type::Var
    } else if str_eq(span, "while") {
        Type::While
    } else {
        Type::Identifier(span)
    }
}

impl<'a> Type<'a> {
    /// The display form of this kind as executable text; see [`display_of`].
    pub fn render(&self) -> (r: &str)
        ensures
            r@ == display_of(self@),
    {
        match self {
            Type::LeftParent => {
                proof {
                    reveal_strlit("(");
                    assert("("@ =~= seq!['(']);
                }
                "("
            }
            Type::RightParent => {
                proof {
                    reveal_strlit(")");
                    assert(")"@ =~= seq![')']);
                }
                ")"
            }
            Type::LeftBrace => {
                proof {
                    reveal_strlit("{");
                    assert("{"@ =~= seq!['{']);
                }
                "{"
            }
            Type::RightBrace => {
                proof {
                    reveal_strlit("}");
                    assert("}"@ =~= seq!['}']);
                }
                "}"
            }
            Type::Comma => {
                proof {
                    reveal_strlit(",");
                    assert(","@ =~= seq![',']);
                }
                ","
            }
            Type::Dot => {
                proof {
                    reveal_strlit(".");
                    assert("."@ =~= seq!['.']);
                }
                "."
            }
            Type::Minus => {
                proof {
                    reveal_strlit("-");
                    assert("-"@ =~= seq!['-']);
                }
                "-"
            }
            Type::Plus => {
                proof {
                    reveal_strlit("+");
                    assert("+"@ =~= seq!['+']);
                }
                "+"
            }
            Type::Semicolon => {
                proof {
                    reveal_strlit(";");
                    assert(";"@ =~= seq![';']);
                }
                ";"
            }
            Type::Slash => {
                proof {
                    reveal_strlit("/");
                    assert("/"@ =~= seq!['/']);
                }
                "/"
            }
            Type::Star => {
                proof {
                    reveal_strlit("*");
                    assert("*"@ =~= seq!['*']);
                }
                "*"
            }
            Type::Bang => {
                proof {
                    reveal_strlit("!");
                    assert("!"@ =~= seq!['!']);
                }
                "!"
            }
            Type::BangEqual => {
                proof {
                    reveal_strlit("!=");
                    assert("!="@ =~= seq!['!', '=']);
                }
                "!="
            }
            Type::Equal => {
                proof {
                    reveal_strlit("=");
                    assert("="@ =~= seq!['=']);
                }
                "="
            }
            Type::EqualEqual => {
                proof {
                    reveal_strlit("==");
                    assert("=="@ =~= seq!['=', '=']);
                }
                "=="
            }
            Type::Greater => {
                proof {
                    reveal_strlit(">");
                    assert(">"@ =~= seq!['>']);
                }
                ">"
            }
            Type::GreaterEqual => {
                proof {
                    reveal_strlit(">=");
                    assert(">="@ =~= seq!['>', '=']);
                }
                ">="
            }
            Type::Less => {
                proof {
                    reveal_strlit("<");
                    assert("<"@ =~= seq!['<']);
                }
                "<"
            }
            Type::LessEqual => {
                proof {
                    reveal_strlit("<=");
                    assert("<="@ =~= seq!['<', '=']);
                }
                "<="
            }
            Type::Identifier(s) => *s,
            Type::String(s) => *s,
            Type::Number(s) => *s,
            Type::And => {
                proof {
                    reveal_strlit("and");
                    assert("and"@ =~= seq!['a', 'n', 'd']);
                }
                "and"
            }
            Type::Class => {
                proof {
                    reveal_strlit("class");
                    assert("class"@ =~= seq!['c', 'l', 'a', 's', 's']);
                }
                "class"
            }
            Type::Else => {
                proof {
                    reveal_strlit("else");
                    assert("else"@ =~= seq!['e', 'l', 's', 'e']);
                }
                "else"
            }
            Type::False => {
                proof {
                    reveal_strlit("false");
                    assert("false"@ =~= seq!['f', 'a', 'l', 's', 'e']);
                }
                "false"
            }
            Type::Fun => {
                proof {
                    reveal_strlit("fun");
                    assert("fun"@ =~= seq!['f', 'u', 'n']);
                }
                "fun"
            }
            Type::For => {
                proof {
                    reveal_strlit("for");
                    assert("for"@ =~= seq!['f', 'o', 'r']);
                }
                "for"
            }
            Type::If => {
                proof {
                    reveal_strlit("if");
                    assert("if"@ =~= seq!['i', 'f']);
                }
                "if"
            }
            Type::Nil => {
                proof {
                    reveal_strlit("nil");
                    assert("nil"@ =~= seq!['n', 'i', 'l']);
                }
                "nil"
            }
            Type::Or => {
                proof {
                    reveal_strlit("or");
                    assert("or"@ =~= seq!['o', 'r']);
                }
                "or"
            }
            Type::Print => {
                proof {
                    reveal_strlit("print");
                    assert("print"@ =~= seq!['p', 'r', 'i', 'n', 't']);
                }
                "print"
            }
            Type::Return => {
                proof {
                    reveal_strlit("return");
                    assert("return"@ =~= seq!['r', 'e', 't', 'u', 'r', 'n']);
                }
                "return"
            }
            Type::Super => {
                proof {
                    reveal_strlit("super");
                    assert("super"@ =~= seq!['s', 'u', 'p', 'e', 'r']);
                }
                "super"
            }
            Type::This => {
                proof {
                    reveal_strlit("this");
                    assert("this"@ =~= seq!['t', 'h', 'i', 's']);
                }
                "this"
            }
            Type::True => {
                proof {
                    reveal_strlit("true");
                    assert("true"@ =~= seq!['t', 'r', 'u', 'e']);
                }
                "true"
            }
            Type::Var => {
                proof {
                    reveal_strlit("var");
                    assert("var"@ =~= seq!['v', 'a', 'r']);
                }
                "var"
            }
            Type::While => {
                proof {
                    reveal_strlit("while");
                    assert("while"@ =~= seq!['w', 'h', 'i', 'l', 'e']);
                }
                "while"
            }
        }
    }
}

} // verus!
