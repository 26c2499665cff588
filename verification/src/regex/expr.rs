use crate::text::chars_of;
use vstd::prelude::*;
use vstd::string::*;

verus! {

/// One symbol of a pattern as it is written: an operator, a parenthesis or an atom.
#[derive(Debug, Clone, Copy)]
pub enum Token {
    Star,
    Opt,
    Plus,
    Concat,
    Alt,
    OpenParenthesis,
    ClosedParenthesis,
    Lit(char),
    CharRange(char, char),
}

/// One element of a regular expression in postfix order: an atom (`Literal`, `CharRange`),
/// a unary operator (`Star`, `Opt`, `Plus`) or a binary operator (`Concat`, `Alt`).
#[derive(Debug, Clone, Copy, PartialEq, Eq, PartialOrd, Ord)]
pub enum Expr {
    Literal(char),
    Concat,
    Alt,
    Star,
    Opt,
    Plus,
    CharRange(char, char),
}

impl Token {
    /// How tightly the symbol binds: the postfix operators most, then concatenation, then
    /// alternation; parentheses and atoms not at all.
    pub open spec fn rank(self) -> int {
        match self {
            Token::Star | Token::Plus | Token::Opt => 3,
            Token::Concat => 2,
            Token::Alt => 1,
            _ => 0,
        }
    }

    /// True for every symbol but the atoms.
    pub open spec fn operator(self) -> bool {
        !(self is Lit || self is CharRange)
    }

    /// The postfix element that the symbol stands for; a parenthesis stands for none.
    pub open spec fn element(self) -> Option<Expr> {
        match self {
            Token::Star => Some(Expr::Star),
            Token::Opt => Some(Expr::Opt),
            Token::Plus => Some(Expr::Plus),
            Token::Concat => Some(Expr::Concat),
            Token::Alt => Some(Expr::Alt),
            Token::Lit(c) => Some(Expr::Literal(c)),
            Token::CharRange(a, b) => Some(Expr::CharRange(a, b)),
            _ => None,
        }
    }

    /// How tightly the symbol binds.
    pub fn precedence(&self) -> (p: u8)
        ensures
            p == self.rank(),
    {
        match self {
            Token::Star | Token::Plus | Token::Opt => 3,
            Token::Concat => 2,
            Token::Alt => 1,
            _ => 0,
        }
    }

    /// Tests whether the symbol is no atom.
    pub fn is_op(&self) -> (b: bool)
        ensures
            b == self.operator(),
    {
        match self {
            Token::Lit(_) | Token::CharRange(_, _) => false,
            _ => true,
        }
    }

    /// The postfix element that the symbol stands for.
    pub fn to_expr(&self) -> (e: Option<Expr>)
        ensures
            e == self.element(),
    {
        match self {
            Token::Star => Some(Expr::Star),
            Token::Opt => Some(Expr::Opt),
            Token::Plus => Some(Expr::Plus),
            Token::Concat => Some(Expr::Concat),
            Token::Alt => Some(Expr::Alt),
            Token::Lit(c) => Some(Expr::Literal(*c)),
            Token::CharRange(a, b) => Some(Expr::CharRange(*a, *b)),
            _ => None,
        }
    }
}

/// True when `i` is the place of the first hyphen in `buf`.
pub open spec fn is_first_hyphen(buf: Seq<char>, i: int) -> bool {
    &&& 0 <= i < buf.len()
    &&& buf[i] == '-'
    &&& forall|j: int| 0 <= j < i ==> buf[j] != '-'
}

/// The range that the text between square brackets denotes: the first character before
/// the first hyphen to the first character behind it. There is none where the hyphen, or a
/// character on one of its sides, is missing.
pub open spec fn range_token(buf: Seq<char>) -> Option<Token> {
    if exists|i: int| is_first_hyphen(buf, i) {
        let i = choose|i: int| is_first_hyphen(buf, i);
        if 0 < i && i + 1 < buf.len() {
            Some(Token::CharRange(buf[0], buf[i + 1]))
        } else {
            None
        }
    } else {
        None
    }
}

/// Where the lexical pass stands: the symbols found so far, whether a backslash was just
/// read, and the text read since an open square bracket, if one is open.
pub struct Scanner {
    pub out: Seq<Token>,
    pub escaped: bool,
    pub class: Option<Seq<char>>,
}

/// The symbol that a character outside brackets and behind no backslash stands for.
pub open spec fn plain_token(c: char) -> Token {
    if c == '(' {
        Token::OpenParenthesis
    } else if c == ')' {
        Token::ClosedParenthesis
    } else if c == '+' {
        Token::Plus
    } else if c == '.' {
        Token::Concat
    } else if c == '*' {
        Token::Star
    } else if c == '?' {
        Token::Opt
    } else if c == '|' {
        Token::Alt
    } else {
        Token::Lit(c)
    }
}

impl Scanner {
    /// The scanner after one more character. A backslash outside brackets makes the next
    /// character a literal; between square brackets every character but `]` is kept as
    /// text, and `]` turns the text into a range.
    pub open spec fn step(self, c: char) -> Result<Scanner, Seq<char>> {
        if self.escaped {
            Ok(Scanner { out: self.out.push(Token::Lit(c)), escaped: false, class: None })
        } else if self.class is Some {
            let buf = self.class->Some_0;
            if c == ']' {
                match range_token(buf) {
                    Some(t) => Ok(Scanner { out: self.out.push(t), escaped: false, class: None }),
                    None => Err("Invalid range"@),
                }
            } else {
                Ok(Scanner { out: self.out, escaped: false, class: Some(buf.push(c)) })
            }
        } else if c == '[' {
            Ok(Scanner { out: self.out, escaped: false, class: Some(Seq::empty()) })
        } else if c == '\\' {
            Ok(Scanner { out: self.out, escaped: true, class: None })
        } else {
            Ok(Scanner { out: self.out.push(plain_token(c)), escaped: false, class: None })
        }
    }
}

/// The scanner after the first `n` characters of the pattern `s`.
pub open spec fn scan_prefix(s: Seq<char>, n: nat) -> Result<Scanner, Seq<char>>
    decreases n,
{
    if n == 0 || n > s.len() {
        Ok(Scanner { out: Seq::empty(), escaped: false, class: None })
    } else {
        match scan_prefix(s, (n - 1) as nat) {
            Ok(sc) => sc.step(s[n - 1]),
            Err(e) => Err(e),
        }
    }
}

/// The symbols of the pattern `s`, or the reason why it has none: a range that is not one,
/// or a bracket or backslash that the pattern ends in.
pub open spec fn tokenize_spec(s: Seq<char>) -> Result<Seq<Token>, Seq<char>> {
    match scan_prefix(s, s.len()) {
        Ok(sc) => if sc.escaped || sc.class is Some {
            Err("Unclosed '['"@)
        } else {
            Ok(sc.out)
        },
        Err(e) => Err(e),
    }
}

/// Once the lexical pass has failed on a prefix, it fails on the whole pattern with the
/// same reason.
pub proof fn scan_fails_from(s: Seq<char>, n: nat)
    requires
        n <= s.len(),
        scan_prefix(s, n) is Err,
    ensures
        tokenize_spec(s) == Err::<Seq<Token>, Seq<char>>(scan_prefix(s, n)->Err_0),
    decreases s.len() - n,
{
    if n < s.len() {
        assert(scan_prefix(s, n + 1) == scan_prefix(s, n));
        scan_fails_from(s, n + 1);
    }
}

impl Expr {
    /// The postfix element that a single character stands for: an operator for one of
    /// `. | * ? +`, and a literal for any other character.
    pub fn from(c: char) -> (e: Self)
        ensures
            e == (if c == '.' {
                Expr::Concat
            } else if c == '|' {
                Expr::Alt
            } else if c == '*' {
                Expr::Star
            } else if c == '?' {
                Expr::Opt
            } else if c == '+' {
                Expr::Plus
            } else {
                Expr::Literal(c)
            }),
    {
        if c == '.' {
            Expr::Concat
        } else if c == '|' {
            Expr::Alt
        } else if c == '*' {
            Expr::Star
        } else if c == '?' {
            Expr::Opt
        } else if c == '+' {
            Expr::Plus
        } else {
            Expr::Literal(c)
        }
    }

    fn process_range_token(buf: &Vec<char>) -> (r: Result<Token, String>)
        ensures
            match r {
                Ok(t) => range_token(buf@) == Some(t),
                Err(e) => range_token(buf@) is None && e@ == "Invalid range"@,
            },
    {
        let mut i: usize = 0;
        while i < buf.len() && buf[i] != '-'
            invariant
                i <= buf.len(),
                forall|j: int| 0 <= j < i ==> buf@[j] != '-',
            decreases buf.len() - i,
        {
            i += 1;
        }
        if i < buf.len() {
            assert(is_first_hyphen(buf@, i as int));
            assert forall|k: int| is_first_hyphen(buf@, k) implies k == i by {}
            if 0 < i && i + 1 < buf.len() {
                return Ok(Token::CharRange(buf[0], buf[i + 1]));
            }
        } else {
            assert forall|k: int| !is_first_hyphen(buf@, k) by {}
        }
        Err(String::from_str("Invalid range"))
    }

    fn tokenize(s: &str) -> (r: Result<Vec<Token>, String>)
        ensures
            match r {
                Ok(v) => tokenize_spec(s@) == Ok::<Seq<Token>, Seq<char>>(v@),
                Err(e) => tokenize_spec(s@) == Err::<Seq<Token>, Seq<char>>(e@),
            },
    {
        let chars = chars_of(s);
        let mut out: Vec<Token> = Vec::new();
        let mut escaped = false;
        let mut in_class = false;
        let mut buf: Vec<char> = Vec::new();
        let mut i: usize = 0;
        while i < chars.len()
            invariant
                i <= chars.len(),
                chars@ == s@,
                scan_prefix(s@, i as nat) == Ok::<Scanner, Seq<char>>(
                    Scanner {
                        out: out@,
                        escaped,
                        class: if in_class {
                            Some(buf@)
                        } else {
                            None
                        },
                    },
                ),
            decreases chars.len() - i,
        {
            let c = chars[i];
            if escaped {
                out.push(Token::Lit(c));
                escaped = false;
                in_class = false;
            } else if in_class {
                if c == ']' {
                    match Self::process_range_token(&buf) {
                        Ok(t) => {
                            out.push(t);
                        },
                        Err(e) => {
                            proof {
                                scan_fails_from(s@, (i + 1) as nat);
                            }
                            return Err(e);
                        },
                    }
                    in_class = false;
                } else {
                    buf.push(c);
                }
            } else if c == '[' {
                in_class = true;
                buf = Vec::new();
            } else if c == '\\' {
                escaped = true;
            } else if c == '(' {
                out.push(Token::OpenParenthesis);
            } else if c == ')' {
                out.push(Token::ClosedParenthesis);
            } else if c == '+' {
                out.push(Token::Plus);
            } else if c == '.' {
                out.push(Token::Concat);
            } else if c == '*' {
                out.push(Token::Star);
            } else if c == '?' {
                out.push(Token::Opt);
            } else if c == '|' {
                out.push(Token::Alt);
            } else {
                out.push(Token::Lit(c));
            }
            i += 1;
        }
        if escaped || in_class {
            Err(String::from_str("Unclosed '['"))
        } else {
            Ok(out)
        }
    }
}


/// Where the shunting-yard pass stands: the stack of operators and open parentheses that
/// wait, and the postfix sequence written so far.
pub struct Yard {
    pub ops: Seq<Token>,
    pub out: Seq<Expr>,
}

impl Yard {
    /// The yard after its topmost symbol was taken off the stack and written out.
    pub open spec fn shift(self) -> Result<Yard, Seq<char>> {
        match self.ops.last().element() {
            Some(e) => Ok(Yard { ops: self.ops.drop_last(), out: self.out.push(e) }),
            None => Err("Invalid token"@),
        }
    }

    /// The yard after a closing parenthesis: the operators above the nearest open
    /// parenthesis are written out and the parenthesis is dropped. Without an open
    /// parenthesis on the stack the closing one is unmatched.
    pub open spec fn close_group(self) -> Result<Yard, Seq<char>>
        decreases self.ops.len(),
    {
        if self.ops.len() == 0 {
            Err("Unmatched ')'"@)
        } else if self.ops.last() is OpenParenthesis {
            Ok(Yard { ops: self.ops.drop_last(), out: self.out })
        } else {
            match self.shift() {
                Ok(y) => y.close_group(),
                Err(e) => Err(e),
            }
        }
    }

    /// True when the topmost symbol of the stack is an operator that binds at least as
    /// tightly as `t`.
    pub open spec fn top_outranks(self, t: Token) -> bool {
        self.ops.len() > 0 && self.ops.last().operator() && self.ops.last().rank() >= t.rank()
    }

    /// The yard after the operators on top of the stack that bind at least as tightly as
    /// `t` were written out.
    pub open spec fn yield_to(self, t: Token) -> Yard
        decreases self.ops.len(),
    {
        if self.top_outranks(t) {
            match self.shift() {
                Ok(y) => y.yield_to(t),
                Err(_) => self,
            }
        } else {
            self
        }
    }

    /// The yard after one more symbol.
    pub open spec fn step(self, t: Token) -> Result<Yard, Seq<char>> {
        match t {
            Token::OpenParenthesis => Ok(Yard { ops: self.ops.push(t), out: self.out }),
            Token::ClosedParenthesis => self.close_group(),
            Token::Lit(c) => Ok(Yard { ops: self.ops, out: self.out.push(Expr::Literal(c)) }),
            Token::CharRange(a, b) => Ok(
                Yard { ops: self.ops, out: self.out.push(Expr::CharRange(a, b)) },
            ),
            _ => {
                let y = self.yield_to(t);
                Ok(Yard { ops: y.ops.push(t), out: y.out })
            },
        }
    }

    /// The postfix sequence once the symbols have ended: the operators left on the stack
    /// are written out. An open parenthesis left on the stack is unmatched.
    pub open spec fn drain(self) -> Result<Seq<Expr>, Seq<char>>
        decreases self.ops.len(),
    {
        if self.ops.len() == 0 {
            Ok(self.out)
        } else if self.ops.last() is OpenParenthesis {
            Err("Unmatched '('"@)
        } else {
            match self.shift() {
                Ok(y) => y.drain(),
                Err(e) => Err(e),
            }
        }
    }
}

/// The yard after the first `n` symbols of `tokens`.
pub open spec fn yard_prefix(tokens: Seq<Token>, n: nat) -> Result<Yard, Seq<char>>
    decreases n,
{
    if n == 0 || n > tokens.len() {
        Ok(Yard { ops: Seq::empty(), out: Seq::empty() })
    } else {
        match yard_prefix(tokens, (n - 1) as nat) {
            Ok(y) => y.step(tokens[n - 1]),
            Err(e) => Err(e),
        }
    }
}

/// The postfix sequence of a sequence of symbols by the shunting-yard method, or the
/// reason why it has none.
pub open spec fn parse_all_spec(tokens: Seq<Token>) -> Result<Seq<Expr>, Seq<char>> {
    match yard_prefix(tokens, tokens.len()) {
        Ok(y) => y.drain(),
        Err(e) => Err(e),
    }
}

/// The postfix sequence of the pattern `s`, or the reason why it has none.
pub open spec fn postfix_of(s: Seq<char>) -> Result<Seq<Expr>, Seq<char>> {
    match tokenize_spec(s) {
        Ok(tokens) => parse_all_spec(tokens),
        Err(e) => Err(e),
    }
}

/// Once the shunting-yard pass has failed on a prefix, it fails on the whole sequence
/// with the same reason.
pub proof fn yard_fails_from(tokens: Seq<Token>, n: nat)
    requires
        n <= tokens.len(),
        yard_prefix(tokens, n) is Err,
    ensures
        parse_all_spec(tokens) == Err::<Seq<Expr>, Seq<char>>(yard_prefix(tokens, n)->Err_0),
    decreases tokens.len() - n,
{
    if n < tokens.len() {
        assert(yard_prefix(tokens, n + 1) == yard_prefix(tokens, n));
        yard_fails_from(tokens, n + 1);
    }
}

impl Expr {
    fn parse_all(tokens: Vec<Token>) -> (r: Result<Vec<Expr>, String>)
        ensures
            match r {
                Ok(v) => parse_all_spec(tokens@) == Ok::<Seq<Expr>, Seq<char>>(v@),
                Err(e) => parse_all_spec(tokens@) == Err::<Seq<Expr>, Seq<char>>(e@),
            },
    {
        let mut ops: Vec<Token> = Vec::new();
        let mut out: Vec<Expr> = Vec::new();
        let mut i: usize = 0;
        while i < tokens.len()
            invariant
                i <= tokens.len(),
                yard_prefix(tokens@, i as nat) == Ok::<Yard, Seq<char>>(
                    Yard { ops: ops@, out: out@ },
                ),
            decreases tokens.len() - i,
        {
            let t = tokens[i];
            let ghost before = Yard { ops: ops@, out: out@ };
            assert(yard_prefix(tokens@, (i + 1) as nat) == before.step(t));
            match t {
                Token::OpenParenthesis => {
                    ops.push(t);
                },
                Token::ClosedParenthesis => {
                    let mut closed = false;
                    while !closed
                        invariant
                            before.step(t) == (if closed {
                                Ok::<Yard, Seq<char>>(Yard { ops: ops@, out: out@ })
                            } else {
                                (Yard { ops: ops@, out: out@ }).close_group()
                            }),
                            yard_prefix(tokens@, (i + 1) as nat) == before.step(t),
                            i < tokens.len(),
                        decreases ops.len() + (if closed { 0int } else { 1int }),
                    {
                        match ops.pop() {
                            None => {
                                proof {
                                    yard_fails_from(tokens@, (i + 1) as nat);
                                }
                                return Err(String::from_str("Unmatched ')'"));
                            },
                            Some(op) => {
                                match op {
                                    Token::OpenParenthesis => {
                                        closed = true;
                                    },
                                    _ => {
                                        match op.to_expr() {
                                            Some(e) => {
                                                out.push(e);
                                            },
                                            None => {
                                                proof {
                                                    yard_fails_from(tokens@, (i + 1) as nat);
                                                }
                                                return Err(String::from_str("Invalid token"));
                                            },
                                        }
                                    },
                                }
                            },
                        }
                    }
                },
                Token::Lit(c) => {
                    out.push(Expr::Literal(c));
                },
                Token::CharRange(a, b) => {
                    out.push(Expr::CharRange(a, b));
                },
                _ => {
                    loop
                        invariant
                            before.yield_to(t) == (Yard { ops: ops@, out: out@ }).yield_to(t),
                        ensures
                            before.yield_to(t) == (Yard { ops: ops@, out: out@ }),
                        decreases ops.len(),
                    {
                        let n = ops.len();
                        if n == 0 {
                            break ;
                        }
                        let top = ops[n - 1];
                        if !(top.is_op() && top.precedence() >= t.precedence()) {
                            break ;
                        }
                        match top.to_expr() {
                            Some(e) => {
                                ops.pop();
                                out.push(e);
                            },
                            None => {
                                break ;
                            },
                        }
                    }
                    ops.push(t);
                },
            }
            i += 1;
        }
        loop
            invariant
                parse_all_spec(tokens@) == (Yard { ops: ops@, out: out@ }).drain(),
            decreases ops.len(),
        {
            match ops.pop() {
                None => {
                    return Ok(out);
                },
                Some(op) => {
                    match op {
                        Token::OpenParenthesis => {
                            return Err(String::from_str("Unmatched '('"));
                        },
                        _ => {
                            match op.to_expr() {
                                Some(e) => {
                                    out.push(e);
                                },
                                None => {
                                    return Err(String::from_str("Invalid token"));
                                },
                            }
                        },
                    }
                },
            }
        }
    }

    /// Compiles a pattern to its postfix sequence: a lexical pass, then the shunting-yard
    /// method.
    pub fn build(s: &str) -> (r: Result<Vec<Expr>, String>)
        ensures
            match r {
                Ok(v) => postfix_of(s@) == Ok::<Seq<Expr>, Seq<char>>(v@),
                Err(e) => postfix_of(s@) == Err::<Seq<Expr>, Seq<char>>(e@),
            },
    {
        match Self::tokenize(s) {
            Ok(tokens) => Self::parse_all(tokens),
            Err(e) => Err(e),
        }
    }
}

} // verus!
