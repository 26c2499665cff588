//! The written form of a pattern, and the proof that the lexical pass reads it back as
//! the symbols of the pattern.
use super::expr::{is_first_hyphen, range_token, scan_prefix, tokenize_spec, Scanner, Token};
use super::grammar::{well_formed, Syntax};
use vstd::prelude::*;

verus! {

/// True for the characters that stand for something else than themselves in a pattern.
pub open spec fn is_meta(c: char) -> bool {
    c == '[' || c == '\\' || c == '(' || c == ')' || c == '+' || c == '.' || c == '*' || c == '?'
        || c == '|'
}

impl Syntax {
    /// True when every range of the tree can be written between square brackets: its
    /// first end is no hyphen, and neither end is a closing bracket.
    pub open spec fn writable(self) -> bool
        decreases self,
    {
        match self {
            Syntax::Lit(_) => true,
            Syntax::Range(a, b) => a != '-' && a != ']' && b != ']',
            Syntax::Group(x) | Syntax::Star(x) | Syntax::Opt(x) | Syntax::Plus(x) => x.writable(),
            Syntax::Concat(l, r) | Syntax::Alt(l, r) => l.writable() && r.writable(),
        }
    }

    /// The pattern as it is written: a literal as its character, behind a backslash where
    /// the character stands for something else; a range between square brackets; a group
    /// between parentheses; an operator behind its operand or between its operands.
    pub open spec fn text(self) -> Seq<char>
        decreases self,
    {
        match self {
            Syntax::Lit(c) => if is_meta(c) {
                seq!['\\', c]
            } else {
                seq![c]
            },
            Syntax::Range(a, b) => seq!['[', a, '-', b, ']'],
            Syntax::Group(x) => seq!['('] + x.text() + seq![')'],
            Syntax::Star(x) => x.text() + seq!['*'],
            Syntax::Opt(x) => x.text() + seq!['?'],
            Syntax::Plus(x) => x.text() + seq!['+'],
            Syntax::Concat(l, r) => l.text() + seq!['.'] + r.text(),
            Syntax::Alt(l, r) => l.text() + seq!['|'] + r.text(),
        }
    }
}

/// The scanner after the characters `chars`, read one after the other from `sc`.
pub open spec fn scan_from(sc: Scanner, chars: Seq<char>) -> Result<Scanner, Seq<char>>
    decreases chars.len(),
{
    if chars.len() == 0 {
        Ok(sc)
    } else {
        match scan_from(sc, chars.drop_last()) {
            Ok(z) => z.step(chars.last()),
            Err(e) => Err(e),
        }
    }
}

/// Reading two texts one after the other is reading their concatenation.
pub proof fn scan_concat(sc: Scanner, a: Seq<char>, b: Seq<char>)
    ensures
        scan_from(sc, a + b) == (match scan_from(sc, a) {
            Ok(z) => scan_from(z, b),
            Err(e) => Err(e),
        }),
    decreases b.len(),
{
    if b.len() == 0 {
        assert(a + b == a);
    } else {
        scan_concat(sc, a, b.drop_last());
        assert((a + b).drop_last() == a + b.drop_last());
        assert((a + b).last() == b.last());
    }
}

/// Reading one character.
pub proof fn scan_one(sc: Scanner, c: char)
    ensures
        scan_from(sc, seq![c]) == sc.step(c),
{
    assert(seq![c].drop_last() == Seq::<char>::empty());
    assert(scan_from(sc, seq![c].drop_last()) == Ok::<Scanner, Seq<char>>(sc));
}

/// The scanner of the lexical pass over a whole pattern is the scanner that reading the
/// pattern from the start gives.
pub proof fn prefix_is_scan(s: Seq<char>, n: nat)
    requires
        n <= s.len(),
    ensures
        scan_prefix(s, n) == scan_from(
            Scanner { out: Seq::empty(), escaped: false, class: None },
            s.take(n as int),
        ),
    decreases n,
{
    if n > 0 {
        prefix_is_scan(s, (n - 1) as nat);
        assert(s.take(n as int).drop_last() == s.take(n - 1));
        assert(s.take(n as int).last() == s[n - 1]);
    }
}

/// The scanner outside brackets and behind no backslash that has found the symbols
/// `out`.
pub open spec fn plain(out: Seq<Token>) -> Scanner {
    Scanner { out, escaped: false, class: None }
}

/// The written form of a range is read back as the range.
proof fn scan_range(out: Seq<Token>, a: char, b: char)
    requires
        a != '-',
        a != ']',
        b != ']',
    ensures
        scan_from(plain(out), seq!['[', a, '-', b, ']']) == Ok::<Scanner, Seq<char>>(
            plain(out.push(Token::CharRange(a, b))),
        ),
{
    let chars = seq!['[', a, '-', b, ']'];
    let c1 = seq!['['];
    let c2 = seq!['[', a];
    let c3 = seq!['[', a, '-'];
    let c4 = seq!['[', a, '-', b];
    assert(chars.drop_last() == c4);
    assert(c4.drop_last() == c3);
    assert(c3.drop_last() == c2);
    assert(c2.drop_last() == c1);
    scan_one(plain(out), '[');
    let s1 = Scanner { out, escaped: false, class: Some(Seq::<char>::empty()) };
    assert(scan_from(plain(out), c1) == Ok::<Scanner, Seq<char>>(s1));
    let s2 = Scanner { out, escaped: false, class: Some(Seq::<char>::empty().push(a)) };
    assert(scan_from(plain(out), c2) == Ok::<Scanner, Seq<char>>(s2));
    let s3 = Scanner {
        out,
        escaped: false,
        class: Some(Seq::<char>::empty().push(a).push('-')),
    };
    assert(scan_from(plain(out), c3) == Ok::<Scanner, Seq<char>>(s3));
    let buf = Seq::<char>::empty().push(a).push('-').push(b);
    let s4 = Scanner { out, escaped: false, class: Some(buf) };
    assert(scan_from(plain(out), c4) == Ok::<Scanner, Seq<char>>(s4));
    assert(is_first_hyphen(buf, 1));
    assert forall|i: int| is_first_hyphen(buf, i) implies i == 1 by {
        if i == 0 {
        } else if i > 1 {
            assert(buf[1] == '-');
        }
    }
    assert(range_token(buf) == Some(Token::CharRange(a, b)));
}

/// The written form of a pattern is read back as the symbols of the pattern.
pub proof fn scan_text(s: Syntax, out: Seq<Token>)
    requires
        s.writable(),
    ensures
        scan_from(plain(out), s.text()) == Ok::<Scanner, Seq<char>>(plain(out + s.tokens())),
    decreases s,
{
    match s {
        Syntax::Lit(c) => {
            assert(out + s.tokens() == out.push(Token::Lit(c)));
            if is_meta(c) {
                let chars = seq!['\\', c];
                assert(chars.drop_last() == seq!['\\']);
                scan_one(plain(out), '\\');
            } else {
                scan_one(plain(out), c);
            }
        },
        Syntax::Range(a, b) => {
            scan_range(out, a, b);
            assert(out + s.tokens() == out.push(Token::CharRange(a, b)));
        },
        Syntax::Group(x) => {
            let open = seq!['('];
            let close = seq![')'];
            scan_one(plain(out), '(');
            scan_text(*x, out.push(Token::OpenParenthesis));
            scan_concat(plain(out), open, x.text());
            scan_concat(plain(out), open + x.text(), close);
            let inner = out.push(Token::OpenParenthesis) + x.tokens();
            scan_one(plain(inner), ')');
            assert(inner.push(Token::ClosedParenthesis) == out + s.tokens());
        },
        Syntax::Star(x) => {
            scan_text(*x, out);
            scan_concat(plain(out), x.text(), seq!['*']);
            scan_one(plain(out + x.tokens()), '*');
            assert((out + x.tokens()).push(Token::Star) == out + s.tokens());
        },
        Syntax::Opt(x) => {
            scan_text(*x, out);
            scan_concat(plain(out), x.text(), seq!['?']);
            scan_one(plain(out + x.tokens()), '?');
            assert((out + x.tokens()).push(Token::Opt) == out + s.tokens());
        },
        Syntax::Plus(x) => {
            scan_text(*x, out);
            scan_concat(plain(out), x.text(), seq!['+']);
            scan_one(plain(out + x.tokens()), '+');
            assert((out + x.tokens()).push(Token::Plus) == out + s.tokens());
        },
        Syntax::Concat(l, r) => {
            scan_text(*l, out);
            scan_concat(plain(out), l.text(), seq!['.']);
            scan_one(plain(out + l.tokens()), '.');
            let mid = (out + l.tokens()).push(Token::Concat);
            scan_text(*r, mid);
            scan_concat(plain(out), l.text() + seq!['.'], r.text());
            assert(mid + r.tokens() == out + s.tokens());
        },
        Syntax::Alt(l, r) => {
            scan_text(*l, out);
            scan_concat(plain(out), l.text(), seq!['|']);
            scan_one(plain(out + l.tokens()), '|');
            let mid = (out + l.tokens()).push(Token::Alt);
            scan_text(*r, mid);
            scan_concat(plain(out), l.text() + seq!['|'], r.text());
            assert(mid + r.tokens() == out + s.tokens());
        },
    }
}

/// The lexical pass reads the written form of a pattern as the symbols of the pattern.
pub proof fn text_tokenizes(s: Syntax)
    requires
        s.writable(),
    ensures
        tokenize_spec(s.text()) == Ok::<Seq<Token>, Seq<char>>(s.tokens()),
{
    let text = s.text();
    prefix_is_scan(text, text.len());
    assert(text.take(text.len() as int) == text);
    scan_text(s, Seq::empty());
    assert(Seq::<Token>::empty() + s.tokens() == s.tokens());
}

/// The written form of a tree of the grammar whose ranges are in ascending order and can
/// be written is a well-formed pattern.
pub proof fn text_is_well_formed(s: Syntax)
    requires
        s.wf(),
        s.ascending(),
        s.writable(),
    ensures
        well_formed(s.text(), s),
{
    text_tokenizes(s);
}

} // verus!
