//! The rules of the language's tokens: the syntax tree of each pattern, the proof that
//! each pattern is well-formed, and what follows for the lexer of the language.
use super::lexer::{accepted, accepted_means_some_rule, longest, longest_is_maximal};
use super::respace::{kinds_of, lexer_at, respaced, respacing_keeps_tokens, space_ends_tokens, words};
use super::tokens::{standard_table, TokenSpecView};
use crate::regex::nfa::NfaView;
use crate::regex::correct::matcher_accepts_denoted;
use crate::regex::expr::Token;
use crate::regex::grammar::{well_formed, Syntax};
use crate::regex::matcher::compile_spec;
use crate::regex::meaning::avoided_is_absent;
use crate::regex::written::{is_meta, plain, scan_one, prefix_is_scan, text_is_well_formed};
use vstd::prelude::*;

verus! {

/// True for the small letters of ASCII.
pub open spec fn is_small_letter(c: char) -> bool {
    ('a' as u32) <= (c as u32) <= ('z' as u32)
}

/// The syntax tree of the letters `cs` in a row: each letter concatenated to those
/// before it.
pub open spec fn chain(cs: Seq<char>) -> Syntax
    decreases cs.len(),
{
    if cs.len() <= 1 {
        Syntax::Lit(cs[0])
    } else {
        Syntax::Concat(Box::new(chain(cs.drop_last())), Box::new(Syntax::Lit(cs.last())))
    }
}

/// The syntax tree of the pattern of a keyword: the keyword's letters in a row, between
/// parentheses.
pub open spec fn keyword(cs: Seq<char>) -> Syntax {
    Syntax::Group(Box::new(chain(cs)))
}

/// The letters `cs` with a dot between each two of them.
pub open spec fn dotted(cs: Seq<char>) -> Seq<char> {
    Seq::new(
        (2 * cs.len() - 1) as nat,
        |i: int|
            if i % 2 == 0 {
                cs[i / 2]
            } else {
                '.'
            },
    )
}

/// A small letter is a tree of the grammar, written as itself, and avoids every
/// character that is no small letter.
proof fn letter_facts(x: char, c: char)
    requires
        is_small_letter(x),
        !is_small_letter(c),
    ensures
        Syntax::Lit(x).wf(),
        Syntax::Lit(x).ascending(),
        Syntax::Lit(x).writable(),
        Syntax::Lit(x).avoids(c),
        Syntax::Lit(x).text() == seq![x],
{
    assert(!is_meta(x));
}

/// A row of letters with one more letter behind it is a tree of the grammar, written
/// with a dot before the letter.
proof fn longer_chain_facts(front: Syntax, x: char, c: char)
    requires
        front.wf(),
        front.level() >= 1,
        front.ascending(),
        front.writable(),
        front.avoids(c),
        is_small_letter(x),
        !is_small_letter(c),
    ensures
        ({
            let s = Syntax::Concat(Box::new(front), Box::new(Syntax::Lit(x)));
            &&& s.wf()
            &&& s.level() == 1
            &&& s.ascending()
            &&& s.writable()
            &&& s.avoids(c)
            &&& s.text() == front.text() + seq!['.'] + seq![x]
        }),
{
    letter_facts(x, c);
}

/// The letters of a keyword in a row are a tree of the grammar, written with dots
/// between the letters, and avoid every character that is no small letter.
pub proof fn chain_facts(cs: Seq<char>, c: char)
    requires
        cs.len() > 0,
        forall|i: int| 0 <= i < cs.len() ==> is_small_letter(#[trigger] cs[i]),
        !is_small_letter(c),
    ensures
        chain(cs).wf(),
        chain(cs).level() >= 1,
        chain(cs).ascending(),
        chain(cs).writable(),
        chain(cs).avoids(c),
        chain(cs).text() == dotted(cs),
    decreases cs.len(),
{
    assert(is_small_letter(cs[cs.len() - 1]));
    letter_facts(cs.last(), c);
    if cs.len() == 1 {
        assert(chain(cs).text() =~= dotted(cs));
    } else {
        let front = cs.drop_last();
        assert forall|i: int| 0 <= i < front.len() implies is_small_letter(#[trigger] front[i]) by {
            assert(front[i] == cs[i]);
        }
        chain_facts(front, c);
        longer_chain_facts(chain(front), cs.last(), c);
        assert(chain(cs).text() =~= dotted(cs)) by {
            assert forall|i: int| 0 <= i < dotted(cs).len() implies (dotted(front) + seq!['.']
                + seq![cs.last()])[i] == dotted(cs)[i] by {
                if i < dotted(front).len() {
                    if i % 2 == 0 {
                        assert(front[i / 2] == cs[i / 2]);
                    }
                }
            }
        }
    }
}

/// The pattern of a keyword is well-formed, and avoids every character that is no small
/// letter.
pub proof fn keyword_is_well_formed(cs: Seq<char>, c: char)
    requires
        cs.len() > 0,
        forall|i: int| 0 <= i < cs.len() ==> is_small_letter(#[trigger] cs[i]),
        !is_small_letter(c),
    ensures
        well_formed(seq!['('] + dotted(cs) + seq![')'], keyword(cs)),
        keyword(cs).avoids(c),
{
    chain_facts(cs, c);
    text_is_well_formed(keyword(cs));
}

/// A pattern that consists of a backslash and a character is well-formed: it is the
/// literal of the character.
pub proof fn escaped_is_well_formed(c: char)
    ensures
        well_formed(seq!['\\', c], Syntax::Lit(c)),
{
    let text = seq!['\\', c];
    prefix_is_scan(text, 2);
    assert(text.take(2) == text);
    assert(text.drop_last() == seq!['\\']);
    scan_one(plain(Seq::empty()), '\\');
    assert(Seq::<Token>::empty().push(Token::Lit(c)) == seq![Token::Lit(c)]);
}

/// The syntax tree of the pattern of a heading: `h` and a digit from one to three.
pub open spec fn heading_syntax() -> Syntax {
    Syntax::Group(
        Box::new(
            Syntax::Concat(Box::new(Syntax::Lit('h')), Box::new(Syntax::Range('1', '3'))),
        ),
    )
}

/// The syntax tree of the pattern of the backtick that opens a text block.
pub open spec fn backtick_syntax() -> Syntax {
    Syntax::Group(Box::new(Syntax::Lit('`')))
}

/// The syntax tree of the pattern of what an identifier consists of: a small letter, a
/// capital letter or a digit.
pub open spec fn alnum_syntax() -> Syntax {
    Syntax::Alt(
        Box::new(
            Syntax::Alt(Box::new(Syntax::Range('a', 'z')), Box::new(Syntax::Range('A', 'Z'))),
        ),
        Box::new(Syntax::Range('0', '9')),
    )
}

/// The syntax tree of the pattern of an identifier: letters and digits in a row.
pub open spec fn ident_syntax() -> Syntax {
    Syntax::Group(Box::new(Syntax::Star(Box::new(Syntax::Group(Box::new(alnum_syntax()))))))
}

/// The syntax trees of the patterns of the language's tokens, in the order of the rules.
pub open spec fn standard_syntax() -> Seq<Syntax> {
    seq![
        Syntax::Lit('{'),
        Syntax::Lit('}'),
        Syntax::Lit('('),
        Syntax::Lit(')'),
        keyword("section"@),
        keyword("article"@),
        keyword("paragraph"@),
        heading_syntax(),
        keyword("aside"@),
        keyword("ol"@),
        keyword("ul"@),
        keyword("li"@),
        keyword("code"@),
        backtick_syntax(),
        ident_syntax(),
    ]
}

/// True when `pattern` is well-formed with the tree `s`, which avoids the space.
pub open spec fn fits(pattern: Seq<char>, s: Syntax) -> bool {
    well_formed(pattern, s) && s.avoids(' ')
}

/// The pattern of `section` fits the keyword's tree.
proof fn section_fits()
    ensures
        fits("(s.e.c.t.i.o.n)"@, keyword("section"@)),
{
    reveal_strlit("(s.e.c.t.i.o.n)");
    reveal_strlit("section");
    keyword_is_well_formed("section"@, ' ');
    assert("(s.e.c.t.i.o.n)"@ =~= seq!['('] + dotted("section"@) + seq![')']);
}

/// The pattern of `article` fits the keyword's tree.
proof fn article_fits()
    ensures
        fits("(a.r.t.i.c.l.e)"@, keyword("article"@)),
{
    reveal_strlit("(a.r.t.i.c.l.e)");
    reveal_strlit("article");
    keyword_is_well_formed("article"@, ' ');
    assert("(a.r.t.i.c.l.e)"@ =~= seq!['('] + dotted("article"@) + seq![')']);
}

/// The pattern of `paragraph` fits the keyword's tree.
proof fn paragraph_fits()
    ensures
        fits("(p.a.r.a.g.r.a.p.h)"@, keyword("paragraph"@)),
{
    reveal_strlit("(p.a.r.a.g.r.a.p.h)");
    reveal_strlit("paragraph");
    keyword_is_well_formed("paragraph"@, ' ');
    assert("(p.a.r.a.g.r.a.p.h)"@ =~= seq!['('] + dotted("paragraph"@) + seq![')']);
}

/// The pattern of `aside` fits the keyword's tree.
proof fn aside_fits()
    ensures
        fits("(a.s.i.d.e)"@, keyword("aside"@)),
{
    reveal_strlit("(a.s.i.d.e)");
    reveal_strlit("aside");
    keyword_is_well_formed("aside"@, ' ');
    assert("(a.s.i.d.e)"@ =~= seq!['('] + dotted("aside"@) + seq![')']);
}

/// The patterns of `ol`, `ul` and `li` fit the keywords' trees.
proof fn lists_fit()
    ensures
        fits("(o.l)"@, keyword("ol"@)),
        fits("(u.l)"@, keyword("ul"@)),
        fits("(l.i)"@, keyword("li"@)),
{
    reveal_strlit("(o.l)");
    reveal_strlit("ol");
    keyword_is_well_formed("ol"@, ' ');
    assert("(o.l)"@ =~= seq!['('] + dotted("ol"@) + seq![')']);
    reveal_strlit("(u.l)");
    reveal_strlit("ul");
    keyword_is_well_formed("ul"@, ' ');
    assert("(u.l)"@ =~= seq!['('] + dotted("ul"@) + seq![')']);
    reveal_strlit("(l.i)");
    reveal_strlit("li");
    keyword_is_well_formed("li"@, ' ');
    assert("(l.i)"@ =~= seq!['('] + dotted("li"@) + seq![')']);
}

/// The pattern of `code` fits the keyword's tree.
proof fn code_fits()
    ensures
        fits("(c.o.d.e)"@, keyword("code"@)),
{
    reveal_strlit("(c.o.d.e)");
    reveal_strlit("code");
    keyword_is_well_formed("code"@, ' ');
    assert("(c.o.d.e)"@ =~= seq!['('] + dotted("code"@) + seq![')']);
}

/// The patterns of the braces and the parentheses fit the literals of these characters.
proof fn delimiters_fit()
    ensures
        fits("\\{"@, Syntax::Lit('{')),
        fits("\\}"@, Syntax::Lit('}')),
        fits("\\("@, Syntax::Lit('(')),
        fits("\\)"@, Syntax::Lit(')')),
{
    reveal_strlit("\\{");
    reveal_strlit("\\}");
    reveal_strlit("\\(");
    reveal_strlit("\\)");
    escaped_is_well_formed('{');
    escaped_is_well_formed('}');
    escaped_is_well_formed('(');
    escaped_is_well_formed(')');
    assert("\\{"@ =~= seq!['\\', '{']);
    assert("\\}"@ =~= seq!['\\', '}']);
    assert("\\("@ =~= seq!['\\', '(']);
    assert("\\)"@ =~= seq!['\\', ')']);
}

/// The pattern of a heading fits its tree.
proof fn heading_fits()
    ensures
        fits("(h.[1-3])"@, heading_syntax()),
{
    reveal_strlit("(h.[1-3])");
    let h = Syntax::Lit('h');
    let digit = Syntax::Range('1', '3');
    let both = Syntax::Concat(Box::new(h), Box::new(digit));
    assert(h.wf() && h.ascending() && h.writable() && h.avoids(' '));
    assert(digit.wf() && digit.ascending() && digit.writable() && digit.avoids(' '));
    assert(h.text() =~= seq!['h']);
    assert(digit.text() =~= seq!['[', '1', '-', '3', ']']);
    assert(both.text() =~= seq!['h', '.', '[', '1', '-', '3', ']']);
    assert(both.wf() && both.ascending() && both.writable() && both.avoids(' '));
    assert(heading_syntax().text() =~= "(h.[1-3])"@);
    text_is_well_formed(heading_syntax());
}

/// The pattern of the backtick fits its tree.
proof fn backtick_fits()
    ensures
        fits("(`)"@, backtick_syntax()),
{
    reveal_strlit("(`)");
    let tick = Syntax::Lit('`');
    assert(tick.wf() && tick.ascending() && tick.writable() && tick.avoids(' '));
    assert(tick.text() =~= seq!['`']);
    assert(backtick_syntax().text() =~= "(`)"@);
    text_is_well_formed(backtick_syntax());
}

/// The pattern of an identifier fits its tree.
proof fn ident_fits()
    ensures
        fits("(([a-z]|[A-Z]|[0-9])*)"@, ident_syntax()),
{
    reveal_strlit("(([a-z]|[A-Z]|[0-9])*)");
    let small = Syntax::Range('a', 'z');
    let capital = Syntax::Range('A', 'Z');
    let digit = Syntax::Range('0', '9');
    let letters = Syntax::Alt(Box::new(small), Box::new(capital));
    let any = Syntax::Alt(Box::new(letters), Box::new(digit));
    let one = Syntax::Group(Box::new(any));
    let row = Syntax::Star(Box::new(one));
    assert(small.wf() && small.ascending() && small.writable() && small.avoids(' '));
    assert(capital.wf() && capital.ascending() && capital.writable() && capital.avoids(' '));
    assert(digit.wf() && digit.ascending() && digit.writable() && digit.avoids(' '));
    assert(small.text() =~= seq!['[', 'a', '-', 'z', ']']);
    assert(capital.text() =~= seq!['[', 'A', '-', 'Z', ']']);
    assert(digit.text() =~= seq!['[', '0', '-', '9', ']']);
    assert(letters.text() =~= seq!['[', 'a', '-', 'z', ']', '|', '[', 'A', '-', 'Z', ']']);
    assert(letters.wf() && letters.ascending() && letters.writable() && letters.avoids(' '));
    assert(any.text() =~= seq![
        '[',
        'a',
        '-',
        'z',
        ']',
        '|',
        '[',
        'A',
        '-',
        'Z',
        ']',
        '|',
        '[',
        '0',
        '-',
        '9',
        ']',
    ]);
    assert(any == alnum_syntax());
    assert(any.wf() && any.ascending() && any.writable() && any.avoids(' '));
    assert(one.wf() && one.ascending() && one.writable() && one.avoids(' '));
    assert(one.text() =~= seq!['('] + any.text() + seq![')']);
    assert(row.text() =~= one.text() + seq!['*']);
    assert(row.wf() && row.ascending() && row.writable() && row.avoids(' '));
    assert(ident_syntax().text() =~= "(([a-z]|[A-Z]|[0-9])*)"@);
    text_is_well_formed(ident_syntax());
}

/// Every pattern of the language's tokens is well-formed with its tree, and no tree
/// denotes a text with a space in it.
pub proof fn standard_patterns_fit()
    ensures
        standard_syntax().len() == standard_table().len(),
        forall|i: int|
            0 <= i < standard_table().len() ==> fits(
                (#[trigger] standard_table()[i]).0,
                standard_syntax()[i],
            ),
{
    delimiters_fit();
    section_fits();
    article_fits();
    paragraph_fits();
    heading_fits();
    aside_fits();
    lists_fit();
    code_fits();
    backtick_fits();
    ident_fits();
}


/// The rules of the language's tokens: for each row of the table the automaton of the
/// syntax tree of the row's pattern, with the class of the row.
pub open spec fn standard_rules() -> Seq<TokenSpecView> {
    Seq::new(
        standard_table().len(),
        |i: int|
            TokenSpecView { nfa: standard_syntax()[i].automaton(), class: standard_table()[i].1 },
    )
}

/// Every pattern of the language's tokens compiles to the automaton of its rule, which
/// accepts exactly the texts that the pattern's syntax tree denotes.
pub proof fn standard_rule_accepts_denoted(i: int, text: Seq<char>)
    requires
        0 <= i < standard_table().len(),
    ensures
        compile_spec(standard_table()[i].0) == Ok::<NfaView, Seq<char>>(standard_rules()[i].nfa),
        standard_rules()[i].nfa.accepts(text) <==> standard_syntax()[i].denotes(text),
{
    standard_patterns_fit();
    assert(fits(standard_table()[i].0, standard_syntax()[i]));
    matcher_accepts_denoted(standard_table()[i].0, standard_syntax()[i], text);
}

/// No rule of the language accepts a text with a space in it, so a space ends every
/// token of the language.
pub proof fn standard_rules_stop_at_space()
    ensures
        space_ends_tokens(standard_rules()),
{
    standard_patterns_fit();
    let rules = standard_rules();
    let table = standard_table();
    assert forall|text: Seq<char>| text.len() > 0 && text.last() == ' ' implies !#[trigger] accepted(
        rules,
        text,
    ) by {
        accepted_means_some_rule(rules, text);
        if accepted(rules, text) {
            let i = choose|i: int| 0 <= i < rules.len() && (#[trigger] rules[i]).nfa.accepts(text);
            let tree = standard_syntax()[i];
            assert(fits(table[i].0, tree));
            standard_rule_accepts_denoted(i, text);
            avoided_is_absent(tree, ' ', text, 0, text.len() as int, text.len() - 1);
        }
    }
}

/// Whitespace between the tokens of the language is insignificant: the texts of the
/// tokens of a source, put together again with a space before each, are read as tokens of
/// the same kinds in the same order.
pub proof fn respacing_keeps_standard_tokens(src: Seq<char>)
    ensures
        kinds_of(
            lexer_at(
                standard_rules(),
                respaced(words(lexer_at(standard_rules(), src, 0))),
                0,
            ).stream(),
        ) == kinds_of(lexer_at(standard_rules(), src, 0).stream()),
{
    standard_rules_stop_at_space();
    respacing_keeps_tokens(standard_rules(), src);
}


/// True for the letters and digits of ASCII.
pub open spec fn is_alnum(c: char) -> bool {
    ||| ('a' as u32) <= (c as u32) <= ('z' as u32)
    ||| ('A' as u32) <= (c as u32) <= ('Z' as u32)
    ||| ('0' as u32) <= (c as u32) <= ('9' as u32)
}

/// True for the rules of the language whose pattern is one literal character: the four
/// delimiters and the backtick.
pub open spec fn is_single(i: int) -> bool {
    0 <= i <= 3 || i == 13
}

/// The rules of the language but those of one character, the keywords, the heading and
/// the identifier, avoid every character that is no letter and no digit.
pub proof fn word_rule_avoids(i: int, c: char)
    requires
        0 <= i < standard_table().len(),
        !is_single(i),
        !is_alnum(c),
    ensures
        standard_syntax()[i].avoids(c),
{
    reveal_strlit("section");
    reveal_strlit("article");
    reveal_strlit("paragraph");
    reveal_strlit("aside");
    reveal_strlit("ol");
    reveal_strlit("ul");
    reveal_strlit("li");
    reveal_strlit("code");
    if i == 4 {
        chain_facts("section"@, c);
    } else if i == 5 {
        chain_facts("article"@, c);
    } else if i == 6 {
        chain_facts("paragraph"@, c);
    } else if i == 7 {
        let h = Syntax::Lit('h');
        let digit = Syntax::Range('1', '3');
        let both = Syntax::Concat(Box::new(h), Box::new(digit));
        assert(h.avoids(c) && digit.avoids(c));
        assert(both.avoids(c));
    } else if i == 8 {
        chain_facts("aside"@, c);
    } else if i == 9 {
        chain_facts("ol"@, c);
    } else if i == 10 {
        chain_facts("ul"@, c);
    } else if i == 11 {
        chain_facts("li"@, c);
    } else if i == 12 {
        chain_facts("code"@, c);
    } else {
        let small = Syntax::Range('a', 'z');
        let capital = Syntax::Range('A', 'Z');
        let digit = Syntax::Range('0', '9');
        let letters = Syntax::Alt(Box::new(small), Box::new(capital));
        let any = Syntax::Alt(Box::new(letters), Box::new(digit));
        let one = Syntax::Group(Box::new(any));
        let row = Syntax::Star(Box::new(one));
        assert(small.avoids(c) && capital.avoids(c) && digit.avoids(c));
        assert(letters.avoids(c));
        assert(any.avoids(c));
        assert(one.avoids(c));
        assert(row.avoids(c));
    }
}

/// The rules of one character denote texts of one character only.
pub proof fn single_rule_denotes_one(i: int, text: Seq<char>)
    requires
        is_single(i),
        standard_syntax()[i].denotes(text),
    ensures
        text.len() == 1,
{
    if i == 13 {
        let tick = Syntax::Lit('`');
        assert(tick.spans(text, 0, text.len() as int));
    }
}

/// A text of letters and digits is what an identifier consists of, in a row.
proof fn alnum_iterates(w: Seq<char>, a: int, b: int)
    requires
        0 <= a <= b <= w.len(),
        forall|i: int| a <= i < b ==> is_alnum(#[trigger] w[i]),
    ensures
        crate::regex::meaning::iterates(Syntax::Group(Box::new(alnum_syntax())), w, a, b),
    decreases b - a,
{
    if a < b {
        alnum_iterates(w, a + 1, b);
        assert(is_alnum(w[a]));
        let small = Syntax::Range('a', 'z');
        let capital = Syntax::Range('A', 'Z');
        let digit = Syntax::Range('0', '9');
        let letters = Syntax::Alt(Box::new(small), Box::new(capital));
        let any = Syntax::Alt(Box::new(letters), Box::new(digit));
        let one = Syntax::Group(Box::new(any));
        assert(small.spans(w, a, a + 1) || capital.spans(w, a, a + 1) || digit.spans(w, a, a + 1));
        assert(letters.spans(w, a, a + 1) || digit.spans(w, a, a + 1));
        assert(any.spans(w, a, a + 1));
        assert(one.spans(w, a, a + 1));
        assert(crate::regex::meaning::cut(a, a + 1, b));
    }
}

/// The pattern of the identifier denotes every text of letters and digits.
pub proof fn ident_denotes_alnum(w: Seq<char>)
    requires
        forall|i: int| 0 <= i < w.len() ==> is_alnum(#[trigger] w[i]),
    ensures
        ident_syntax().denotes(w),
{
    alnum_iterates(w, 0, w.len() as int);
    let row = Syntax::Star(Box::new(Syntax::Group(Box::new(alnum_syntax()))));
    assert(row.spans(w, 0, w.len() as int));
}

/// Among the rules of the language, what is accepted is accepted from its first
/// character on: with a text every shorter start of it is accepted.
pub proof fn standard_rules_accept_starts(text: Seq<char>, k: int)
    requires
        accepted(standard_rules(), text),
        0 < k <= text.len(),
    ensures
        accepted(standard_rules(), text.take(k)),
{
    let rules = standard_rules();
    accepted_means_some_rule(rules, text);
    let i = choose|i: int| 0 <= i < rules.len() && (#[trigger] rules[i]).nfa.accepts(text);
    standard_rule_accepts_denoted(i, text);
    if is_single(i) {
        single_rule_denotes_one(i, text);
        assert(text.take(k) == text);
    } else {
        let start = text.take(k);
        assert forall|j: int| 0 <= j < start.len() implies is_alnum(#[trigger] start[j]) by {
            if !is_alnum(text[j]) {
                word_rule_avoids(i, text[j]);
                avoided_is_absent(
                    standard_syntax()[i],
                    text[j],
                    text,
                    0,
                    text.len() as int,
                    j,
                );
            }
        }
        ident_denotes_alnum(start);
        standard_rule_accepts_denoted(14, start);
        accepted_means_some_rule(rules, start);
        assert(rules[14].nfa.accepts(start));
    }
}

/// Longest match, for the language: no rule of the language accepts a window at `start`
/// that is longer than the token that the lexer takes there.
pub proof fn standard_longest_match(src: Seq<char>, start: int, len: nat)
    requires
        0 <= start,
        start + len <= src.len(),
        len > 0,
        accepted(standard_rules(), src.subrange(start, start + len)),
    ensures
        len <= longest(standard_rules(), src, start),
{
    let window = src.subrange(start, start + len);
    assert forall|m: int| 0 < m <= len implies accepted(
        standard_rules(),
        #[trigger] src.subrange(start, start + m),
    ) by {
        standard_rules_accept_starts(window, m);
        assert(window.take(m) == src.subrange(start, start + m));
    }
    longest_is_maximal(standard_rules(), src, start, len);
}

} // verus!
