//! Whitespace between tokens is insignificant: the texts of the tokens that the lexer
//! reads from a source, put together again with a space before each, are read as the same
//! tokens.
use super::error::LexerErrorView;
use super::lexer::{
    accepted, closing_tick, closing_tick_bounds, extend, extend_bounds, extend_stops,
    first_accepting, longest, next_advances, skip_space, skip_space_bounds, LexerView, Mode,
};
use super::tokens::{TokenKindView, TokenSpecView, TokenView};
use vstd::prelude::*;

verus! {

/// The kinds of the tokens among `items`, in order.
pub open spec fn kinds_of(items: Seq<Result<TokenView, LexerErrorView>>) -> Seq<TokenKindView>
    decreases items.len(),
{
    if items.len() == 0 {
        Seq::empty()
    } else {
        match items[0] {
            Ok(t) => seq![t.kind] + kinds_of(items.drop_first()),
            Err(_) => kinds_of(items.drop_first()),
        }
    }
}

/// A lexer in normal mode over `src` with its cursor at `cursor`.
pub open spec fn lexer_at(specs: Seq<TokenSpecView>, src: Seq<char>, cursor: nat) -> LexerView {
    LexerView { src, cursor, mode: Mode::Normal, specs }
}

/// The texts of the tokens that the lexer reads from its cursor on, up to the end of the
/// source or the first error: for each token the part of the source that the lexer took
/// for it, the backticks of a text block included.
pub open spec fn words(lexer: LexerView) -> Seq<Seq<char>>
    decreases lexer.src.len() - lexer.cursor,
{
    match lexer.next().0 {
        Some(Ok(_)) => {
            proof {
                next_advances(lexer);
            }
            seq![
                lexer.src.subrange(
                    skip_space(lexer.src, lexer.cursor as int),
                    lexer.next().1.cursor as int,
                ),
            ] + words(lexer.next().1)
        },
        _ => Seq::empty(),
    }
}

/// The texts put together, with a space before each.
pub open spec fn respaced(texts: Seq<Seq<char>>) -> Seq<char>
    decreases texts.len(),
{
    if texts.len() == 0 {
        Seq::empty()
    } else {
        seq![' '] + texts[0] + respaced(texts.drop_first())
    }
}

/// True when no rule accepts a text that ends in a space, so that a space ends every
/// token.
pub open spec fn space_ends_tokens(specs: Seq<TokenSpecView>) -> bool {
    forall|text: Seq<char>|
        text.len() > 0 && text.last() == ' ' ==> !#[trigger] accepted(specs, text)
}

/// A window that holds the same text in another source, and behind which the other
/// source ends or goes on with a character that no rule accepts, grows to the same
/// length there.
proof fn extend_same_text(
    specs: Seq<TokenSpecView>,
    a: Seq<char>,
    from_a: int,
    b: Seq<char>,
    from_b: int,
    n: nat,
    k: nat,
)
    requires
        0 <= from_a,
        from_a + n <= a.len(),
        0 <= from_b,
        from_b + n <= b.len(),
        a.subrange(from_a, from_a + n) == b.subrange(from_b, from_b + n),
        k <= n,
        forall|m: int| k < m <= n ==> accepted(specs, #[trigger] a.subrange(from_a, from_a + m)),
        from_b + n == b.len() || !accepted(specs, b.subrange(from_b, from_b + n + 1)),
    ensures
        extend(specs, b, from_b, k) == n,
    decreases n - k,
{
    if k < n {
        let whole_a = a.subrange(from_a, from_a + n);
        let whole_b = b.subrange(from_b, from_b + n);
        assert(a.subrange(from_a, from_a + (k + 1)) == whole_a.subrange(0, k as int + 1));
        assert(b.subrange(from_b, from_b + k + 1) == whole_b.subrange(0, k as int + 1));
        assert(accepted(specs, a.subrange(from_a, from_a + (k + 1))));
        extend_same_text(specs, a, from_a, b, from_b, n, k + 1);
    }
}

/// The next backtick behind a text without backticks that a backtick follows is that
/// backtick.
proof fn closing_tick_behind(src: Seq<char>, from: int, len: nat)
    requires
        0 <= from,
        from + len < src.len(),
        forall|i: int| from <= i < from + len ==> #[trigger] src[i] != '`',
        src[from + len] == '`',
    ensures
        closing_tick(src, from) == from + len,
    decreases len,
{
    if len > 0 {
        closing_tick_behind(src, from + 1, (len - 1) as nat);
    }
}

/// The kinds of the stream of a lexer, unfolded by one call.
proof fn kinds_unfold(lexer: LexerView)
    requires
        lexer.cursor <= lexer.src.len(),
    ensures
        kinds_of(lexer.stream()) == (match lexer.next().0 {
            Some(Ok(t)) => seq![t.kind] + kinds_of(lexer.next().1.stream()),
            _ => Seq::empty(),
        }),
{
    match lexer.next().0 {
        None => {},
        Some(Err(e)) => {
            let items = seq![Err::<TokenView, LexerErrorView>(e)];
            assert(items.drop_first() == Seq::<Result<TokenView, LexerErrorView>>::empty());
            assert(kinds_of(items.drop_first()) == Seq::<TokenKindView>::empty());
        },
        Some(Ok(t)) => {
            let rest = lexer.next().1.stream();
            let items = seq![Ok::<TokenView, LexerErrorView>(t)] + rest;
            assert(items.drop_first() == rest);
        },
    }
}

/// A source that goes on from `d` with the respaced texts of the tokens that the lexer
/// reads from `c` in `src` is read from `d` as tokens of the same kinds.
proof fn relex(specs: Seq<TokenSpecView>, src: Seq<char>, c: nat, other: Seq<char>, d: nat)
    requires
        space_ends_tokens(specs),
        c <= src.len(),
        d <= other.len(),
        other.subrange(d as int, other.len() as int) == respaced(words(lexer_at(specs, src, c))),
    ensures
        kinds_of(lexer_at(specs, other, d).stream()) == kinds_of(lexer_at(specs, src, c).stream()),
    decreases src.len() - c,
{
    let old = lexer_at(specs, src, c);
    let new = lexer_at(specs, other, d);
    let tail = other.subrange(d as int, other.len() as int);
    let di: int = d as int;
    kinds_unfold(old);
    kinds_unfold(new);
    next_advances(old);
    skip_space_bounds(src, c as int);
    skip_space_bounds(other, d as int);
    let at = skip_space(src, c as int);
    match old.next().0 {
        Some(Ok(t)) => {
            let after = old.next().1;
            assert(at < src.len());
            assert(old.next() == old.moved(at, Mode::Normal).lex_normal());
            assert(longest(specs, src, at) > 0);
            if specs[first_accepting(
                specs,
                src.subrange(at, at + longest(specs, src, at)),
                0,
            )].class.kind(src.subrange(at, at + longest(specs, src, at)))
                == TokenKindView::TextBlock(seq!['`']) {
                closing_tick_bounds(src, at + longest(specs, src, at));
                assert(old.next() == old.moved(
                    at + longest(specs, src, at),
                    Mode::Block,
                ).lex_block());
            }
            extend_bounds(specs, src, at, 0);
            assert(after.cursor >= at + longest(specs, src, at));
            let word = src.subrange(at, after.cursor as int);
            let rest = words(after);
            assert(words(old) == seq![word] + rest);
            assert((seq![word] + rest)[0] == word);
            assert((seq![word] + rest).drop_first() == rest);
            assert(tail == seq![' '] + word + respaced(rest));
            let n = longest(specs, src, at);
            let ni: int = n as int;
            extend_bounds(specs, src, at, 0);
            extend_stops(specs, src, at, 0);
            let text = src.subrange(at, at + n);
            let kind = specs[first_accepting(specs, text, 0)].class.kind(text);
            assert(n > 0);
            // The other source holds a space at `d` and the word behind it.
            assert(tail.len() == 1 + word.len() + respaced(rest).len());
            assert(tail.len() == other.len() - di);
            assert(tail[0] == ' ');
            assert(other[d as int] == tail[0]);
            assert(word.len() >= n);
            assert(word[0] == src[at]);
            assert(tail[1] == word[0]);
            assert(other[di + 1] == tail[1]);
            assert(skip_space(other, di + 1) == di + 1);
            assert(skip_space(other, di) == di + 1);
            let at2: int = di + 1;
            assert forall|i: int| 0 <= i < word.len() implies other[at2 + i] == word[i] by {
                assert(tail[1 + i] == word[i]);
                assert(other[di + (1 + i)] == tail[1 + i]);
            }
            assert(other.subrange(at2, at2 + n) == text) by {
                assert forall|i: int| 0 <= i < n implies other.subrange(at2, at2 + n)[i]
                    == text[i] by {
                    assert(other[at2 + i] == word[i]);
                }
            }
            if kind == TokenKindView::TextBlock(seq!['`']) {
                // The word is a text block with its backticks.
                assert(text =~= seq!['`']);
                assert(n == 1);
                let opened = old.moved(at + 1, Mode::Block);
                closing_tick_bounds(src, at + 1);
                let tick = closing_tick(src, at + 1);
                assert(tick < src.len());
                assert(after.cursor == tick + 1);
                assert(word.len() == tick + 1 - at);
                assert(other[at2 + 1] == src[at + 1]) by {
                    assert(other[at2 + 1] == word[1]);
                }
                assert(!accepted(specs, other.subrange(at2, at2 + 1 + 1))) by {
                    assert(other.subrange(at2, at2 + 2) =~= src.subrange(at, at + 1 + 1)) by {
                        assert(other[at2 + 0] == word[0]);
                    }
                }
                extend_same_text(specs, src, at, other, at2, 1, 0);
                assert(longest(specs, other, at2) == 1);
                assert forall|i: int| at2 + 1 <= i < at2 + 1 + (tick - at - 1) implies #[trigger] other[i]
                    != '`' by {
                    assert(other[at2 + (i - at2)] == word[i - at2]);
                    assert(src[at + (i - at2)] != '`');
                }
                assert(other[at2 + (tick - at)] == '`') by {
                    assert(other[at2 + (tick - at)] == word[tick - at]);
                }
                closing_tick_behind(other, at2 + 1, (tick - at - 1) as nat);
                let tick2: int = at2 + (tick - at);
                assert(closing_tick(other, at2 + 1) == tick2);
                assert(other.subrange(at2 + 1, tick2) =~= src.subrange(at + 1, tick)) by {
                    assert forall|i: int| 0 <= i < tick - at - 1 implies #[trigger] other.subrange(
                        at2 + 1,
                        tick2,
                    )[i] == src.subrange(at + 1, tick)[i] by {
                        assert(other[at2 + (1 + i)] == word[1 + i]);
                    }
                }
                assert(new.next().1 == lexer_at(specs, other, (tick2 + 1) as nat));
                assert(after == lexer_at(specs, src, (tick + 1) as nat));
                assert(other.subrange(tick2 + 1, other.len() as int) =~= respaced(rest)) by {
                    assert forall|i: int| 0 <= i < respaced(rest).len() implies other[tick2 + 1
                        + i] == respaced(rest)[i] by {
                        assert(tail[1 + word.len() + i] == respaced(rest)[i]);
                        assert(other[di + (1 + word.len() + i)] == tail[1 + word.len() + i]);
                    }
                }
                relex(specs, src, (tick + 1) as nat, other, (tick2 + 1) as nat);
            } else {
                assert(after == lexer_at(specs, src, (at + n) as nat));
                assert(word == text);
                // Behind the word the other source ends or goes on with a space.
                if at2 + n < other.len() {
                    assert(rest.len() > 0) by {
                        if rest.len() == 0 {
                            assert(respaced(rest).len() == 0);
                            assert(tail.len() == 1 + word.len());
                        }
                    }
                    assert(respaced(rest)[0] == ' ');
                    assert(tail[1 + ni] == respaced(rest)[0]);
                    assert(other[di + (1 + ni)] == tail[1 + ni]);
                    let grown = other.subrange(at2, at2 + n + 1);
                    assert(grown.last() == ' ');
                    assert(!accepted(specs, grown));
                }
                extend_same_text(specs, src, at, other, at2, n, 0);
                assert(longest(specs, other, at2) == n);
                assert(new.next().1 == lexer_at(specs, other, (at2 + n) as nat));
                assert(other.subrange(at2 + n, other.len() as int) =~= respaced(rest)) by {
                    assert forall|i: int| 0 <= i < respaced(rest).len() implies other[at2 + n
                        + i] == respaced(rest)[i] by {
                        assert(tail[1 + word.len() + i] == respaced(rest)[i]);
                        assert(other[di + (1 + word.len() + i)] == tail[1 + word.len() + i]);
                    }
                }
                relex(specs, src, (at + n) as nat, other, (at2 + n) as nat);
            }
        },
        _ => {
            assert(words(old) == Seq::<Seq<char>>::empty());
            assert(tail.len() == 0);
            assert(d == other.len());
        },
    }
}

/// Lexing the texts of the tokens of a source, put together with a space before each,
/// gives tokens of the same kinds in the same order, under rules that accept no text
/// that ends in a space.
pub proof fn respacing_keeps_tokens(specs: Seq<TokenSpecView>, src: Seq<char>)
    requires
        space_ends_tokens(specs),
    ensures
        kinds_of(lexer_at(specs, respaced(words(lexer_at(specs, src, 0))), 0).stream())
            == kinds_of(lexer_at(specs, src, 0).stream()),
{
    let other = respaced(words(lexer_at(specs, src, 0)));
    assert(other.subrange(0, other.len() as int) == other);
    relex(specs, src, 0, other, 0);
}

} // verus!
