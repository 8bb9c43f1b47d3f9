//! Where one game ends and the next begins.
use crate::draft::Sketch;
use crate::error::ErrorKind;
use crate::pgn::{Reader, Token};
use crate::tokens::{ends_word, spaces, without};
use crate::{draft, pgn, text, tokens, wording};
use vstd::prelude::*;

verus! {

/// The bytes with which the tag of an event begins: the word `Event` and a space.
pub open spec fn event() -> Seq<u8> {
    seq![69u8, 118, 101, 110, 116, 32]
}

/// Whether some bytes are one of the results `1-0`, `0-1`, `1/2-1/2` and `*`.
pub open spec fn is_result(x: Seq<u8>) -> bool {
    ||| x == seq![49u8, 45, 48]
    ||| x == seq![48u8, 45, 49]
    ||| x == seq![49u8, 47, 50, 45, 49, 47, 50]
    ||| x == seq![42u8]
}

proof fn lemma_event(x: Seq<u8>)
    ensures
        text::starts(text::latin(x), "Event "@) <==> x.len() >= 6 && x.take(6) == event(),
{
    reveal_strlit("Event ");
    let s = text::latin(x);
    let e = "Event "@;
    if x.len() >= 6 && x.take(6) == event() {
        assert forall|i: int| 0 <= i < 6 implies #[trigger] s[i] == e[i] by {
            assert(x.take(6)[i] == x[i]);
        }
        assert(s.take(6) =~= e);
    }
    if text::starts(s, e) {
        assert forall|i: int| 0 <= i < 6 implies #[trigger] x[i] == event()[i] by {
            assert(s.take(6)[i] == s[i]);
            assert(s[i] == x[i] as char);
            assert(s[i] == e[i]);
        }
        assert(x.take(6) =~= event());
    }
}

proof fn lemma_same_letters(x: Seq<u8>, y: Seq<u8>, s: Seq<char>)
    requires
        text::latin(y) == s,
    ensures
        text::latin(x) == s <==> x == y,
{
    if text::latin(x) == s {
        assert(x.len() == text::latin(x).len() && y.len() == text::latin(y).len());
        assert forall|i: int| 0 <= i < x.len() implies #[trigger] x[i] == y[i] by {
            assert(text::latin(x)[i] == x[i] as char);
            assert(text::latin(y)[i] == y[i] as char);
        }
        assert(x =~= y);
    }
}

proof fn lemma_result(x: Seq<u8>)
    ensures
        pgn::is_ending(text::latin(x)) <==> is_result(x),
{
    reveal_strlit("1-0");
    reveal_strlit("0-1");
    reveal_strlit("1/2-1/2");
    reveal_strlit("*");
    let a = seq![49u8, 45, 48];
    let b = seq![48u8, 45, 49];
    let c = seq![49u8, 47, 50, 45, 49, 47, 50];
    let d = seq![42u8];
    assert(text::latin(a) =~= "1-0"@);
    assert(text::latin(b) =~= "0-1"@);
    assert(text::latin(c) =~= "1/2-1/2"@);
    assert(text::latin(d) =~= "*"@);
    lemma_same_letters(x, a, "1-0"@);
    lemma_same_letters(x, b, "0-1"@);
    lemma_same_letters(x, c, "1/2-1/2"@);
    lemma_same_letters(x, d, "*"@);
}

/// The search for the next game ends at a tag that begins with `Event`, which is then read as the
/// first of that game. It passes over other tags.
pub proof fn law_search_finds_an_event(
    r: Reader,
    gap: Seq<u8>,
    name: Seq<u8>,
    value: Seq<u8>,
    rest: Seq<u8>,
)
    requires
        !r.pending,
        r.rest == gap + seq![0x5bu8] + (name + seq![0x22u8] + value + seq![0x22u8]) + seq![0x5du8]
            + rest,
        spaces(gap),
        without(name, 0x22),
        without(name, 0x5c),
        without(name, 0x5d),
        without(value, 0x22),
        without(value, 0x5c),
        name.len() + value.len() + 2 <= 1048576,
    ensures
        ({
            let x = name + seq![0x22u8] + value + seq![0x22u8];
            if x.len() >= 6 && x.take(6) == event() {
                pgn::recovered(r) == (
                    Ok::<bool, (ErrorKind, Seq<char>)>(true),
                    Reader { rest, token: x, pending: true, ..r },
                )
            } else {
                pgn::recovered(r) == pgn::recovered(Reader { rest, token: x, ..r })
            }
        }),
{
    let x = name + seq![0x22u8] + value + seq![0x22u8];
    tokens::law_tags_end(gap, name, value, rest, r.open);
    lemma_event(x);
    assert(r.next() == Reader { rest, token: x, ..r });
}

/// The search for the next game ends behind a result, and passes over other words.
pub proof fn law_search_finds_a_result(r: Reader, gap: Seq<u8>, x: Seq<u8>, rest: Seq<u8>)
    requires
        !r.pending,
        r.rest == gap + x + rest,
        spaces(gap),
        0 < x.len() <= 4096,
        !ends_word(x[0]) || x[0] == 0x24 || x[0] == 0x7d,
        x[0] != 0x25,
        forall|i: int| 1 <= i < x.len() ==> !ends_word(#[trigger] x[i]),
        rest.len() > 0 ==> ends_word(rest[0]),
        rest.len() == 0 ==> !r.open,
    ensures
        if is_result(x) {
            pgn::recovered(r) == (
                Ok::<bool, (ErrorKind, Seq<char>)>(true),
                Reader { rest, token: x, ..r },
            )
        } else {
            pgn::recovered(r) == pgn::recovered(Reader { rest, token: x, ..r })
        },
{
    tokens::law_words_end(gap, x, rest, r.open);
    lemma_result(x);
    assert(r.next() == Reader { rest, token: x, ..r });
}

/// The search for the next game passes over comments, whatever they hold, and ends with the input.
pub proof fn law_search_passes_comments(r: Reader, gap: Seq<u8>, x: Seq<u8>, rest: Seq<u8>)
    requires
        !r.pending,
        spaces(gap),
        without(x, 0x7d),
        x.len() <= 1048576,
    ensures
        r.rest == gap + seq![0x7bu8] + x + seq![0x7du8] + rest ==> pgn::recovered(r)
            == pgn::recovered(Reader { rest, token: x, ..r }),
        r.rest == gap && !r.open ==> pgn::recovered(r).0 == Ok::<bool, (ErrorKind, Seq<char>)>(
            false,
        ),
{
    tokens::law_braces_hold_comments(gap, x, rest, r.open);
    if r.rest == gap + seq![0x7bu8] + x + seq![0x7du8] + rest {
        assert(r.next() == Reader { rest, token: x, ..r });
    }
    if r.rest == gap {
        assert forall|j: int| 0 <= j < gap.len() implies !(pgn::solid())(#[trigger] gap[j]) by {}
        wording::lemma_find_at(gap, pgn::solid(), 0, gap.len() as int);
        assert(gap.skip(gap.len() as int).len() == 0);
    }
}

/// A tag behind moves without a result breaks the game off, and is read once more, as the first of
/// the next game.
pub proof fn law_tags_begin_the_next_game(r: Reader, sketch: Sketch)
    requires
        r.kind() == Ok::<Option<Token>, (ErrorKind, Seq<char>)>(Some(Token::Tag)),
        sketch.depth == 0,
        sketch.game.plies.len() > 0,
        vstd::utf8::valid_utf8(r.next().token),
        draft::plain(r.next().token).len() > 0,
    ensures
        ({
            let (game, after) = draft::game_from(r, sketch);
            &&& game matches Err(e) && e.0 == ErrorKind::InvalidData
            &&& after.kind() == r.kind()
            &&& after.next() == r.next()
        }),
{
    let (game, after) = draft::game_from(r, sketch);
    assert(after == (Reader { pending: true, ..r.next() }));
    assert(!r.next().pending);
}

} // verus!
