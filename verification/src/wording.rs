//! What the words, tags and comments of a game do.
use crate::draft::{Sketch, Step};
use crate::error::ErrorKind;
use crate::format::GameOutcome;
use crate::movetext::{GameText, PlyText, Rating};
use crate::pgn::{Reader, Token};
use crate::{draft, movetext, pgn, text, tokens};
use vstd::prelude::*;

verus! {

/// Whether `s` is made of digits.
pub open spec fn digits(s: Seq<char>) -> bool {
    forall|i: int| 0 <= i < s.len() ==> '0' <= #[trigger] s[i] && s[i] <= '9'
}

/// Whether `s` is made of dots.
pub open spec fn dots(s: Seq<char>) -> bool {
    forall|i: int| 0 <= i < s.len() ==> (#[trigger] s[i]) == '.'
}

/// What is found first is the first item that fits.
pub proof fn lemma_find_at<T>(s: Seq<T>, p: spec_fn(T) -> bool, i: int, k: int)
    requires
        0 <= i <= k <= s.len(),
        forall|j: int| i <= j < k ==> !p(#[trigger] s[j]),
        k < s.len() ==> p(s[k]),
    ensures
        text::find(s, p, i) == k,
    decreases k - i,
{
    if i < k {
        assert(!p(s[i]));
        lemma_find_at(s, p, i + 1, k);
    }
}

/// A word with the number of a move before it is the word.
proof fn lemma_unnumbered(d: Seq<char>, e: Seq<char>, w: Seq<char>)
    requires
        digits(d),
        dots(e),
        e.len() > 0,
        w.len() > 0 ==> w[0] != '.',
    ensures
        draft::unnumbered(d + e + w) == w,
{
    let s = d + e + w;
    let a = d.len() as int;
    let b = a + e.len();
    assert forall|j: int| 0 <= j < a implies !(draft::no_digit())(#[trigger] s[j]) by {
        assert(s[j] == d[j]);
    }
    assert(s[a] == e[0]);
    lemma_find_at(s, draft::no_digit(), 0, a);
    assert forall|j: int| a <= j < b implies !(text::except('.'))(#[trigger] s[j]) by {
        assert(s[j] == e[j - a]);
    }
    if w.len() > 0 {
        assert(s[b] == w[0]);
    }
    lemma_find_at(s, text::except('.'), a, b);
    assert(s.skip(b) =~= w);
}

/// A word that does not begin with a digit or a dot has no number.
proof fn lemma_no_number(w: Seq<char>)
    requires
        w.len() > 0,
        !('0' <= w[0] && w[0] <= '9'),
        w[0] != '.',
    ensures
        draft::unnumbered(w) == w,
{
    lemma_find_at(w, draft::no_digit(), 0, 0);
}

/// The results are written without dots.
proof fn lemma_endings()
    ensures
        "1-0"@ == seq!['1', '-', '0'],
        "0-1"@ == seq!['0', '-', '1'],
        "1/2-1/2"@ == seq!['1', '/', '2', '-', '1', '/', '2'],
        "*"@ == seq!['*'],
{
    reveal_strlit("1-0");
    reveal_strlit("0-1");
    reveal_strlit("1/2-1/2");
    reveal_strlit("*");
    assert("1-0"@ =~= seq!['1', '-', '0']);
    assert("0-1"@ =~= seq!['0', '-', '1']);
    assert("1/2-1/2"@ =~= seq!['1', '/', '2', '-', '1', '/', '2']);
    assert("*"@ =~= seq!['*']);
}

proof fn lemma_no_ending(s: Seq<char>, i: int)
    requires
        0 <= i < s.len(),
        s[i] == '.',
    ensures
        !pgn::is_ending(s),
{
    lemma_endings();
}

/// The number of a move does not matter: digits and dots before a word, however many, change
/// nothing, and alone they do nothing.
pub proof fn law_move_numbers_do_not_matter(
    sketch: Sketch,
    d: Seq<char>,
    e: Seq<char>,
    w: Seq<char>,
)
    requires
        digits(d),
        dots(e),
        e.len() > 0,
        w.len() > 0 ==> !('0' <= w[0] && w[0] <= '9') && w[0] != '.',
        w != seq!['*'],
    ensures
        w.len() > 0 ==> draft::word_step(sketch, d + e + w) == draft::word_step(sketch, w),
        w.len() == 0 ==> draft::word_step(sketch, d + e + w) == Step::More(sketch),
{
    let s = d + e + w;
    lemma_unnumbered(d, e, w);
    assert(s[d.len() as int] == e[0]);
    lemma_no_ending(s, d.len() as int);
    if w.len() > 0 {
        lemma_no_number(w);
        lemma_endings();
        assert(!pgn::is_ending(w));
    }
}

/// Digits without a dot behind them belong to the word.
pub proof fn law_other_numbers_stay(d: Seq<char>, w: Seq<char>)
    requires
        digits(d),
        w.len() > 0 ==> !('0' <= w[0] && w[0] <= '9') && w[0] != '.',
    ensures
        draft::unnumbered(d + w) == d + w,
{
    let s = d + w;
    let a = d.len() as int;
    assert forall|j: int| 0 <= j < a implies !(draft::no_digit())(#[trigger] s[j]) by {
        assert(s[j] == d[j]);
    }
    if w.len() > 0 {
        assert(s[a] == w[0]);
    }
    lemma_find_at(s, draft::no_digit(), 0, a);
}

/// Annotations do nothing: a number behind `$`, marks of dots, exclamation and question marks, and
/// `e.p.`.
pub proof fn law_annotations_do_nothing(sketch: Sketch, s: Seq<char>)
    requires
        ({
            ||| s.len() > 0 && s[0] == '$'
            ||| s.len() > 0 && forall|i: int|
                0 <= i < s.len() ==> (#[trigger] s[i] == '!' || s[i] == '?' || s[i] == '.')
            ||| s == seq!['e', '.', 'p', '.']
        }),
    ensures
        draft::word_step(sketch, s) == Step::More(sketch),
{
    lemma_endings();
    reveal_strlit("e.p.");
    assert("e.p."@ =~= seq!['e', '.', 'p', '.']);
    assert(s[0] == '$' || s[0] == '!' || s[0] == '?' || s[0] == '.' || s[0] == 'e');
    assert(!pgn::is_ending(s));
    if s[0] == '.' {
        let none: Seq<char> = seq![];
        let k = text::find(s, text::except('.'), 0);
        text::lemma_find(s, text::except('.'), 0);
        lemma_find_at(s, draft::no_digit(), 0, 0);
        let w = draft::unnumbered(s);
        assert(w == s.skip(k));
        assert(draft::idle(w)) by {
            assert forall|i: int| 0 <= i < w.len() implies (#[trigger] w[i] == '.' || w[i] == '!'
                || w[i] == '?') by {
                assert(w[i] == s[k + i]);
            }
        }
    } else {
        lemma_no_number(s);
        if s == seq!['e', '.', 'p', '.'] {
            assert(draft::idle(s));
        }
    }
}

/// The text of a move becomes a ply without notes, behind the others, and changes nothing else.
pub proof fn law_move_is_added(sketch: Sketch, s: Seq<char>)
    requires
        s.len() > 0,
        s.len() <= 32,
        forall|i: int| 0 <= i < s.len() ==> (#[trigger] s[i]) as u32 <= 127,
        ('a' <= s[0] <= 'z') || ('A' <= s[0] <= 'Z'),
        s != seq!['e', '.', 'p', '.'],
        sketch.game.plies.len() < 100000,
    ensures
        draft::word_step(sketch, s) == Step::More(
            Sketch {
                game: GameText {
                    plies: sketch.game.plies.push(PlyText { text: s, notes: seq![] }),
                    ..sketch.game
                },
                depth: sketch.depth,
                seen: true,
            },
        ),
{
    lemma_endings();
    assert(!pgn::is_ending(s));
    lemma_no_number(s);
    reveal_strlit("e.p.");
    assert("e.p."@ =~= seq!['e', '.', 'p', '.']);
    assert(!draft::idle(s)) by {
        assert(s[0] != '.' && s[0] != '!' && s[0] != '?');
    }
    let none: Seq<char> = seq![];
    assert(none + s =~= s);
    assert(movetext::ascii(s));
}

/// A square of the duck that stands alone belongs to the move before it, once.
pub proof fn law_duck_is_added(sketch: Sketch, s: Seq<char>)
    requires
        s.len() > 0,
        s[0] == '@',
        forall|i: int| 0 <= i < s.len() ==> (#[trigger] s[i]) as u32 <= 127,
        0 < sketch.game.plies.len() <= 100000,
        sketch.game.plies.last().text.len() + s.len() <= 32,
    ensures
        ({
            let plies = sketch.game.plies;
            let n = plies.len() - 1;
            let old_text = plies[n].text;
            if exists|i: int| 0 <= i < old_text.len() && old_text[i] == '@' {
                draft::word_step(sketch, s) is Fail
            } else {
                draft::word_step(sketch, s) == Step::More(
                    Sketch {
                        game: GameText {
                            plies: plies.update(
                                n,
                                PlyText { text: old_text + s, notes: plies[n].notes },
                            ),
                            ..sketch.game
                        },
                        ..sketch
                    },
                )
            }
        }),
{
    lemma_endings();
    assert(!pgn::is_ending(s));
    lemma_no_number(s);
    reveal_strlit("e.p.");
    assert("e.p."@ =~= seq!['e', '.', 'p', '.']);
    assert(!draft::idle(s)) by {
        assert(s[0] != '.' && s[0] != '!' && s[0] != '?');
    }
    assert(movetext::ascii(s));
    let plies = sketch.game.plies;
    let n = plies.len() - 1;
    let old_text = plies[n].text;
    assert(plies.last() == plies[n]);
    if old_text.contains('@') {
        let i = old_text.index_of('@');
        assert(old_text[i] == '@');
    }
    let ply = PlyText { text: old_text + s, notes: plies[n].notes };
    assert(plies.drop_last().push(ply) =~= plies.update(n, ply));
}

/// Whether `s` writes a result: a win, a draw or an open end.
pub open spec fn writes_result(s: Seq<char>, result: Option<GameOutcome>) -> bool {
    ||| s == seq!['1', '-', '0'] && result == Some(GameOutcome::WhiteWin)
    ||| s == seq!['0', '-', '1'] && result == Some(GameOutcome::BlackWin)
    ||| s == seq!['1', '/', '2', '-', '1', '/', '2'] && result == Some(GameOutcome::Draw)
    ||| s == seq!['*'] && result == None::<GameOutcome>
}

/// A result ends a game. It must agree with the tag, if there is one.
pub proof fn law_result_ends_the_game(sketch: Sketch, s: Seq<char>, result: Option<GameOutcome>)
    requires
        writes_result(s, result),
    ensures
        ({
            if sketch.game.result is None || sketch.game.result == result {
                draft::word_step(sketch, s) == Step::Done(GameText { result, ..sketch.game })
            } else {
                draft::word_step(sketch, s) is Fail
            }
        }),
{
    lemma_endings();
    if s == seq!['0', '-', '1'] {
        assert(s[0] != "1-0"@[0]);
    } else if s == seq!['1', '/', '2', '-', '1', '/', '2'] {
        assert(s.len() == 7);
    } else if s == seq!['*'] {
        assert(s.len() == 1);
    }
    assert("1-0"@.len() == 3 && "0-1"@.len() == 3 && "1/2-1/2"@.len() == 7);
    assert("1-0"@[0] == '1' && "0-1"@[0] == '0');
}

/// The text of a tag: a name, a space and a value between quotation marks.
pub open spec fn tag_text(name: Seq<char>, value: Seq<char>) -> Seq<char> {
    name + seq![' ', '"'] + value + seq!['"']
}

proof fn lemma_tag(name: Seq<char>, value: Seq<char>)
    requires
        forall|i: int| 0 <= i < name.len() ==> !text::is_space(#[trigger] name[i]),
    ensures
        ({
            let s = tag_text(name, value);
            let i = text::find(s, text::space(), 0);
            &&& i == name.len()
            &&& i < s.len()
            &&& s.take(i) == name
            &&& draft::quoted(text::trim(s.skip(i))) == Some(value)
        }),
{
    let s = tag_text(name, value);
    let n = name.len() as int;
    assert forall|j: int| 0 <= j < n implies !(text::space())(#[trigger] s[j]) by {
        assert(s[j] == name[j]);
    }
    assert(s[n] == ' ');
    lemma_find_at(s, text::space(), 0, n);
    assert(s.take(n) =~= name);
    let t = s.skip(n);
    assert(t[0] == ' ' && t[1] == '"');
    lemma_find_at(t, text::ink(), 0, 1);
    let u = t.skip(1);
    assert(u.last() == '"');
    assert(text::trim_end(u) == u);
    assert(u[0] == '"');
    assert(u.subrange(1, u.len() - 1) =~= value);
}

/// A tag gives the first position or the result, by its name, and no other tag matters. Before the
/// first move any number of them may come.
pub proof fn law_tags(sketch: Sketch, name: Seq<char>, value: Seq<char>)
    requires
        sketch.game.plies.len() == 0,
        forall|i: int| 0 <= i < name.len() ==> !text::is_space(#[trigger] name[i]),
    ensures
        ({
            let r = draft::tag_step(sketch, tag_text(name, value));
            let seen = Sketch { seen: true, ..sketch };
            &&& name == seq!['F', 'E', 'N'] ==> r == Step::More(
                Sketch { game: GameText { fen: Some(value), ..sketch.game }, ..seen },
            )
            &&& name == seq!['R', 'e', 's', 'u', 'l', 't'] ==> forall|result: Option<GameOutcome>| #[trigger]
                writes_result(value, result) ==> r == Step::More(
                    Sketch { game: GameText { result, ..sketch.game }, ..seen },
                )
            &&& name != seq!['F', 'E', 'N'] && name != seq!['R', 'e', 's', 'u', 'l', 't'] ==> r
                == Step::More(seen)
        }),
{
    lemma_tag(name, value);
    reveal_strlit("FEN");
    reveal_strlit("Result");
    assert("FEN"@ =~= seq!['F', 'E', 'N']);
    assert("Result"@ =~= seq!['R', 'e', 's', 'u', 'l', 't']);
    assert("Result"@.len() == 6 && "FEN"@.len() == 3);
    assert forall|result: Option<GameOutcome>| #[trigger] writes_result(
        value,
        result,
    ) implies movetext::outcome_in(value) == Some(result) by {
        lemma_endings();
        assert("1-0"@.len() == 3 && "0-1"@.len() == 3 && "1/2-1/2"@.len() == 7 && "*"@.len() == 1);
        assert("1-0"@[0] == '1' && "0-1"@[0] == '0');
    }
}

/// What a comment says is noted at the last move, or before the first, behind what was noted there.
/// A comment that says nothing changes nothing.
pub proof fn law_comments_are_noted(sketch: Sketch, s: Seq<char>)
    ensures
        ({
            let r = draft::comment_step(sketch, s);
            let note = movetext::rating(s);
            let n = sketch.game.plies.len() as int;
            &&& r is More
            &&& note is Missing ==> r == Step::More(sketch)
            &&& !(note is Missing) && n == 0 ==> r->More_0.game.initial_notes
                == sketch.game.initial_notes.push(note) && r->More_0.game.plies
                == sketch.game.plies
            &&& !(note is Missing) && n > 0 ==> {
                let next = r->More_0.game.plies;
                &&& next.len() == n
                &&& next[n - 1].notes == sketch.game.plies[n - 1].notes.push(note)
                &&& next[n - 1].text == sketch.game.plies[n - 1].text
                &&& forall|i: int| 0 <= i < n - 1 ==> next[i] == #[trigger] sketch.game.plies[i]
            }
            &&& r->More_0.game.fen == sketch.game.fen
            &&& r->More_0.game.result == sketch.game.result
            &&& r->More_0.depth == sketch.depth
            &&& r->More_0.seen == sketch.seen
        }),
{
}

/// The marker of an evaluation.
pub open spec fn eval_mark() -> Seq<char> {
    seq!['[', '%', 'e', 'v', 'a', 'l', ' ']
}

proof fn lemma_find_word_at(s: Seq<char>, w: Seq<char>, i: int, k: int)
    requires
        0 <= i <= k,
        k + w.len() <= s.len(),
        s.subrange(k, k + w.len()) == w,
        forall|j: int| i <= j < k ==> #[trigger] s.subrange(j, j + w.len()) != w,
    ensures
        text::find_word(s, w, i) == Some(k),
    decreases k - i,
{
    if i < k {
        assert(s.subrange(i, i + w.len()) != w);
        lemma_find_word_at(s, w, i + 1, k);
    }
}

/// Where a comment holds an evaluation in brackets, that counts, whatever stands before it, if
/// there is no bracket, and whatever stands behind it. Spaces round it do not matter.
pub proof fn law_bracketed_scores(before: Seq<char>, x: Seq<char>, behind: Seq<char>)
    requires
        forall|i: int| 0 <= i < before.len() ==> #[trigger] before[i] != '[',
        forall|i: int| 0 <= i < x.len() ==> #[trigger] x[i] != ']',
    ensures
        movetext::score_text(before + eval_mark() + x + seq![']'] + behind) == text::trim(x),
        movetext::score_text(before + eval_mark() + x) == text::trim(x),
{
    reveal_strlit("[%eval ");
    assert("[%eval "@ =~= eval_mark());
    lemma_bracketed(before, x, seq![']'] + behind);
    assert(before + eval_mark() + x + (seq![']'] + behind) =~= before + eval_mark() + x + seq![']']
        + behind);
    let none: Seq<char> = seq![];
    lemma_bracketed(before, x, none);
    assert(before + eval_mark() + x + none =~= before + eval_mark() + x);
}

proof fn lemma_bracketed(before: Seq<char>, x: Seq<char>, behind: Seq<char>)
    requires
        "[%eval "@ == eval_mark(),
        forall|i: int| 0 <= i < before.len() ==> #[trigger] before[i] != '[',
        forall|i: int| 0 <= i < x.len() ==> #[trigger] x[i] != ']',
        behind.len() > 0 ==> behind[0] == ']',
    ensures
        movetext::score_text(before + eval_mark() + x + behind) == text::trim(x),
{
    let w = eval_mark();
    let s = before + w + x + behind;
    let k = before.len() as int;
    assert(s.subrange(k, k + 7) =~= w);
    assert forall|j: int| 0 <= j < k implies #[trigger] s.subrange(j, j + w.len()) != w by {
        assert(s.subrange(j, j + w.len())[0] == s[j]);
        assert(s[j] == before[j]);
        assert(w[0] == '[');
    }
    lemma_find_word_at(s, w, 0, k);
    let rest = s.skip(k + 7);
    assert(rest =~= x + behind);
    let n = x.len() as int;
    assert forall|j: int| 0 <= j < n implies !(text::only(']'))(#[trigger] rest[j]) by {
        assert(rest[j] == x[j]);
    }
    if behind.len() > 0 {
        assert(rest[n] == behind[0]);
    }
    lemma_find_at(rest, text::only(']'), 0, n);
    assert(rest.take(n) =~= x);
}

/// A comment without a bracket is rated by its first word: what stands between spaces, slashes and
/// braces.
pub proof fn law_plain_scores(gap: Seq<char>, x: Seq<char>, behind: Seq<char>)
    requires
        forall|i: int|
            0 <= i < gap.len() ==> (#[trigger] gap[i] == ' ' || gap[i] == '/' || gap[i] == '{'
                || gap[i] == '}'),
        x.len() > 0,
        forall|i: int|
            0 <= i < x.len() ==> (33 <= (#[trigger] x[i]) as u32 <= 126 && x[i] != '/' && x[i] != '{'
                && x[i] != '}' && x[i] != '['),
        behind.len() > 0 ==> (behind[0] == ' ' || behind[0] == '/' || behind[0] == '{' || behind[0]
            == '}'),
        forall|i: int| 0 <= i < behind.len() ==> #[trigger] behind[i] != '[',
    ensures
        movetext::score_text(gap + x + behind) == x,
{
    let s = gap + x + behind;
    let a = gap.len() as int;
    let b = a + x.len();
    reveal_strlit("[%eval ");
    assert("[%eval "@ =~= eval_mark());
    assert forall|j: int| 0 <= j < s.len() implies #[trigger] s[j] != '[' by {
        if j < a {
            assert(s[j] == gap[j]);
        } else if j < b {
            assert(s[j] == x[j - a]);
        } else {
            assert(s[j] == behind[j - b]);
        }
    }
    lemma_no_mark(s, 0);
    assert forall|j: int| 0 <= j < a implies !(movetext::part())(#[trigger] s[j]) by {
        assert(s[j] == gap[j]);
    }
    assert(s[a] == x[0]);
    lemma_find_at(s, movetext::part(), 0, a);
    assert forall|j: int| a <= j < b implies !(movetext::gap())(#[trigger] s[j]) by {
        assert(s[j] == x[j - a]);
    }
    if behind.len() > 0 {
        assert(s[b] == behind[0]);
    }
    lemma_find_at(s, movetext::gap(), a, b);
    assert(s.subrange(a, b) =~= x);
}

proof fn lemma_no_mark(s: Seq<char>, i: int)
    requires
        0 <= i,
        "[%eval "@ == eval_mark(),
        forall|j: int| 0 <= j < s.len() ==> #[trigger] s[j] != '[',
    ensures
        text::find_word(s, "[%eval "@, i) is None,
    decreases s.len() + 1 - i,
{
    let w = eval_mark();
    if i + w.len() <= s.len() {
        assert(s.subrange(i, i + w.len())[0] == s[i]);
        assert(w[0] == '[');
        lemma_no_mark(s, i + 1);
    }
}

/// A score with `M` or `#` in it is a mate: the lowest score if it begins with a minus, else the
/// highest. Any other is a number.
pub proof fn law_mates_are_limits(s: Seq<char>)
    ensures
        ({
            let x = movetext::score_text(s);
            let mate = exists|i: int| 0 <= i < x.len() && (#[trigger] x[i] == 'M' || x[i] == '#');
            &&& x.len() == 0 ==> movetext::rating(s) == Rating::Missing
            &&& mate && x[0] == '-' ==> movetext::rating(s) == Rating::Score((-32767) as i16)
            &&& mate && x[0] != '-' ==> movetext::rating(s) == Rating::Score(32767)
            &&& x.len() > 0 && !mate ==> movetext::rating(s) == Rating::Number(x)
        }),
{
    let x = movetext::score_text(s);
    if x.contains('M') {
        let i = x.index_of('M');
        assert(x[i] == 'M');
    }
    if x.contains('#') {
        let i = x.index_of('#');
        assert(x[i] == '#');
    }
}

/// A variation may stand in another: behind its end the game goes on as before its beginning, and an
/// end without a beginning is refused.
pub proof fn law_variations_nest(sketch: Sketch, a: Seq<u8>, b: Seq<u8>)
    requires
        sketch.depth >= 0,
    ensures
        ({
            let inside = draft::token_step(sketch, Token::Open, a);
            &&& inside is More
            &&& inside->More_0.depth > 0
            &&& draft::token_step(inside->More_0, Token::Close, b) == Step::More(sketch)
            &&& sketch.depth == 0 ==> draft::token_step(sketch, Token::Close, b) is Fail
        }),
{
}

/// Byte order marks before a token do not matter, however many there are.
pub proof fn law_byte_order_marks_do_not_matter(bytes: Seq<u8>, n: nat, x: Seq<char>)
    requires
        vstd::utf8::decode_utf8(bytes) == Seq::new(n, |i: int| '\u{feff}') + x,
        x.len() > 0 ==> x[0] != '\u{feff}',
    ensures
        draft::plain(bytes) == x,
{
    let marks = Seq::new(n, |i: int| '\u{feff}');
    let s = marks + x;
    assert forall|j: int| 0 <= j < n implies !(text::except('\u{feff}'))(#[trigger] s[j]) by {
        assert(s[j] == marks[j]);
    }
    if x.len() > 0 {
        assert(s[n as int] == x[0]);
    }
    lemma_find_at(s, text::except('\u{feff}'), 0, n as int);
    assert(s.skip(n as int) =~= x);
}

/// At the end of the input a game that has begun is complete if its result is known and no variation
/// is open. Where no game has begun, there is none.
pub proof fn law_games_end_with_the_input(r: Reader, sketch: Sketch)
    requires
        !r.open,
        !r.pending,
        tokens::spaces(r.rest),
    ensures
        ({
            let (game, after) = draft::game_from(r, sketch);
            &&& after.rest.len() == 0
            &&& sketch.depth != 0 ==> (game matches Err(e) && e.0 == ErrorKind::InvalidData)
            &&& sketch.depth == 0 && !sketch.seen ==> game == Ok::<
                Option<GameText>,
                (ErrorKind, Seq<char>),
            >(None)
            &&& sketch.depth == 0 && sketch.seen && sketch.game.result is Some ==> game == Ok::<
                Option<GameText>,
                (ErrorKind, Seq<char>),
            >(Some(sketch.game))
            &&& sketch.depth == 0 && sketch.seen && sketch.game.result is None ==> (
            game matches Err(e) && e.0 == ErrorKind::InvalidData)
        }),
{
    let s = r.rest;
    assert forall|j: int| 0 <= j < s.len() implies !(pgn::solid())(#[trigger] s[j]) by {}
    lemma_find_at(s, pgn::solid(), 0, s.len() as int);
    assert(s.skip(s.len() as int).len() == 0);
}

/// The value of a tag stands between quotation marks, and a tag without them is refused.
pub proof fn law_values_are_quoted(sketch: Sketch, name: Seq<char>, x: Seq<char>)
    requires
        sketch.game.plies.len() == 0,
        forall|i: int| 0 <= i < name.len() ==> !text::is_space(#[trigger] name[i]),
        x.len() > 0,
        !text::is_space(x[0]),
        !text::is_space(x.last()),
    ensures
        draft::tag_step(sketch, name + seq![' '] + x) is More ==> x.len() >= 2 && x[0] == '"'
            && x.last() == '"',
        draft::tag_step(sketch, name) is Fail,
{
    let s = name + seq![' '] + x;
    let n = name.len() as int;
    assert forall|j: int| 0 <= j < n implies !(text::space())(#[trigger] s[j]) by {
        assert(s[j] == name[j]);
    }
    assert(s[n] == ' ');
    lemma_find_at(s, text::space(), 0, n);
    let t = s.skip(n);
    assert(t[0] == ' ' && t[1] == x[0]);
    lemma_find_at(t, text::ink(), 0, 1);
    let u = t.skip(1);
    assert(u =~= x);
    assert(text::trim_end(u) == u);
    assert forall|j: int| 0 <= j < n implies !(text::space())(#[trigger] name[j]) by {}
    lemma_find_at(name, text::space(), 0, n);
}

} // verus!
