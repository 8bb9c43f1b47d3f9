use wakformat::error::{Error, ErrorKind};
use wakformat::format::GameOutcome;
use wakformat::movetext::{evaluation, outcome, Evaluation, Game, Ply};
use wakformat::pgn::{Pgn, Token, MAX_TOKEN, MAX_WORD};
use wakformat::reader::{Event, GameReader};

fn bad(message: &str) -> Error {
    Error { kind: ErrorKind::InvalidData, message: message.to_owned() }
}

fn closed(text: &str) -> Pgn {
    let mut p = Pgn::new(text.as_bytes().to_vec());
    p.close();
    p
}

fn tokens(text: &str) -> Vec<(Token, String)> {
    let mut p = closed(text);
    let mut all = Vec::new();
    while let Some(kind) = p.token().unwrap() {
        all.push((kind, String::from_utf8(p.said().to_vec()).unwrap()));
    }
    all
}

fn game(text: &str) -> Result<Option<Game>, Error> {
    closed(text).game()
}

fn number(text: &str) -> Evaluation {
    Evaluation::Number(text.to_owned())
}

#[test]
fn bytes_one_by_one() {
    let mut p = Pgn::new(b"ab".to_vec());
    assert_eq!(p.peek(), Ok(Some(b'a')));
    assert_eq!(p.byte(), Ok(Some(b'a')));
    assert_eq!(p.byte(), Ok(Some(b'b')));
    let starved = Error { kind: ErrorKind::WouldBlock, message: "more input is needed".to_owned() };
    assert_eq!(p.byte(), Err(starved.clone()));
    p.feed(b"c");
    assert_eq!(p.remaining(), 1);
    assert_eq!(p.byte(), Ok(Some(b'c')));
    p.close();
    assert_eq!(p.byte(), Ok(None));
}

#[test]
fn byte_order_mark_is_skipped() {
    let mut p = Pgn::new(b"\xef\xbb\xbfe4 ".to_vec());
    assert_eq!(p.token(), Ok(Some(Token::Word)));
    assert_eq!(p.said(), b"e4");
}

#[test]
fn all_sorts_of_tokens() {
    let text = " [Event \"a ] b\\\" ]\"]\n1.e4@e3{0.3}(x) ;rest\n% more\r$5 e5";
    assert_eq!(
        tokens(text),
        vec![
            (Token::Tag, "Event \"a ] b\\\" ]\"".to_owned()),
            (Token::Word, "1.e4@e3".to_owned()),
            (Token::Comment, "0.3".to_owned()),
            (Token::Open, String::new()),
            (Token::Word, "x".to_owned()),
            (Token::Close, String::new()),
            (Token::Comment, "rest".to_owned()),
            (Token::Comment, " more".to_owned()),
            (Token::Word, "$5".to_owned()),
            (Token::Word, "e5".to_owned()),
        ]
    );
    assert_eq!(tokens(";to the end"), vec![(Token::Comment, "to the end".to_owned())]);
    assert_eq!(tokens(" \t\r\n\x0c"), vec![]);
}

#[test]
fn tokens_that_do_not_end() {
    for text in ["[Event", "{ comment", "[a \"]"] {
        assert_eq!(closed(text).token(), Err(bad("unterminated PGN tag or comment")));
    }
}

#[test]
fn tokens_that_are_too_long() {
    let full = "x".repeat(MAX_TOKEN);
    assert_eq!(closed(&format!("{{{full}}}")).token(), Ok(Some(Token::Comment)));
    assert_eq!(closed(&format!("{{{full}x}}")).token(), Err(bad("PGN token exceeds 1 MiB")));
    assert_eq!(closed(&format!("[{full}x]")).token(), Err(bad("PGN token exceeds 1 MiB")));
    assert_eq!(closed(&format!(";{full}x\n")).token(), Err(bad("PGN comment exceeds 1 MiB")));
    let word = "y".repeat(MAX_WORD);
    assert_eq!(closed(&word).token(), Ok(Some(Token::Word)));
    let mut p = closed(&format!("{word}yz"));
    assert_eq!(p.token(), Err(bad("PGN move token exceeds 4096 bytes")));
    assert_eq!(p.peek(), Ok(Some(b'z')));
}

#[test]
fn recovering_finds_the_next_game() {
    let mut p = closed("e4 ( [Event \"b\"] d4 1-0");
    assert_eq!(p.recover(), Ok(true));
    assert_eq!(p.recover(), Ok(true));
    assert_eq!(p.token(), Ok(Some(Token::Tag)));
    assert_eq!(p.said(), b"Event \"b\"");
    assert_eq!(p.recover(), Ok(true));
    assert_eq!(p.token(), Ok(None));
    assert_eq!(closed("e4 e5 {1-0}").recover(), Ok(false));
    for result in ["1-0", "0-1", "1/2-1/2", "*"] {
        assert_eq!(closed(result).recover(), Ok(true));
    }
}

#[test]
fn scores_in_comments() {
    assert_eq!(evaluation("[%eval 0.34] good"), number("0.34"));
    assert_eq!(evaluation("x [%eval  -1.5 ][%clk 1]"), number("-1.5"));
    assert_eq!(evaluation("[%eval 2"), number("2"));
    assert_eq!(evaluation("+0.30/12 1.2s"), number("+0.30"));
    assert_eq!(evaluation(" /{book}"), number("book"));
    assert_eq!(evaluation("M5/20"), Evaluation::Score(32767));
    assert_eq!(evaluation("-M5/20"), Evaluation::Score(-32767));
    assert_eq!(evaluation("[%eval -#3]"), Evaluation::Score(-32767));
    assert_eq!(evaluation("#-3"), Evaluation::Score(32767));
    assert_eq!(evaluation("[%eval ]"), Evaluation::Missing);
    assert_eq!(evaluation(" / "), Evaluation::Missing);
    assert_eq!(evaluation(""), Evaluation::Missing);
}

#[test]
fn results_of_games() {
    assert_eq!(outcome("1-0"), Ok(Some(GameOutcome::WhiteWin)));
    assert_eq!(outcome("0-1"), Ok(Some(GameOutcome::BlackWin)));
    assert_eq!(outcome("1/2-1/2"), Ok(Some(GameOutcome::Draw)));
    assert_eq!(outcome("*"), Ok(None));
    assert_eq!(outcome("2-0"), Err(bad("invalid PGN result")));
}

#[test]
fn texts_of_moves() {
    let mut p = Ply::new("Nf3").unwrap();
    assert_eq!(p.append("@a6"), Ok(()));
    assert_eq!(p.text(), "Nf3@a6");
    assert!(Ply::new(&"a".repeat(32)).is_ok());
    assert_eq!(Ply::new(&"a".repeat(33)), Err(bad("invalid PGN move token")));
    assert_eq!(Ply::new("\u{e9}4"), Err(bad("invalid PGN move token")));
    assert_eq!(p.append(&"b".repeat(27)), Err(bad("invalid PGN move token")));
    assert_eq!(p.text(), "Nf3@a6");
}

#[test]
fn game_with_everything() {
    let text = "[Event \"x\"]\n[FEN \"4k3/8 w\"]\n[Result \"1-0\"]\n{ 0.1 }\n\
        1. e4@e3 {0.30} {M4} (1. d4@d3 {0.1} (x) y) 1... e5@e6 ; -0.2/12\n\
        2.Nf3 @a6 $1 !? e.p. 1-0 [Event \"y\"]";
    let mut p = closed(text);
    let game = p.game().unwrap().unwrap();
    assert_eq!(game.fen.as_deref(), Some("4k3/8 w"));
    assert_eq!(game.result, Some(GameOutcome::WhiteWin));
    assert_eq!(game.initial_notes, vec![number("0.1")]);
    let texts: Vec<&str> = game.plies.iter().map(|ply| ply.text()).collect();
    assert_eq!(texts, vec!["e4@e3", "e5@e6", "Nf3@a6"]);
    assert_eq!(game.plies[0].notes, vec![number("0.30"), Evaluation::Score(32767)]);
    assert_eq!(game.plies[1].notes, vec![number("-0.2")]);
    assert_eq!(game.plies[2].notes, vec![]);
    assert_eq!(p.token(), Ok(Some(Token::Tag)));
}

#[test]
fn game_that_ends_with_the_file() {
    let read = game("[Result \"0-1\"] e4@e3 \u{feff}e5").unwrap().unwrap();
    assert_eq!(read.result, Some(GameOutcome::BlackWin));
    assert_eq!(read.plies[1].text(), "e5");
}

#[test]
fn no_game_in_comments() {
    assert_eq!(game("  {only a comment} ( x ) $3"), Ok(None));
}

#[test]
fn unfinished_game_is_read() {
    assert_eq!(game("e4@e3 *").unwrap().unwrap().result, None);
}

#[test]
fn games_that_are_broken() {
    for (text, message) in [
        ("e4 ) 1-0", "unmatched PGN variation close"),
        ("e4 [Event \"x\"] 1-0", "new PGN tags before game result"),
        ("[Event] 1-0", "invalid PGN tag"),
        ("[Event x] 1-0", "invalid PGN tag value"),
        ("[Event \"] 1-0", "unterminated PGN tag or comment"),
        ("[Result \"3-0\"]", "invalid PGN result"),
        ("[Result \"0-1\"] 1-0", "PGN header and movetext results disagree"),
        ("@e4 1-0", "duck placement without a move"),
        ("e4@e3 @e5 1-0", "duplicate duck placement"),
        ("abcdefghijklmnopqrstuvwxyzabcdefg 1-0", "invalid PGN move token"),
        ("e4 ( d4", "unterminated PGN variation"),
        ("e4", "PGN game has no completed result"),
    ] {
        assert_eq!(game(text), Err(bad(message)), "{text}");
    }
}

#[test]
fn token_that_is_not_utf8() {
    let mut p = Pgn::new(b"ab\xffc 1-0".to_vec());
    p.close();
    let message = std::str::from_utf8(b"ab\xffc").unwrap_err().to_string();
    assert_eq!(p.game(), Err(bad(&message)));
    // What stands in a variation does not count.
    let mut p = Pgn::new(b"(ab\xffc {\xff}) 1-0".to_vec());
    p.close();
    assert_eq!(p.game().unwrap().unwrap().plies, vec![]);
}

#[test]
fn game_with_too_many_plies() {
    let text = "e4@e3 ".repeat(100_001);
    assert_eq!(game(&text), Err(bad("PGN game exceeds 100000 plies")));
    let text = format!("{}1-0", "e4@e3 ".repeat(100_000));
    assert_eq!(game(&text).unwrap().unwrap().plies.len(), 100_000);
}

fn describe(event: Event) -> String {
    match event {
        Event::Game(i, g) => {
            let texts: Vec<&str> = g.plies.iter().map(|ply| ply.text()).collect();
            format!("game {i} {}", texts.join(" "))
        }
        Event::Skipped(i, m) => format!("skipped {i} {m}"),
        Event::Fail(e) => format!("fail {}", e.message),
        Event::More => "more".to_owned(),
        Event::End => "end".to_owned(),
    }
}

const FILE: &str = "[Event \"1\"] e4@e3 1-0 [Event \"2\"] e4 ) d4 0-1\n\
    [Event \"3\"] Nf3@a3 [Event \"4\"] a4@b4 1/2-1/2 {done}";

fn events(chunk: usize, skip: bool) -> Vec<String> {
    let input = FILE.as_bytes();
    let mut pos = chunk.min(input.len());
    let mut r = GameReader::new(input[..pos].to_vec(), skip);
    let mut all = Vec::new();
    loop {
        let event = describe(r.next_event());
        if event == "more" {
            if pos == input.len() {
                r.close();
            } else {
                let end = (pos + chunk).min(input.len());
                r.feed(&input[pos..end]);
                pos = end;
            }
            continue;
        }
        let last = event == "end" || event.starts_with("fail");
        all.push(event);
        if last {
            return all;
        }
    }
}

#[test]
fn games_of_a_file() {
    assert_eq!(
        events(1000, true),
        vec![
            "game 1 e4@e3",
            "skipped 2 unmatched PGN variation close",
            "skipped 3 new PGN tags before game result",
            "game 4 a4@b4",
            "end",
        ]
    );
    assert_eq!(
        events(1000, false),
        vec!["game 1 e4@e3", "fail game 2: unmatched PGN variation close"]
    );
}

#[test]
fn pieces_of_a_file_do_not_matter() {
    for chunk in 1..200 {
        assert_eq!(events(chunk, true), events(1000, true), "{chunk}");
        assert_eq!(events(chunk, false), events(1000, false), "{chunk}");
    }
}

#[test]
fn errors_in_place_of_input() {
    let mut r = GameReader::new(b"e4 ".to_vec(), true);
    assert_eq!(describe(r.next_event()), "more");
    assert_eq!(describe(r.interrupt(bad("corrupt"))), "skipped 1 corrupt");
    assert_eq!(describe(r.next_event()), "more");
    assert_eq!(describe(r.interrupt(bad("corrupt"))), "fail corrupt");
    assert_eq!(r.count(), 1);
    let mut r = GameReader::new(b"e4 ".to_vec(), true);
    let gone = Error { kind: ErrorKind::Other, message: "gone".to_owned() };
    assert_eq!(describe(r.interrupt(gone)), "fail game 1: gone");
}
