use wakformat::cli::{
    analyse_args, args, check_input, check_threads, check_wf, flag, folder_output, has_extension,
    interleave_args, interleaved_output, invoke, is_pgn, pgn2wf_args, read_fill, single_output, source_of, Args,
    Source, Tool,
};
use wakformat::convert::{Fill, Options};

fn strings(list: &[&str]) -> Vec<String> {
    list.iter().map(|s| s.to_string()).collect()
}

#[test]
fn arguments_with_a_value_are_split() {
    assert_eq!(
        args(&strings(&["a=b", "--key=a=b", "--flag", "-o=x", "--=", "--"])),
        strings(&["a=b", "--key", "a=b", "--flag", "-o=x", "--", "", "--"])
    );
    assert_eq!(args(&vec![]), strings(&[]));
}

#[test]
fn switches() {
    let mut a = Args::new(strings(&["true", "false", "x"]));
    assert!(flag(&mut a));
    assert!(!flag(&mut a));
    assert!(flag(&mut a));
    assert_eq!(a.next_arg().as_deref(), Some("x"));
    assert!(flag(&mut a));
    assert_eq!(a.next_arg(), None);
}

#[test]
fn tools_by_name() {
    let ask = |list: &[&str]| invoke(strings(list));
    assert_eq!(ask(&["pgn2wf", "x"]), Ok((Tool::Pgn2wf, strings(&["x"]))));
    assert_eq!(ask(&["interleave", "x", "y"]), Ok((Tool::Interleave, strings(&["x", "y"]))));
    assert_eq!(ask(&["analyse"]), Ok((Tool::Analyse, strings(&["--help"]))));
    assert_eq!(ask(&["help", "analyse"]), Ok((Tool::Analyse, strings(&["--help"]))));
    assert_eq!(ask(&[]), Ok((Tool::Overview, strings(&["--help"]))));
    assert_eq!(ask(&["help"]), Ok((Tool::Overview, strings(&["--help"]))));
    assert_eq!(ask(&["-h", "x"]), Ok((Tool::Overview, strings(&["x"]))));
    assert_eq!(ask(&["--help"]), Ok((Tool::Overview, strings(&["--help"]))));
    assert_eq!(ask(&["help", "a", "b"]), Err("usage: wakformat help [COMMAND]".to_owned()));
    assert_eq!(ask(&["play"]), Err("unknown command play; use --help".to_owned()));
}

#[test]
fn arguments_of_the_analysis() {
    let a = analyse_args(strings(&["in.wf"])).unwrap().unwrap();
    assert_eq!(a.input.as_deref(), Some("in.wf"));
    assert_eq!(a.output, "score_distribution.txt");
    assert!(!a.overwrite && !a.approximate && !a.verbose);
    let a = analyse_args(strings(&[
        "-v", "-i", "a", "-o", "b", "--allow-overwrite", "true", "--approximate", "false",
    ]))
    .unwrap()
    .unwrap();
    assert_eq!((a.input.as_deref(), a.output.as_str()), (Some("a"), "b"));
    assert!(a.overwrite && !a.approximate && a.verbose);
    assert_eq!(analyse_args(strings(&["x", "help", "--bad"])), Ok(None));
    for (list, message) in [
        (&["-i"][..], "missing input"),
        (&["-o"], "missing output"),
        (&["--bad"], "unknown argument --bad"),
        (&["a", "b"], "unknown argument b"),
        (&["-v"], "missing input; usage: wakformat analyse <INPUT> [OPTIONS]"),
    ] {
        assert_eq!(analyse_args(strings(list)), Err(message.to_owned()));
    }
}

#[test]
fn arguments_of_interleaving() {
    let a = interleave_args(strings(&["a", "-i", "b", "c", "-o", "d", "--allow-overwrite"]))
        .unwrap()
        .unwrap();
    assert_eq!(a.inputs, strings(&["a", "b", "c"]));
    assert_eq!(a.output.as_deref(), Some("d"));
    assert!(a.overwrite);
    assert_eq!(interleave_args(strings(&["a", "-h"])), Ok(None));
    for (list, message) in [
        (&["--input"][..], "missing input"),
        (&["--output"], "missing output"),
        (&["-x"], "unknown argument -x"),
        (
            &[],
            "missing input; usage: wakformat interleave <INPUT> [MORE INPUTS ...] [OPTIONS]",
        ),
    ] {
        assert_eq!(interleave_args(strings(list)), Err(message.to_owned()));
    }
}

#[test]
fn arguments_of_the_conversion() {
    let a = pgn2wf_args(strings(&["in.pgn"]), 6).unwrap().unwrap();
    assert_eq!((a.input.as_deref(), a.output.as_deref(), a.threads), (Some("in.pgn"), None, 6));
    assert_eq!(a.options, Options { fill: Fill::Nothing, skip_broken: false });
    let a = pgn2wf_args(
        strings(&[
            "--threads", "+12", "--skip-broken-games", "--allow-non-pgn-extension",
            "--fill-missing-evals", "-7", "x", "--output", "y", "--allow-overwrite", "false",
        ]),
        6,
    )
    .unwrap()
    .unwrap();
    assert_eq!((a.input.as_deref(), a.output.as_deref(), a.threads), (Some("x"), Some("y"), 12));
    assert!(a.allow_extension && !a.overwrite);
    assert_eq!(a.options, Options { fill: Fill::Value(-7), skip_broken: true });
    assert_eq!(pgn2wf_args(strings(&["--help"]), 1), Ok(None));
    let digits = "x".parse::<usize>().unwrap_err().to_string();
    let large = "40000".parse::<i16>().unwrap_err().to_string();
    for (list, message) in [
        (&["--threads"][..], "missing thread count"),
        (&["--threads", "x"], digits.as_str()),
        (&["--fill-missing-evals"], "missing fill value"),
        (&["--fill-missing-evals", "40000"], large.as_str()),
        (&["-i"], "missing input"),
        (&["-o"], "missing output"),
        (&["--bad"], "unknown argument --bad"),
        (&[], "missing input; usage: wakformat pgn2wf <INPUT> [OPTIONS]"),
    ] {
        assert_eq!(pgn2wf_args(strings(list), 1), Err(message.to_owned()));
    }
}

#[test]
fn ways_to_fill() {
    assert_eq!(read_fill("PREV"), Ok(Fill::Prev));
    assert_eq!(read_fill("next"), Ok(Fill::Next));
    assert_eq!(read_fill("-32768"), Ok(Fill::Value(-32768)));
    assert_eq!(read_fill("+32767"), Ok(Fill::Value(32767)));
    for text in ["", "-", "+", "1.5", " 1", "32768", "-32769", "--1"] {
        let message = text.parse::<i16>().unwrap_err().to_string();
        assert_eq!(read_fill(text), Err(message), "{text}");
    }
}

#[test]
fn thread_counts() {
    assert_eq!(check_threads(1), Ok(()));
    assert_eq!(check_threads(1024), Ok(()));
    assert_eq!(check_threads(0), Err("invalid thread count".to_owned()));
    assert_eq!(check_threads(1025), Err("invalid thread count".to_owned()));
}

#[test]
fn extensions() {
    assert!(has_extension("a.WF", "wf"));
    assert!(has_extension("a.b.wf", "wf"));
    assert!(!has_extension(".wf", "wf"));
    assert!(!has_extension("wf", "wf"));
    assert!(!has_extension("a.wfx", "wf"));
    assert!(has_extension("a.", ""));
    for name in ["x.pgn", "x.PGN", "x.pgn.bz2", "x.Pgn.BZ2"] {
        assert!(is_pgn(name), "{name}");
    }
    for name in ["x.bz2", "pgn", ".pgn", ".pgn.bz2", "x.pgn.gz", "x.tar"] {
        assert!(!is_pgn(name), "{name}");
    }
    for name in ["a.pgn", "a.wf", ".wf", "a.", "a", "a.b.c"] {
        let expected = std::path::Path::new(name).extension().and_then(|e| e.to_str()) == Some("wf");
        assert_eq!(has_extension(name, "wf"), expected, "{name}");
    }
}

#[test]
fn kinds_of_files() {
    assert_eq!(source_of("a.tar"), Source::Tar);
    assert_eq!(source_of("a.pgn.BZ2"), Source::Bzip2);
    assert_eq!(source_of("a.pgn"), Source::Plain);
    assert_eq!(source_of("a.txt"), Source::Plain);
    for name in ["a.pgn", "a.pgn.bz2", "a.Tar"] {
        assert_eq!(check_input(name, false), Ok(()));
    }
    let message = "input must end in .pgn, .pgn.bz2, or .tar (or use --allow-non-pgn-extension)";
    assert_eq!(check_input("a.txt", false), Err(message.to_owned()));
    assert_eq!(check_input("a.txt", true), Ok(()));
}

#[test]
fn names_of_stored_files() {
    assert_eq!(check_wf("a.wf"), Ok(()));
    assert_eq!(check_wf("a.WF"), Ok(()));
    assert_eq!(check_wf("a.pgn"), Err("input must end in .wf".to_owned()));
    assert_eq!(single_output("dir/a.pgn", None), "dir/a.pgn.wf");
    assert_eq!(single_output("a.pgn", Some("b".to_owned())), "b");
    assert_eq!(folder_output(None), ("combined.wf".to_owned(), true));
    assert_eq!(folder_output(Some("b".to_owned())), ("b".to_owned(), false));
}

#[test]
fn names_of_mixed_files() {
    assert_eq!(interleaved_output(1, "a.wf", Some("b".to_owned())), ("b".to_owned(), false));
    assert_eq!(interleaved_output(2, "a.wf", None), ("interleaved.wf".to_owned(), false));
    for name in ["a.wf", "a.b.wf", "a", ".wf", "a."] {
        let path = std::path::Path::new(name).with_extension("interleaved.wf");
        let expected = path.to_string_lossy().into_owned();
        assert_eq!(interleaved_output(1, name, None), (expected, true), "{name}");
    }
}
