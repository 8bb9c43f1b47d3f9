//! What the options of the tools do.
use crate::cli::{AnalyseChoice, InterleaveChoice, Pgn2wfChoice, Source, Tool};
use crate::convert::{Fill, Options};
use crate::{cli, coordinates, text};
use vstd::prelude::*;

verus! {

/// Arguments that begin with one, and those behind it.
pub open spec fn one(a: Seq<char>, rest: Seq<Seq<char>>) -> Seq<Seq<char>> {
    seq![a] + rest
}

/// Arguments that begin with two, and those behind them.
pub open spec fn two(a: Seq<char>, b: Seq<char>, rest: Seq<Seq<char>>) -> Seq<Seq<char>> {
    seq![a, b] + rest
}

/// Whether the next argument is no value of a switch.
pub open spec fn no_value(rest: Seq<Seq<char>>) -> bool {
    rest.len() > 0 ==> rest[0] != "true"@ && rest[0] != "false"@
}

proof fn lemma_arguments(a: Seq<char>, b: Seq<char>, rest: Seq<Seq<char>>)
    ensures
        one(a, rest).len() > 0,
        one(a, rest)[0] == a,
        one(a, rest).skip(1) == rest,
        two(a, b, rest).len() > 0,
        two(a, b, rest)[0] == a,
        two(a, b, rest).skip(1).len() > 0,
        two(a, b, rest).skip(1)[0] == b,
        two(a, b, rest).skip(1).skip(1) == rest,
{
    assert(one(a, rest).skip(1) =~= rest);
    assert(two(a, b, rest).skip(1).skip(1) =~= rest);
}

proof fn lemma_switch(a: Seq<char>, rest: Seq<Seq<char>>)
    ensures
        no_value(rest) ==> cli::switched(rest) && cli::behind_switch(rest) == rest,
        cli::switched(two(a, "true"@, rest).skip(1)),
        cli::behind_switch(two(a, "true"@, rest).skip(1)) == rest,
        !cli::switched(two(a, "false"@, rest).skip(1)),
        cli::behind_switch(two(a, "false"@, rest).skip(1)) == rest,
{
    lemma_arguments(a, "true"@, rest);
    lemma_arguments(a, "false"@, rest);
    reveal_strlit("true");
    reveal_strlit("false");
    assert("true"@.len() == 4 && "false"@.len() == 5);
}

proof fn lemma_analyse_names()
    ensures
        "--input"@ != "-i"@,
        "--input"@ != "--output"@,
        "--input"@ != "-o"@,
        "--input"@ != "--allow-overwrite"@,
        "--input"@ != "--approximate"@,
        "--input"@ != "--verbose"@,
        "--input"@ != "-v"@,
        "--input"@ != "--help"@,
        "--input"@ != "-h"@,
        "--input"@ != "help"@,
        "-i"@ != "--output"@,
        "-i"@ != "-o"@,
        "-i"@ != "--allow-overwrite"@,
        "-i"@ != "--approximate"@,
        "-i"@ != "--verbose"@,
        "-i"@ != "-v"@,
        "-i"@ != "--help"@,
        "-i"@ != "-h"@,
        "-i"@ != "help"@,
        "--output"@ != "-o"@,
        "--output"@ != "--allow-overwrite"@,
        "--output"@ != "--approximate"@,
        "--output"@ != "--verbose"@,
        "--output"@ != "-v"@,
        "--output"@ != "--help"@,
        "--output"@ != "-h"@,
        "--output"@ != "help"@,
        "-o"@ != "--allow-overwrite"@,
        "-o"@ != "--approximate"@,
        "-o"@ != "--verbose"@,
        "-o"@ != "-v"@,
        "-o"@ != "--help"@,
        "-o"@ != "-h"@,
        "-o"@ != "help"@,
        "--allow-overwrite"@ != "--approximate"@,
        "--allow-overwrite"@ != "--verbose"@,
        "--allow-overwrite"@ != "-v"@,
        "--allow-overwrite"@ != "--help"@,
        "--allow-overwrite"@ != "-h"@,
        "--allow-overwrite"@ != "help"@,
        "--approximate"@ != "--verbose"@,
        "--approximate"@ != "-v"@,
        "--approximate"@ != "--help"@,
        "--approximate"@ != "-h"@,
        "--approximate"@ != "help"@,
        "--verbose"@ != "-v"@,
        "--verbose"@ != "--help"@,
        "--verbose"@ != "-h"@,
        "--verbose"@ != "help"@,
        "-v"@ != "--help"@,
        "-v"@ != "-h"@,
        "-v"@ != "help"@,
        "--help"@ != "-h"@,
        "--help"@ != "help"@,
        "-h"@ != "help"@,
{
    reveal_strlit("--input");
    reveal_strlit("-i");
    reveal_strlit("--output");
    reveal_strlit("-o");
    reveal_strlit("--allow-overwrite");
    reveal_strlit("--approximate");
    reveal_strlit("--verbose");
    reveal_strlit("-v");
    reveal_strlit("--help");
    reveal_strlit("-h");
    reveal_strlit("help");
    assert("--input"@.len() == 7 && "-i"@.len() == 2 && "--output"@.len() == 8 && "-o"@.len() == 2 && "--allow-overwrite"@.len() == 17 && "--approximate"@.len() == 13 && "--verbose"@.len() == 9 && "-v"@.len() == 2 && "--help"@.len() == 6 && "-h"@.len() == 2 && "help"@.len() == 4);
    assert("-i"@[1] == 'i' && "-o"@[1] == 'o' && "-v"@[1] == 'v' && "-h"@[1] == 'h');
}

proof fn lemma_interleave_names()
    ensures
        "--input"@ != "-i"@,
        "--input"@ != "--output"@,
        "--input"@ != "-o"@,
        "--input"@ != "--allow-overwrite"@,
        "--input"@ != "--help"@,
        "--input"@ != "-h"@,
        "--input"@ != "help"@,
        "-i"@ != "--output"@,
        "-i"@ != "-o"@,
        "-i"@ != "--allow-overwrite"@,
        "-i"@ != "--help"@,
        "-i"@ != "-h"@,
        "-i"@ != "help"@,
        "--output"@ != "-o"@,
        "--output"@ != "--allow-overwrite"@,
        "--output"@ != "--help"@,
        "--output"@ != "-h"@,
        "--output"@ != "help"@,
        "-o"@ != "--allow-overwrite"@,
        "-o"@ != "--help"@,
        "-o"@ != "-h"@,
        "-o"@ != "help"@,
        "--allow-overwrite"@ != "--help"@,
        "--allow-overwrite"@ != "-h"@,
        "--allow-overwrite"@ != "help"@,
        "--help"@ != "-h"@,
        "--help"@ != "help"@,
        "-h"@ != "help"@,
{
    reveal_strlit("--input");
    reveal_strlit("-i");
    reveal_strlit("--output");
    reveal_strlit("-o");
    reveal_strlit("--allow-overwrite");
    reveal_strlit("--help");
    reveal_strlit("-h");
    reveal_strlit("help");
    assert("--input"@.len() == 7 && "-i"@.len() == 2 && "--output"@.len() == 8 && "-o"@.len() == 2 && "--allow-overwrite"@.len() == 17 && "--help"@.len() == 6 && "-h"@.len() == 2 && "help"@.len() == 4);
    assert("-i"@[1] == 'i' && "-o"@[1] == 'o' && "-h"@[1] == 'h');
}

proof fn lemma_pgn2wf_names()
    ensures
        "--input"@ != "-i"@,
        "--input"@ != "--output"@,
        "--input"@ != "-o"@,
        "--input"@ != "--threads"@,
        "--input"@ != "--skip-broken-games"@,
        "--input"@ != "--allow-non-pgn-extension"@,
        "--input"@ != "--allow-overwrite"@,
        "--input"@ != "--fill-missing-evals"@,
        "--input"@ != "--help"@,
        "--input"@ != "-h"@,
        "--input"@ != "help"@,
        "-i"@ != "--output"@,
        "-i"@ != "-o"@,
        "-i"@ != "--threads"@,
        "-i"@ != "--skip-broken-games"@,
        "-i"@ != "--allow-non-pgn-extension"@,
        "-i"@ != "--allow-overwrite"@,
        "-i"@ != "--fill-missing-evals"@,
        "-i"@ != "--help"@,
        "-i"@ != "-h"@,
        "-i"@ != "help"@,
        "--output"@ != "-o"@,
        "--output"@ != "--threads"@,
        "--output"@ != "--skip-broken-games"@,
        "--output"@ != "--allow-non-pgn-extension"@,
        "--output"@ != "--allow-overwrite"@,
        "--output"@ != "--fill-missing-evals"@,
        "--output"@ != "--help"@,
        "--output"@ != "-h"@,
        "--output"@ != "help"@,
        "-o"@ != "--threads"@,
        "-o"@ != "--skip-broken-games"@,
        "-o"@ != "--allow-non-pgn-extension"@,
        "-o"@ != "--allow-overwrite"@,
        "-o"@ != "--fill-missing-evals"@,
        "-o"@ != "--help"@,
        "-o"@ != "-h"@,
        "-o"@ != "help"@,
        "--threads"@ != "--skip-broken-games"@,
        "--threads"@ != "--allow-non-pgn-extension"@,
        "--threads"@ != "--allow-overwrite"@,
        "--threads"@ != "--fill-missing-evals"@,
        "--threads"@ != "--help"@,
        "--threads"@ != "-h"@,
        "--threads"@ != "help"@,
        "--skip-broken-games"@ != "--allow-non-pgn-extension"@,
        "--skip-broken-games"@ != "--allow-overwrite"@,
        "--skip-broken-games"@ != "--fill-missing-evals"@,
        "--skip-broken-games"@ != "--help"@,
        "--skip-broken-games"@ != "-h"@,
        "--skip-broken-games"@ != "help"@,
        "--allow-non-pgn-extension"@ != "--allow-overwrite"@,
        "--allow-non-pgn-extension"@ != "--fill-missing-evals"@,
        "--allow-non-pgn-extension"@ != "--help"@,
        "--allow-non-pgn-extension"@ != "-h"@,
        "--allow-non-pgn-extension"@ != "help"@,
        "--allow-overwrite"@ != "--fill-missing-evals"@,
        "--allow-overwrite"@ != "--help"@,
        "--allow-overwrite"@ != "-h"@,
        "--allow-overwrite"@ != "help"@,
        "--fill-missing-evals"@ != "--help"@,
        "--fill-missing-evals"@ != "-h"@,
        "--fill-missing-evals"@ != "help"@,
        "--help"@ != "-h"@,
        "--help"@ != "help"@,
        "-h"@ != "help"@,
{
    reveal_strlit("--input");
    reveal_strlit("-i");
    reveal_strlit("--output");
    reveal_strlit("-o");
    reveal_strlit("--threads");
    reveal_strlit("--skip-broken-games");
    reveal_strlit("--allow-non-pgn-extension");
    reveal_strlit("--allow-overwrite");
    reveal_strlit("--fill-missing-evals");
    reveal_strlit("--help");
    reveal_strlit("-h");
    reveal_strlit("help");
    assert("--input"@.len() == 7 && "-i"@.len() == 2 && "--output"@.len() == 8 && "-o"@.len() == 2 && "--threads"@.len() == 9 && "--skip-broken-games"@.len() == 19 && "--allow-non-pgn-extension"@.len() == 25 && "--allow-overwrite"@.len() == 17 && "--fill-missing-evals"@.len() == 20 && "--help"@.len() == 6 && "-h"@.len() == 2 && "help"@.len() == 4);
    assert("-i"@[1] == 'i' && "-o"@[1] == 'o' && "-h"@[1] == 'h');
}

/// What the options of the analysis do: each sets its own field, by its long name or its short one,
/// and leaves the others.
pub proof fn law_analyse_options(x: Seq<char>, rest: Seq<Seq<char>>, o: AnalyseChoice)
    ensures
        cli::analyse_choice(two("--input"@, x, rest), o) == cli::analyse_choice(
            rest,
            AnalyseChoice { input: Some(x), ..o },
        ),
        cli::analyse_choice(two("-i"@, x, rest), o) == cli::analyse_choice(
            rest,
            AnalyseChoice { input: Some(x), ..o },
        ),
        cli::analyse_choice(two("--output"@, x, rest), o) == cli::analyse_choice(
            rest,
            AnalyseChoice { output: x, ..o },
        ),
        cli::analyse_choice(two("-o"@, x, rest), o) == cli::analyse_choice(
            rest,
            AnalyseChoice { output: x, ..o },
        ),
{
    lemma_analyse_names();
    lemma_arguments("--input"@, x, rest);
    lemma_arguments("-i"@, x, rest);
    lemma_arguments("--output"@, x, rest);
    lemma_arguments("-o"@, x, rest);
}

/// What the switches of the analysis do: alone or with `true` they are on, with `false` off.
pub proof fn law_analyse_switches(rest: Seq<Seq<char>>, o: AnalyseChoice)
    ensures
        no_value(rest) ==> cli::analyse_choice(one("--allow-overwrite"@, rest), o) == cli::analyse_choice(
            rest,
            AnalyseChoice { overwrite: true, ..o },
        ),
        cli::analyse_choice(two("--allow-overwrite"@, "true"@, rest), o) == cli::analyse_choice(
            rest,
            AnalyseChoice { overwrite: true, ..o },
        ),
        cli::analyse_choice(two("--allow-overwrite"@, "false"@, rest), o) == cli::analyse_choice(
            rest,
            AnalyseChoice { overwrite: false, ..o },
        ),
        no_value(rest) ==> cli::analyse_choice(one("--approximate"@, rest), o) == cli::analyse_choice(
            rest,
            AnalyseChoice { approximate: true, ..o },
        ),
        cli::analyse_choice(two("--approximate"@, "true"@, rest), o) == cli::analyse_choice(
            rest,
            AnalyseChoice { approximate: true, ..o },
        ),
        cli::analyse_choice(two("--approximate"@, "false"@, rest), o) == cli::analyse_choice(
            rest,
            AnalyseChoice { approximate: false, ..o },
        ),
        no_value(rest) ==> cli::analyse_choice(one("--verbose"@, rest), o) == cli::analyse_choice(
            rest,
            AnalyseChoice { verbose: true, ..o },
        ),
        cli::analyse_choice(two("--verbose"@, "true"@, rest), o) == cli::analyse_choice(
            rest,
            AnalyseChoice { verbose: true, ..o },
        ),
        cli::analyse_choice(two("--verbose"@, "false"@, rest), o) == cli::analyse_choice(
            rest,
            AnalyseChoice { verbose: false, ..o },
        ),
        no_value(rest) ==> cli::analyse_choice(one("-v"@, rest), o) == cli::analyse_choice(
            rest,
            AnalyseChoice { verbose: true, ..o },
        ),
        cli::analyse_choice(two("-v"@, "true"@, rest), o) == cli::analyse_choice(
            rest,
            AnalyseChoice { verbose: true, ..o },
        ),
        cli::analyse_choice(two("-v"@, "false"@, rest), o) == cli::analyse_choice(
            rest,
            AnalyseChoice { verbose: false, ..o },
        ),
{
    lemma_analyse_names();
    lemma_switch("--allow-overwrite"@, rest);
    lemma_arguments("--allow-overwrite"@, "true"@, rest);
    lemma_arguments("--allow-overwrite"@, "false"@, rest);
    lemma_switch("--approximate"@, rest);
    lemma_arguments("--approximate"@, "true"@, rest);
    lemma_arguments("--approximate"@, "false"@, rest);
    lemma_switch("--verbose"@, rest);
    lemma_arguments("--verbose"@, "true"@, rest);
    lemma_arguments("--verbose"@, "false"@, rest);
    lemma_switch("-v"@, rest);
    lemma_arguments("-v"@, "true"@, rest);
    lemma_arguments("-v"@, "false"@, rest);
}

/// What the options of interleaving do.
pub proof fn law_interleave_options(x: Seq<char>, rest: Seq<Seq<char>>, o: InterleaveChoice)
    ensures
        cli::interleave_choice(two("--input"@, x, rest), o) == cli::interleave_choice(
            rest,
            InterleaveChoice { inputs: o.inputs.push(x), ..o },
        ),
        cli::interleave_choice(two("-i"@, x, rest), o) == cli::interleave_choice(
            rest,
            InterleaveChoice { inputs: o.inputs.push(x), ..o },
        ),
        cli::interleave_choice(two("--output"@, x, rest), o) == cli::interleave_choice(
            rest,
            InterleaveChoice { output: Some(x), ..o },
        ),
        cli::interleave_choice(two("-o"@, x, rest), o) == cli::interleave_choice(
            rest,
            InterleaveChoice { output: Some(x), ..o },
        ),
        no_value(rest) ==> cli::interleave_choice(one("--allow-overwrite"@, rest), o) == cli::interleave_choice(
            rest,
            InterleaveChoice { overwrite: true, ..o },
        ),
        cli::interleave_choice(two("--allow-overwrite"@, "true"@, rest), o) == cli::interleave_choice(
            rest,
            InterleaveChoice { overwrite: true, ..o },
        ),
        cli::interleave_choice(two("--allow-overwrite"@, "false"@, rest), o) == cli::interleave_choice(
            rest,
            InterleaveChoice { overwrite: false, ..o },
        ),
{
    lemma_interleave_names();
    lemma_arguments("--input"@, x, rest);
    lemma_arguments("-i"@, x, rest);
    lemma_arguments("--output"@, x, rest);
    lemma_arguments("-o"@, x, rest);
    lemma_switch("--allow-overwrite"@, rest);
    lemma_arguments("--allow-overwrite"@, "true"@, rest);
    lemma_arguments("--allow-overwrite"@, "false"@, rest);
}

/// What the options of the conversion do.
pub proof fn law_pgn2wf_options(x: Seq<char>, n: usize, rest: Seq<Seq<char>>, o: Pgn2wfChoice)
    ensures
        cli::pgn2wf_choice(two("--input"@, x, rest), o) == cli::pgn2wf_choice(
            rest,
            Pgn2wfChoice { input: Some(x), ..o },
        ),
        cli::pgn2wf_choice(two("-i"@, x, rest), o) == cli::pgn2wf_choice(
            rest,
            Pgn2wfChoice { input: Some(x), ..o },
        ),
        cli::pgn2wf_choice(two("--output"@, x, rest), o) == cli::pgn2wf_choice(
            rest,
            Pgn2wfChoice { output: Some(x), ..o },
        ),
        cli::pgn2wf_choice(two("-o"@, x, rest), o) == cli::pgn2wf_choice(
            rest,
            Pgn2wfChoice { output: Some(x), ..o },
        ),
        text::number(x, usize::MAX as nat) == Some(n as nat) ==> cli::pgn2wf_choice(
            two("--threads"@, x, rest),
            o,
        ) == cli::pgn2wf_choice(rest, Pgn2wfChoice { threads: n as int, ..o }),
{
    lemma_pgn2wf_names();
    lemma_arguments("--input"@, x, rest);
    lemma_arguments("-i"@, x, rest);
    lemma_arguments("--output"@, x, rest);
    lemma_arguments("-o"@, x, rest);
    lemma_arguments("--threads"@, x, rest);
}

/// What the switches of the conversion do.
pub proof fn law_pgn2wf_switches(rest: Seq<Seq<char>>, o: Pgn2wfChoice)
    ensures
        no_value(rest) ==> cli::pgn2wf_choice(one("--skip-broken-games"@, rest), o) == cli::pgn2wf_choice(
            rest,
            Pgn2wfChoice { options: Options { skip_broken: true, ..o.options }, ..o },
        ),
        cli::pgn2wf_choice(two("--skip-broken-games"@, "true"@, rest), o) == cli::pgn2wf_choice(
            rest,
            Pgn2wfChoice { options: Options { skip_broken: true, ..o.options }, ..o },
        ),
        cli::pgn2wf_choice(two("--skip-broken-games"@, "false"@, rest), o) == cli::pgn2wf_choice(
            rest,
            Pgn2wfChoice { options: Options { skip_broken: false, ..o.options }, ..o },
        ),
        no_value(rest) ==> cli::pgn2wf_choice(one("--allow-non-pgn-extension"@, rest), o) == cli::pgn2wf_choice(
            rest,
            Pgn2wfChoice { allow_extension: true, ..o },
        ),
        cli::pgn2wf_choice(two("--allow-non-pgn-extension"@, "true"@, rest), o) == cli::pgn2wf_choice(
            rest,
            Pgn2wfChoice { allow_extension: true, ..o },
        ),
        cli::pgn2wf_choice(two("--allow-non-pgn-extension"@, "false"@, rest), o) == cli::pgn2wf_choice(
            rest,
            Pgn2wfChoice { allow_extension: false, ..o },
        ),
        no_value(rest) ==> cli::pgn2wf_choice(one("--allow-overwrite"@, rest), o) == cli::pgn2wf_choice(
            rest,
            Pgn2wfChoice { overwrite: true, ..o },
        ),
        cli::pgn2wf_choice(two("--allow-overwrite"@, "true"@, rest), o) == cli::pgn2wf_choice(
            rest,
            Pgn2wfChoice { overwrite: true, ..o },
        ),
        cli::pgn2wf_choice(two("--allow-overwrite"@, "false"@, rest), o) == cli::pgn2wf_choice(
            rest,
            Pgn2wfChoice { overwrite: false, ..o },
        ),
{
    lemma_pgn2wf_names();
    lemma_switch("--skip-broken-games"@, rest);
    lemma_arguments("--skip-broken-games"@, "true"@, rest);
    lemma_arguments("--skip-broken-games"@, "false"@, rest);
    lemma_switch("--allow-non-pgn-extension"@, rest);
    lemma_arguments("--allow-non-pgn-extension"@, "true"@, rest);
    lemma_arguments("--allow-non-pgn-extension"@, "false"@, rest);
    lemma_switch("--allow-overwrite"@, rest);
    lemma_arguments("--allow-overwrite"@, "true"@, rest);
    lemma_arguments("--allow-overwrite"@, "false"@, rest);
}

proof fn lemma_analyse_dashes()
    ensures
        "help"@.len() == 4,
        "help"@[0] == 'h',
        "--input"@.len() == 7,
        "--input"@[0] == '-',
        "--input"@[1] == '-',
        "-i"@.len() == 2,
        "-i"@[0] == '-',
        "--output"@.len() == 8,
        "--output"@[0] == '-',
        "--output"@[1] == '-',
        "-o"@.len() == 2,
        "-o"@[0] == '-',
        "--allow-overwrite"@.len() == 17,
        "--allow-overwrite"@[0] == '-',
        "--allow-overwrite"@[1] == '-',
        "--approximate"@.len() == 13,
        "--approximate"@[0] == '-',
        "--approximate"@[1] == '-',
        "--verbose"@.len() == 9,
        "--verbose"@[0] == '-',
        "--verbose"@[1] == '-',
        "-v"@.len() == 2,
        "-v"@[0] == '-',
        "--help"@.len() == 6,
        "--help"@[0] == '-',
        "--help"@[1] == '-',
        "-h"@.len() == 2,
        "-h"@[0] == '-',
{
    reveal_strlit("--input");
    reveal_strlit("-i");
    reveal_strlit("--output");
    reveal_strlit("-o");
    reveal_strlit("--allow-overwrite");
    reveal_strlit("--approximate");
    reveal_strlit("--verbose");
    reveal_strlit("-v");
    reveal_strlit("--help");
    reveal_strlit("-h");
    reveal_strlit("help");
}

proof fn lemma_interleave_dashes()
    ensures
        "help"@.len() == 4,
        "help"@[0] == 'h',
        "--input"@.len() == 7,
        "--input"@[0] == '-',
        "--input"@[1] == '-',
        "-i"@.len() == 2,
        "-i"@[0] == '-',
        "--output"@.len() == 8,
        "--output"@[0] == '-',
        "--output"@[1] == '-',
        "-o"@.len() == 2,
        "-o"@[0] == '-',
        "--allow-overwrite"@.len() == 17,
        "--allow-overwrite"@[0] == '-',
        "--allow-overwrite"@[1] == '-',
        "--help"@.len() == 6,
        "--help"@[0] == '-',
        "--help"@[1] == '-',
        "-h"@.len() == 2,
        "-h"@[0] == '-',
{
    reveal_strlit("--input");
    reveal_strlit("-i");
    reveal_strlit("--output");
    reveal_strlit("-o");
    reveal_strlit("--allow-overwrite");
    reveal_strlit("--help");
    reveal_strlit("-h");
    reveal_strlit("help");
}

proof fn lemma_pgn2wf_dashes()
    ensures
        "help"@.len() == 4,
        "help"@[0] == 'h',
        "--input"@.len() == 7,
        "--input"@[0] == '-',
        "--input"@[1] == '-',
        "-i"@.len() == 2,
        "-i"@[0] == '-',
        "--output"@.len() == 8,
        "--output"@[0] == '-',
        "--output"@[1] == '-',
        "-o"@.len() == 2,
        "-o"@[0] == '-',
        "--threads"@.len() == 9,
        "--threads"@[0] == '-',
        "--threads"@[1] == '-',
        "--skip-broken-games"@.len() == 19,
        "--skip-broken-games"@[0] == '-',
        "--skip-broken-games"@[1] == '-',
        "--allow-non-pgn-extension"@.len() == 25,
        "--allow-non-pgn-extension"@[0] == '-',
        "--allow-non-pgn-extension"@[1] == '-',
        "--allow-overwrite"@.len() == 17,
        "--allow-overwrite"@[0] == '-',
        "--allow-overwrite"@[1] == '-',
        "--fill-missing-evals"@.len() == 20,
        "--fill-missing-evals"@[0] == '-',
        "--fill-missing-evals"@[1] == '-',
        "--help"@.len() == 6,
        "--help"@[0] == '-',
        "--help"@[1] == '-',
        "-h"@.len() == 2,
        "-h"@[0] == '-',
{
    reveal_strlit("--input");
    reveal_strlit("-i");
    reveal_strlit("--output");
    reveal_strlit("-o");
    reveal_strlit("--threads");
    reveal_strlit("--skip-broken-games");
    reveal_strlit("--allow-non-pgn-extension");
    reveal_strlit("--allow-overwrite");
    reveal_strlit("--fill-missing-evals");
    reveal_strlit("--help");
    reveal_strlit("-h");
    reveal_strlit("help");
}

/// What else the arguments of the analysis mean: a request for help ends the reading, whatever follows; an
/// argument without a dash is the input, once; anything else is refused, and so is an option
/// without its value.
pub proof fn law_analyse_arguments(x: Seq<char>, rest: Seq<Seq<char>>, o: AnalyseChoice)
    ensures
        cli::analyse_choice(one("--help"@, rest), o) == Ok::<Option<AnalyseChoice>, Seq<char>>(None),
        cli::analyse_choice(one("-h"@, rest), o) == Ok::<Option<AnalyseChoice>, Seq<char>>(None),
        cli::analyse_choice(one("help"@, rest), o) == Ok::<Option<AnalyseChoice>, Seq<char>>(None),
        x.len() > 0 && x[0] != '-' && x != "help"@ && o.input is None ==> cli::analyse_choice(one(x, rest), o)
            == cli::analyse_choice(rest, AnalyseChoice { input: Some(x), ..o }),
        x.len() == 0 && o.input is None ==> cli::analyse_choice(one(x, rest), o) == cli::analyse_choice(
            rest,
            AnalyseChoice { input: Some(x), ..o },
        ),
        x.len() > 2 && x[0] == '-' && x[1] != '-' ==> cli::analyse_choice(one(x, rest), o) == Err::<
            Option<AnalyseChoice>,
            Seq<char>,
        >("unknown argument "@ + x),
        cli::analyse_choice(seq!["--input"@], o) is Err,
        cli::analyse_choice(seq!["-i"@], o) is Err,
        cli::analyse_choice(seq!["--output"@], o) is Err,
        cli::analyse_choice(seq!["-o"@], o) is Err,
        cli::analyse_choice(seq![], o) == if o.input is None {
            Err("missing input; usage: wakformat analyse <INPUT> [OPTIONS]"@)
        } else {
            Ok(Some(o))
        },
{
    lemma_analyse_names();
    lemma_analyse_dashes();
    lemma_arguments("--help"@, x, rest);
    lemma_arguments("-h"@, x, rest);
    lemma_arguments("help"@, x, rest);
    lemma_arguments(x, x, rest);
    assert(seq!["--input"@].skip(1).len() == 0);
    assert(seq!["-i"@].skip(1).len() == 0);
    assert(seq!["--output"@].skip(1).len() == 0);
    assert(seq!["-o"@].skip(1).len() == 0);
}

/// What else the arguments of interleaving mean: a request for help ends the reading, whatever follows; an
/// argument without a dash is one more input; anything else is refused, and so is an option
/// without its value.
pub proof fn law_interleave_arguments(x: Seq<char>, rest: Seq<Seq<char>>, o: InterleaveChoice)
    ensures
        cli::interleave_choice(one("--help"@, rest), o) == Ok::<Option<InterleaveChoice>, Seq<char>>(None),
        cli::interleave_choice(one("-h"@, rest), o) == Ok::<Option<InterleaveChoice>, Seq<char>>(None),
        cli::interleave_choice(one("help"@, rest), o) == Ok::<Option<InterleaveChoice>, Seq<char>>(None),
        x.len() > 0 && x[0] != '-' && x != "help"@ ==> cli::interleave_choice(one(x, rest), o)
            == cli::interleave_choice(rest, InterleaveChoice { inputs: o.inputs.push(x), ..o }),
        x.len() == 0 ==> cli::interleave_choice(one(x, rest), o) == cli::interleave_choice(
            rest,
            InterleaveChoice { inputs: o.inputs.push(x), ..o },
        ),
        x.len() > 2 && x[0] == '-' && x[1] != '-' ==> cli::interleave_choice(one(x, rest), o) == Err::<
            Option<InterleaveChoice>,
            Seq<char>,
        >("unknown argument "@ + x),
        cli::interleave_choice(seq!["--input"@], o) is Err,
        cli::interleave_choice(seq!["-i"@], o) is Err,
        cli::interleave_choice(seq!["--output"@], o) is Err,
        cli::interleave_choice(seq!["-o"@], o) is Err,
        cli::interleave_choice(seq![], o) == if o.inputs.len() == 0 {
            Err("missing input; usage: wakformat interleave <INPUT> [MORE INPUTS ...] [OPTIONS]"@)
        } else {
            Ok(Some(o))
        },
{
    lemma_interleave_names();
    lemma_interleave_dashes();
    lemma_arguments("--help"@, x, rest);
    lemma_arguments("-h"@, x, rest);
    lemma_arguments("help"@, x, rest);
    lemma_arguments(x, x, rest);
    assert(seq!["--input"@].skip(1).len() == 0);
    assert(seq!["-i"@].skip(1).len() == 0);
    assert(seq!["--output"@].skip(1).len() == 0);
    assert(seq!["-o"@].skip(1).len() == 0);
}

/// What else the arguments of the conversion mean: a request for help ends the reading, whatever follows; an
/// argument without a dash is the input, once; anything else is refused, and so is an option
/// without its value.
pub proof fn law_pgn2wf_arguments(x: Seq<char>, rest: Seq<Seq<char>>, o: Pgn2wfChoice)
    ensures
        cli::pgn2wf_choice(one("--help"@, rest), o) == Ok::<Option<Pgn2wfChoice>, Seq<char>>(None),
        cli::pgn2wf_choice(one("-h"@, rest), o) == Ok::<Option<Pgn2wfChoice>, Seq<char>>(None),
        cli::pgn2wf_choice(one("help"@, rest), o) == Ok::<Option<Pgn2wfChoice>, Seq<char>>(None),
        x.len() > 0 && x[0] != '-' && x != "help"@ && o.input is None ==> cli::pgn2wf_choice(one(x, rest), o)
            == cli::pgn2wf_choice(rest, Pgn2wfChoice { input: Some(x), ..o }),
        x.len() == 0 && o.input is None ==> cli::pgn2wf_choice(one(x, rest), o) == cli::pgn2wf_choice(
            rest,
            Pgn2wfChoice { input: Some(x), ..o },
        ),
        x.len() > 2 && x[0] == '-' && x[1] != '-' ==> cli::pgn2wf_choice(one(x, rest), o) == Err::<
            Option<Pgn2wfChoice>,
            Seq<char>,
        >("unknown argument "@ + x),
        cli::pgn2wf_choice(seq!["--input"@], o) is Err,
        cli::pgn2wf_choice(seq!["-i"@], o) is Err,
        cli::pgn2wf_choice(seq!["--output"@], o) is Err,
        cli::pgn2wf_choice(seq!["-o"@], o) is Err,
        cli::pgn2wf_choice(seq![], o) == if o.input is None {
            Err("missing input; usage: wakformat pgn2wf <INPUT> [OPTIONS]"@)
        } else {
            Ok(Some(o))
        },
{
    lemma_pgn2wf_names();
    lemma_pgn2wf_dashes();
    lemma_arguments("--help"@, x, rest);
    lemma_arguments("-h"@, x, rest);
    lemma_arguments("help"@, x, rest);
    lemma_arguments(x, x, rest);
    assert(seq!["--input"@].skip(1).len() == 0);
    assert(seq!["-i"@].skip(1).len() == 0);
    assert(seq!["--output"@].skip(1).len() == 0);
    assert(seq!["-o"@].skip(1).len() == 0);
}

/// Whether two characters are the same but for the case of ASCII letters.
pub open spec fn same_letter(a: char, b: char) -> bool {
    ||| a == b
    ||| 'a' <= a && a <= 'z' && b as u32 + 32 == a as u32
    ||| 'a' <= b && b <= 'z' && a as u32 + 32 == b as u32
}

/// Whether two texts are the same but for the case of ASCII letters.
pub open spec fn same_letters(a: Seq<char>, b: Seq<char>) -> bool {
    a.len() == b.len() && forall|i: int| 0 <= i < a.len() ==> same_letter(#[trigger] a[i], b[i])
}

/// Letters in lower case are the same just if the letters are the same but for their case.
pub proof fn law_case_does_not_matter(a: Seq<char>, b: Seq<char>)
    ensures
        cli::lowered(a) == cli::lowered(b) <==> same_letters(a, b),
{
    let (x, y) = (cli::lowered(a), cli::lowered(b));
    if x == y {
        assert(a.len() == x.len() && b.len() == y.len());
        assert forall|i: int| 0 <= i < a.len() implies same_letter(#[trigger] a[i], b[i]) by {
            assert(x[i] == cli::lower(a[i]) && y[i] == cli::lower(b[i]));
            lemma_lower(a[i], b[i]);
        }
    }
    if same_letters(a, b) {
        assert forall|i: int| 0 <= i < a.len() implies x[i] == y[i] by {
            assert(same_letter(a[i], b[i]));
            lemma_lower(a[i], b[i]);
        }
        assert(x =~= y);
    }
}

proof fn lemma_lower(a: char, b: char)
    ensures
        cli::lower(a) == cli::lower(b) <==> same_letter(a, b),
{
    let (x, y) = (cli::lower(a), cli::lower(b));
    if 'A' <= a <= 'Z' {
        assert(x as u32 == a as u32 + 32);
    }
    if 'A' <= b <= 'Z' {
        assert(y as u32 == b as u32 + 32);
    }
}

/// What is done about missing scores: the score before, the score behind, or a number with a sign or
/// without.
pub proof fn law_ways_to_fill(s: Seq<char>, d: Seq<char>)
    ensures
        same_letters(s, seq!['p', 'r', 'e', 'v']) ==> cli::fill_of(s) == Ok::<Fill, Seq<char>>(
            Fill::Prev,
        ),
        same_letters(s, seq!['n', 'e', 'x', 't']) ==> cli::fill_of(s) == Ok::<Fill, Seq<char>>(
            Fill::Next,
        ),
        text::number(d, 32767) is Some ==> {
            let n = text::number(d, 32767)->0;
            &&& cli::fill_of(d) == Ok::<Fill, Seq<char>>(Fill::Value(n as i16))
            &&& cli::fill_of(seq!['+'] + d) == Ok::<Fill, Seq<char>>(Fill::Value(n as i16))
            &&& cli::fill_of(seq!['-'] + d) == Ok::<Fill, Seq<char>>(Fill::Value((-n) as i16))
        },
        cli::fill_of(seq!['-'] + d) is Ok <==> text::number(d, 32768) is Some,
        text::number(d, 32768) matches Some(n) ==> cli::fill_of(seq!['-'] + d) == Ok::<
            Fill,
            Seq<char>,
        >(Fill::Value((-n) as i16)),
{
    reveal_strlit("prev");
    reveal_strlit("next");
    let prev = seq!['p', 'r', 'e', 'v'];
    let next = seq!['n', 'e', 'x', 't'];
    assert("prev"@ =~= prev);
    assert("next"@ =~= next);
    assert(cli::lowered(prev) =~= prev);
    assert(cli::lowered(next) =~= next);
    law_case_does_not_matter(s, prev);
    law_case_does_not_matter(s, next);
    if same_letters(s, next) {
        assert(cli::lowered(s)[0] == 'n');
    }
    lemma_number_is_no_word(seq!['-'] + d);
    assert((seq!['-'] + d).skip(1) =~= d);
    if text::number(d, 32767) is Some {
        assert(text::is_digit(d[0]));
        lemma_number_is_no_word(d);
        lemma_number_is_no_word(seq!['+'] + d);
        lemma_number_is_no_word(seq!['-'] + d);
        assert((seq!['+'] + d).skip(1) =~= d);
        assert((seq!['-'] + d).skip(1) =~= d);
        assert((seq!['+'] + d)[0] == '+' && (seq!['-'] + d)[0] == '-');
    }
}

proof fn lemma_number_is_no_word(s: Seq<char>)
    requires
        s.len() > 0,
        text::is_digit(s[0]) || s[0] == '+' || s[0] == '-',
        "prev"@ == seq!['p', 'r', 'e', 'v'],
        "next"@ == seq!['n', 'e', 'x', 't'],
    ensures
        cli::lowered(s) != "prev"@,
        cli::lowered(s) != "next"@,
{
    assert(cli::lowered(s)[0] == cli::lower(s[0]));
    assert(cli::lower(s[0]) == s[0]);
}

/// The conversion fills missing scores as it is told.
pub proof fn law_pgn2wf_fill(x: Seq<char>, rest: Seq<Seq<char>>, o: Pgn2wfChoice)
    ensures
        cli::pgn2wf_choice(two("--fill-missing-evals"@, x, rest), o) == match cli::fill_of(x) {
            Ok(fill) => cli::pgn2wf_choice(
                rest,
                Pgn2wfChoice { options: Options { fill, ..o.options }, ..o },
            ),
            Err(m) => Err(m),
        },
{
    lemma_pgn2wf_names();
    lemma_arguments("--fill-missing-evals"@, x, rest);
}

/// An argument `--key=value` is the same as the two arguments `--key` and `value`; the key ends at
/// the first equals sign. Other arguments stay as they are.
pub proof fn law_keys_and_values(key: Seq<char>, value: Seq<char>, x: Seq<char>)
    requires
        forall|i: int| 0 <= i < key.len() ==> #[trigger] key[i] != '=',
        x.len() < 2 || x[0] != '-' || x[1] != '-' || forall|i: int|
            0 <= i < x.len() ==> #[trigger] x[i] != '=',
    ensures
        ({
            let dashed = seq!['-', '-'] + key;
            cli::split(dashed + seq!['='] + value) == seq![dashed, value]
        }),
        cli::split(x) == seq![x],
{
    reveal_strlit("--");
    assert("--"@ =~= seq!['-', '-']);
    let dashed = seq!['-', '-'] + key;
    let s = dashed + seq!['='] + value;
    let n = dashed.len() as int;
    assert(s.take(2) =~= seq!['-', '-']);
    assert forall|j: int| 0 <= j < n implies !(text::only('='))(#[trigger] s[j]) by {
        if j >= 2 {
            assert(s[j] == key[j - 2]);
        }
    }
    assert(s[n] == '=');
    crate::wording::lemma_find_at(s, text::only('='), 0, n);
    assert(s.take(n) =~= dashed);
    assert(s.skip(n + 1) =~= value);
    if x.len() >= 2 && x[0] == '-' && x[1] == '-' {
        assert forall|j: int| 0 <= j < x.len() implies !(text::only('='))(#[trigger] x[j]) by {}
        crate::wording::lemma_find_at(x, text::only('='), 0, x.len() as int);
    } else if x.len() >= 2 {
        assert(x.take(2)[0] == x[0] && x.take(2)[1] == x[1]);
    }
}

/// The extension of a file name stands behind its last dot; a name that only begins with a dot has
/// none. A PGN file ends in `pgn`, or in `pgn.bz2`, in whichever case.
pub proof fn law_extensions(stem: Seq<char>, e: Seq<char>, name: Seq<char>)
    requires
        stem.len() > 0,
        forall|i: int| 0 <= i < e.len() ==> #[trigger] e[i] != '.',
        forall|i: int| 1 <= i < name.len() ==> #[trigger] name[i] != '.',
    ensures
        ({
            let s = stem + seq!['.'] + e;
            let pgn = seq!['p', 'g', 'n'];
            let bz2 = seq!['b', 'z', '2'];
            &&& cli::extension_of(s) == Some((stem, e))
            &&& same_letters(e, pgn) ==> cli::names_pgn(s)
            &&& same_letters(e, bz2) ==> (cli::names_pgn(s) <==> cli::extends(stem, pgn))
            &&& !same_letters(e, pgn) && !same_letters(e, bz2) ==> !cli::names_pgn(s)
            &&& same_letters(e, seq!['t', 'a', 'r']) ==> cli::source_kind(s) == Source::Tar
            &&& same_letters(e, bz2) ==> cli::source_kind(s) == Source::Bzip2
            &&& !same_letters(e, seq!['t', 'a', 'r']) && !same_letters(e, bz2) ==> cli::source_kind(s)
                == Source::Plain
        }),
        cli::extension_of(name) is None,
        !cli::names_pgn(name),
        cli::source_kind(name) == Source::Plain,
{
    let s = stem + seq!['.'] + e;
    let n = stem.len() as int;
    let pgn = seq!['p', 'g', 'n'];
    let bz2 = seq!['b', 'z', '2'];
    let tar = seq!['t', 'a', 'r'];
    reveal_strlit("pgn");
    reveal_strlit("bz2");
    reveal_strlit("tar");
    assert("pgn"@ =~= pgn && "bz2"@ =~= bz2 && "tar"@ =~= tar);
    assert(s[n] == '.');
    assert forall|j: int| n < j < s.len() implies #[trigger] s[j] != '.' by {
        assert(s[j] == e[j - n - 1]);
    }
    crate::coordinates::lemma_last_of(s, '.', n);
    assert(s.take(n) =~= stem);
    assert(s.skip(n + 1) =~= e);
    law_case_does_not_matter(e, pgn);
    law_case_does_not_matter(e, bz2);
    law_case_does_not_matter(e, tar);
    if same_letters(e, bz2) {
        assert(same_letter(e[0], 'b'));
        assert(bz2[0] == 'b' && pgn[0] == 'p' && tar[0] == 't');
    }
    if name.len() > 0 && name[0] == '.' {
        crate::coordinates::lemma_last_of(name, '.', 0);
    } else {
        crate::coordinates::lemma_not_in(name, '.');
    }
}

/// Each tool is called by its name, with the arguments behind it, and asks for help without any.
/// `help` before the name asks for help too.
pub proof fn law_tools_have_names(name: Seq<char>, tool: Tool, rest: Seq<Seq<char>>)
    requires
        ({
            ||| name == "pgn2wf"@ && tool == Tool::Pgn2wf
            ||| name == "interleave"@ && tool == Tool::Interleave
            ||| name == "analyse"@ && tool == Tool::Analyse
        }),
        rest.len() > 0,
    ensures
        cli::invocation(one(name, rest)) == Ok::<(Tool, Seq<Seq<char>>), Seq<char>>((tool, rest)),
        cli::invocation(seq![name]) == Ok::<(Tool, Seq<Seq<char>>), Seq<char>>(
            (tool, seq!["--help"@]),
        ),
        cli::invocation(seq!["help"@, name]) == Ok::<(Tool, Seq<Seq<char>>), Seq<char>>(
            (tool, seq!["--help"@]),
        ),
        cli::invocation(seq!["help"@, name] + rest) is Err,
        cli::invocation(seq![]) == Ok::<(Tool, Seq<Seq<char>>), Seq<char>>(
            (Tool::Overview, seq!["--help"@]),
        ),
{
    reveal_strlit("pgn2wf");
    reveal_strlit("interleave");
    reveal_strlit("analyse");
    reveal_strlit("help");
    assert("pgn2wf"@.len() == 6 && "interleave"@.len() == 10 && "analyse"@.len() == 7
        && "help"@.len() == 4);
    let none: Seq<Seq<char>> = seq![];
    assert(one(name, rest)[0] == name);
    assert(one(name, rest).skip(1) =~= rest);
    assert(seq![name].skip(1) =~= none);
    assert(none.push("--help"@) =~= seq!["--help"@]);
    let h = seq!["help"@, name];
    assert(h[0] == "help"@);
    assert(h.skip(1) =~= seq![name]);
    let k = h + rest;
    assert(k[0] == "help"@);
    assert(k.skip(1) =~= one(name, rest));
}

/// With an input alone the tools do what they do by default: positions are analysed exactly and the
/// scores go to `score_distribution.txt`, an output is not overwritten, nothing is filled in and no
/// game is skipped.
pub proof fn law_inputs_alone(name: Seq<char>, threads: int)
    requires
        name.len() > 0 ==> name[0] != '-',
        name != "help"@,
    ensures
        cli::analyse_choice(seq![name], cli::analyse_default()) == Ok::<
            Option<AnalyseChoice>,
            Seq<char>,
        >(
            Some(
                AnalyseChoice {
                    input: Some(name),
                    output: "score_distribution.txt"@,
                    overwrite: false,
                    approximate: false,
                    verbose: false,
                },
            ),
        ),
        cli::interleave_choice(seq![name], cli::interleave_default()) == Ok::<
            Option<InterleaveChoice>,
            Seq<char>,
        >(Some(InterleaveChoice { inputs: seq![name], output: None, overwrite: false })),
        cli::pgn2wf_choice(seq![name], cli::pgn2wf_default(threads)) == Ok::<
            Option<Pgn2wfChoice>,
            Seq<char>,
        >(
            Some(
                Pgn2wfChoice {
                    input: Some(name),
                    output: None,
                    overwrite: false,
                    allow_extension: false,
                    threads,
                    options: Options { fill: Fill::Nothing, skip_broken: false },
                },
            ),
        ),
{
    let args = seq![name];
    lemma_no_option(name);
    assert(args.skip(1).len() == 0);
    let none: Seq<Seq<char>> = seq![];
    assert(none.push(name) =~= seq![name]);
    reveal_with_fuel(cli::analyse_choice, 2);
    reveal_with_fuel(cli::interleave_choice, 2);
    reveal_with_fuel(cli::pgn2wf_choice, 2);
}

/// What does not begin with a dash is no option.
proof fn lemma_no_option(name: Seq<char>)
    requires
        name.len() > 0 ==> name[0] != '-',
    ensures
        name != "--input"@ && name != "-i"@ && name != "--output"@ && name != "-o"@,
        name != "--allow-overwrite"@ && name != "--approximate"@ && name != "--verbose"@,
        name != "-v"@ && name != "--help"@ && name != "-h"@ && name != "--threads"@,
        name != "--skip-broken-games"@ && name != "--allow-non-pgn-extension"@,
        name != "--fill-missing-evals"@,
{
    reveal_strlit("--input");
    reveal_strlit("-i");
    reveal_strlit("--output");
    reveal_strlit("-o");
    reveal_strlit("--allow-overwrite");
    reveal_strlit("--approximate");
    reveal_strlit("--verbose");
    reveal_strlit("-v");
    reveal_strlit("--help");
    reveal_strlit("-h");
    reveal_strlit("--threads");
    reveal_strlit("--skip-broken-games");
    reveal_strlit("--allow-non-pgn-extension");
    reveal_strlit("--fill-missing-evals");
    assert("--input"@[0] == '-' && "-i"@[0] == '-' && "--output"@[0] == '-' && "-o"@[0] == '-');
    assert("--allow-overwrite"@[0] == '-' && "--approximate"@[0] == '-');
    assert("--verbose"@[0] == '-' && "-v"@[0] == '-' && "--help"@[0] == '-' && "-h"@[0] == '-');
    assert("--threads"@[0] == '-' && "--skip-broken-games"@[0] == '-');
    assert("--allow-non-pgn-extension"@[0] == '-' && "--fill-missing-evals"@[0] == '-');
}

/// The interleaved games go beside the input, under its name with another extension. A name that
/// begins with its only dot has no extension, and neither has one without a dot.
pub proof fn law_interleaved_names(stem: Seq<char>, extension: Seq<char>)
    requires
        forall|i: int| 0 <= i < extension.len() ==> #[trigger] extension[i] != '.',
    ensures
        stem.len() > 0 ==> cli::interleaved_name(stem + seq!['.'] + extension) == stem
            + ".interleaved.wf"@,
        cli::interleaved_name(seq!['.'] + extension) == seq!['.'] + extension + ".interleaved.wf"@,
        cli::interleaved_name(extension) == extension + ".interleaved.wf"@,
{
    let a = stem + seq!['.'] + extension;
    let n = stem.len() as int;
    assert(a[n] == '.');
    assert forall|j: int| n < j < a.len() implies #[trigger] a[j] != '.' by {
        assert(a[j] == extension[j - n - 1]);
    }
    coordinates::lemma_last_of(a, '.', n);
    assert(a.take(n) =~= stem);
    let b = seq!['.'] + extension;
    assert(b[0] == '.');
    assert forall|j: int| 0 < j < b.len() implies #[trigger] b[j] != '.' by {
        assert(b[j] == extension[j - 1]);
    }
    coordinates::lemma_last_of(b, '.', 0);
    coordinates::lemma_not_in(extension, '.');
}

/// There is one input to analyse or to convert: a second one is refused.
pub proof fn law_one_input(
    x: Seq<char>,
    rest: Seq<Seq<char>>,
    a: AnalyseChoice,
    b: Pgn2wfChoice,
)
    requires
        x.len() > 0 ==> x[0] != '-',
        x != "help"@,
    ensures
        a.input is Some ==> cli::analyse_choice(one(x, rest), a) is Err,
        b.input is Some ==> cli::pgn2wf_choice(one(x, rest), b) is Err,
{
    let args = one(x, rest);
    lemma_no_option(x);
    assert(args[0] == x);
}

} // verus!
