//! What the arguments of the program mean.
use crate::convert::{Fill, Options};
use crate::text::{chars_of, cut, find_char, find_last, is_word, starts_with, text_of};
use crate::text;
use vstd::prelude::*;

verus! {

/// The texts of some strings.
pub open spec fn strings(v: Seq<String>) -> Seq<Seq<char>> {
    v.map_values(|s: String| s@)
}

/// The arguments that one argument stands for: `--key=value` is `--key` and `value`.
pub open spec fn split(arg: Seq<char>) -> Seq<Seq<char>> {
    let i = text::find(arg, text::only('='), 0);
    if text::starts(arg, "--"@) && i < arg.len() {
        seq![arg.take(i), arg.skip(i + 1)]
    } else {
        seq![arg]
    }
}

/// The arguments that the first `n` of `args` stand for.
pub open spec fn split_all(args: Seq<Seq<char>>, n: int) -> Seq<Seq<char>>
    decreases n,
{
    if n <= 0 {
        seq![]
    } else {
        split_all(args, n - 1) + split(args[n - 1])
    }
}

/// Splits every argument of the form `--key=value` in two.
pub fn args(raw: &Vec<String>) -> (r: Vec<String>)
    ensures
        strings(r@) == split_all(strings(raw@), raw@.len() as int),
{
    let ghost all = strings(raw@);
    let mut r: Vec<String> = Vec::new();
    let mut i: usize = 0;
    assert(strings(r@) =~= seq![]);
    while i < raw.len()
        invariant
            i <= raw@.len(),
            all == strings(raw@),
            strings(r@) == split_all(all, i as int),
        decreases raw@.len() - i,
    {
        let arg = chars_of(raw[i].as_str());
        assert(all[i as int] == arg@);
        let ghost before = r@;
        let k = find_char(arg.as_slice(), '=', 0);
        if starts_with(arg.as_slice(), "--") && k < arg.len() {
            let key = text_of(cut(arg.as_slice(), 0, k).as_slice());
            let value = text_of(cut(arg.as_slice(), k + 1, arg.len()).as_slice());
            assert(key@ =~= arg@.take(k as int));
            assert(value@ =~= arg@.skip(k + 1));
            r.push(key);
            r.push(value);
            assert(strings(r@) =~= strings(before) + split(arg@));
        } else {
            r.push(text_of(arg.as_slice()));
            assert(strings(r@) =~= strings(before) + split(arg@));
        }
        i += 1;
    }
    r
}

/// Arguments of which the first ones have been read.
pub struct Args {
    items: Vec<String>,
    next: usize,
}

impl View for Args {
    type V = Seq<Seq<char>>;

    /// The arguments that have not been read.
    closed spec fn view(&self) -> Seq<Seq<char>> {
        strings(self.items@).skip(self.next as int)
    }
}

/// A copy of a text.
fn copy(s: &String) -> (r: String)
    ensures
        r@ == s@,
{
    s.as_str().to_owned()
}

impl Args {
    /// Whether the arguments are in a state that they can be in.
    pub closed spec fn wf(&self) -> bool {
        self.next <= self.items@.len()
    }

    /// Arguments of which none has been read.
    pub fn new(items: Vec<String>) -> (r: Args)
        ensures
            r.wf(),
            r@ == strings(items@),
    {
        let r = Args { items, next: 0 };
        assert(r@ =~= strings(items@));
        r
    }

    /// Reads an argument.
    pub fn next_arg(&mut self) -> (r: Option<String>)
        requires
            old(self).wf(),
        ensures
            final(self).wf(),
            match r {
                Some(s) => old(self)@.len() > 0 && s@ == old(self)@[0] && final(self)@ == old(
                    self,
                )@.skip(1),
                None => old(self)@.len() == 0 && final(self)@ == old(self)@,
            },
    {
        if self.next < self.items.len() {
            let s = copy(&self.items[self.next]);
            assert(self@.len() > 0);
            assert(s@ == self@[0]);
            self.next = self.next + 1;
            assert(self@ =~= old(self)@.skip(1));
            Some(s)
        } else {
            assert(self@.len() == 0);
            None
        }
    }

    /// Whether the next argument is `word`.
    fn is_next(&self, word: &str) -> (r: bool)
        requires
            self.wf(),
        ensures
            r == (self@.len() > 0 && self@[0] == word@),
    {
        if self.next < self.items.len() {
            assert(self@.len() > 0);
            assert(self@[0] == self.items@[self.next as int]@);
            is_word(chars_of(self.items[self.next].as_str()).as_slice(), word)
        } else {
            assert(self@.len() == 0);
            false
        }
    }
}

/// Whether a switch is on, by the arguments behind it.
pub open spec fn switched(args: Seq<Seq<char>>) -> bool {
    !(args.len() > 0 && args[0] == "false"@)
}

/// The arguments behind a switch and its value.
pub open spec fn behind_switch(args: Seq<Seq<char>>) -> Seq<Seq<char>> {
    if args.len() > 0 && (args[0] == "true"@ || args[0] == "false"@) {
        args.skip(1)
    } else {
        args
    }
}

/// Reads the value of a switch. Without one, the switch is on.
pub fn flag(args: &mut Args) -> (r: bool)
    requires
        old(args).wf(),
    ensures
        final(args).wf(),
        r == switched(old(args)@),
        final(args)@ == behind_switch(old(args)@),
{
    if args.is_next("true") {
        proof {
            reveal_strlit("true");
            reveal_strlit("false");
            assert("true"@.len() != "false"@.len());
        }
        args.next_arg();
        true
    } else if args.is_next("false") {
        args.next_arg();
        false
    } else {
        true
    }
}

/// What the program is asked to do.
#[derive(Clone, Copy, Debug, PartialEq, Eq, Structural)]
pub enum Tool {
    /// To say what it can do.
    Overview,
    Pgn2wf,
    Interleave,
    Analyse,
}

/// The tool that a name stands for.
pub open spec fn tool_of(name: Option<Seq<char>>) -> Option<Tool> {
    match name {
        None => Some(Tool::Overview),
        Some(s) => if s == "pgn2wf"@ {
            Some(Tool::Pgn2wf)
        } else if s == "interleave"@ {
            Some(Tool::Interleave)
        } else if s == "analyse"@ {
            Some(Tool::Analyse)
        } else if s == "--help"@ || s == "-h"@ {
            Some(Tool::Overview)
        } else {
            None
        },
    }
}

/// The item at the front, if there is one.
pub open spec fn front(args: Seq<Seq<char>>) -> Option<Seq<char>> {
    if args.len() > 0 {
        Some(args[0])
    } else {
        None
    }
}

/// What is behind the item at the front.
pub open spec fn tail(args: Seq<Seq<char>>) -> Seq<Seq<char>> {
    if args.len() > 0 {
        args.skip(1)
    } else {
        args
    }
}

/// The tool that arguments ask for, and its own arguments. Without any, or behind `help`, they are
/// a request for help.
pub open spec fn invocation(args: Seq<Seq<char>>) -> Result<(Tool, Seq<Seq<char>>), Seq<char>> {
    let help = front(args) == Some("help"@);
    let behind = if help {
        tail(args)
    } else {
        args
    };
    let own = tail(behind);
    if help && own.len() > 0 {
        Err("usage: wakformat help [COMMAND]"@)
    } else {
        match tool_of(front(behind)) {
            Some(tool) => Ok(
                (
                    tool,
                    if help || own.len() == 0 {
                        own.push("--help"@)
                    } else {
                        own
                    },
                ),
            ),
            None => Err("unknown command "@ + front(behind)->0 + "; use --help"@),
        }
    }
}

/// Whether `s` is `word`.
fn same(s: &String, word: &str) -> (r: bool)
    ensures
        r == (s@ == word@),
{
    is_word(chars_of(s.as_str()).as_slice(), word)
}

/// The tool that arguments ask for, and its own arguments.
pub fn invoke(items: Vec<String>) -> (r: Result<(Tool, Vec<String>), String>)
    ensures
        match (r, invocation(strings(items@))) {
            (Ok((a, v)), Ok((b, w))) => a == b && strings(v@) == w,
            (Err(m), Err(n)) => m@ == n,
            _ => false,
        },
{
    let mut args = Args::new(items);
    let mut command = args.next_arg();
    let help = match &command {
        Some(s) => same(s, "help"),
        None => false,
    };
    if help {
        command = args.next_arg();
    }
    let mut own: Vec<String> = Vec::new();
    let ghost all = args@;
    assert(strings(own@) + args@ =~= all);
    loop
        invariant
            args.wf(),
            strings(own@) + args@ == all,
        ensures
            strings(own@) == all,
        decreases args@.len(),
    {
        let ghost before = args@;
        let ghost done = own@;
        match args.next_arg() {
            Some(s) => {
                own.push(s);
                assert(strings(own@) =~= strings(done).push(s@));
                assert(strings(own@) + args@ =~= strings(done) + before);
            },
            None => {
                assert(strings(own@) =~= all);
                break ;
            },
        }
    }
    assert(own@.len() == all.len());
    if help && own.len() > 0 {
        return Err("usage: wakformat help [COMMAND]".to_owned());
    }
    if help || own.len() == 0 {
        let ghost done = own@;
        let s = "--help".to_owned();
        own.push(s);
        assert(strings(own@) =~= strings(done).push("--help"@));
    }
    let tool = match &command {
        None => Tool::Overview,
        Some(s) => if same(s, "pgn2wf") {
            Tool::Pgn2wf
        } else if same(s, "interleave") {
            Tool::Interleave
        } else if same(s, "analyse") {
            Tool::Analyse
        } else if same(s, "--help") || same(s, "-h") {
            Tool::Overview
        } else {
            let mut m = "unknown command ".to_owned();
            m.append(s.as_str());
            m.append("; use --help");
            return Err(m);
        },
    };
    Ok((tool, own))
}

/// Whether an argument asks for help.
pub open spec fn asks_help(arg: Seq<char>) -> bool {
    arg == "--help"@ || arg == "-h"@ || arg == "help"@
}

/// Whether an argument begins with a dash.
pub open spec fn dashed(arg: Seq<char>) -> bool {
    arg.len() > 0 && arg[0] == '-'
}

/// Whether `arg` asks for help.
fn is_help(arg: &String) -> (r: bool)
    ensures
        r == asks_help(arg@),
{
    same(arg, "--help") || same(arg, "-h") || same(arg, "help")
}

/// Whether `arg` begins with a dash.
fn is_dashed(arg: &String) -> (r: bool)
    ensures
        r == dashed(arg@),
{
    let v = chars_of(arg.as_str());
    v.len() > 0 && v[0] == '-'
}

/// The message for an argument that is not known.
fn unknown(arg: &String) -> (m: String)
    ensures
        m@ == "unknown argument "@ + arg@,
{
    let mut m = "unknown argument ".to_owned();
    m.append(arg.as_str());
    m
}

/// What the analysis is asked to do.
#[derive(Clone, Debug, PartialEq, Eq)]
pub struct AnalyseArgs {
    pub input: Option<String>,
    pub output: String,
    pub overwrite: bool,
    pub approximate: bool,
    pub verbose: bool,
}

/// The model of `AnalyseArgs`.
#[verifier::ext_equal]
pub struct AnalyseChoice {
    pub input: Option<Seq<char>>,
    pub output: Seq<char>,
    pub overwrite: bool,
    pub approximate: bool,
    pub verbose: bool,
}

/// The text that may be there.
pub open spec fn some_text(s: Option<String>) -> Option<Seq<char>> {
    match s {
        Some(s) => Some(s@),
        None => None,
    }
}

impl View for AnalyseArgs {
    type V = AnalyseChoice;

    open spec fn view(&self) -> AnalyseChoice {
        AnalyseChoice {
            input: some_text(self.input),
            output: self.output@,
            overwrite: self.overwrite,
            approximate: self.approximate,
            verbose: self.verbose,
        }
    }
}

/// What the analysis is asked to do by `args`, after the choice `o`: `None` if it is asked for
/// help.
pub open spec fn analyse_choice(args: Seq<Seq<char>>, o: AnalyseChoice) -> Result<
    Option<AnalyseChoice>,
    Seq<char>,
>
    decreases args.len(),
{
    if args.len() == 0 {
        if o.input is None {
            Err("missing input; usage: wakformat analyse <INPUT> [OPTIONS]"@)
        } else {
            Ok(Some(o))
        }
    } else {
        let arg = args[0];
        let rest = args.skip(1);
        if arg == "--input"@ || arg == "-i"@ {
            if rest.len() == 0 {
                Err("missing input"@)
            } else {
                analyse_choice(rest.skip(1), AnalyseChoice { input: Some(rest[0]), ..o })
            }
        } else if arg == "--output"@ || arg == "-o"@ {
            if rest.len() == 0 {
                Err("missing output"@)
            } else {
                analyse_choice(rest.skip(1), AnalyseChoice { output: rest[0], ..o })
            }
        } else if arg == "--allow-overwrite"@ {
            analyse_choice(
                behind_switch(rest),
                AnalyseChoice { overwrite: switched(rest), ..o },
            )
        } else if arg == "--approximate"@ {
            analyse_choice(
                behind_switch(rest),
                AnalyseChoice { approximate: switched(rest), ..o },
            )
        } else if arg == "--verbose"@ || arg == "-v"@ {
            analyse_choice(behind_switch(rest), AnalyseChoice { verbose: switched(rest), ..o })
        } else if asks_help(arg) {
            Ok(None)
        } else if !dashed(arg) && o.input is None {
            analyse_choice(rest, AnalyseChoice { input: Some(arg), ..o })
        } else {
            Err("unknown argument "@ + arg)
        }
    }
}

/// What the analysis does unless it is asked otherwise.
pub open spec fn analyse_default() -> AnalyseChoice {
    AnalyseChoice {
        input: None,
        output: "score_distribution.txt"@,
        overwrite: false,
        approximate: false,
        verbose: false,
    }
}

/// Reads the arguments of the analysis: `None` if it is asked for help.
pub fn analyse_args(items: Vec<String>) -> (r: Result<Option<AnalyseArgs>, String>)
    ensures
        match (r, analyse_choice(strings(items@), analyse_default())) {
            (Ok(Some(a)), Ok(Some(b))) => a@ == b && a.input is Some,
            (Ok(None), Ok(None)) => true,
            (Err(m), Err(n)) => m@ == n,
            _ => false,
        },
{
    let mut args = Args::new(items);
    let mut o = AnalyseArgs {
        input: None,
        output: "score_distribution.txt".to_owned(),
        overwrite: false,
        approximate: false,
        verbose: false,
    };
    assert(o@ =~= analyse_default());
    let ghost whole = analyse_choice(strings(items@), analyse_default());
    loop
        invariant
            args.wf(),
            whole == analyse_choice(args@, o@),
            whole == analyse_choice(strings(items@), analyse_default()),
        decreases args@.len(),
    {
        let arg = match args.next_arg() {
            Some(arg) => arg,
            None => {
                return if o.input.is_none() {
                    Err("missing input; usage: wakformat analyse <INPUT> [OPTIONS]".to_owned())
                } else {
                    Ok(Some(o))
                };
            },
        };
        if same(&arg, "--input") || same(&arg, "-i") {
            match args.next_arg() {
                Some(s) => {
                    o.input = Some(s);
                },
                None => {
                    return Err("missing input".to_owned());
                },
            }
        } else if same(&arg, "--output") || same(&arg, "-o") {
            match args.next_arg() {
                Some(s) => {
                    o.output = s;
                },
                None => {
                    return Err("missing output".to_owned());
                },
            }
        } else if same(&arg, "--allow-overwrite") {
            o.overwrite = flag(&mut args);
        } else if same(&arg, "--approximate") {
            o.approximate = flag(&mut args);
        } else if same(&arg, "--verbose") || same(&arg, "-v") {
            o.verbose = flag(&mut args);
        } else if is_help(&arg) {
            return Ok(None);
        } else if !is_dashed(&arg) && o.input.is_none() {
            o.input = Some(arg);
        } else {
            return Err(unknown(&arg));
        }
    }
}

/// What interleaving is asked to do.
#[derive(Clone, Debug, PartialEq, Eq)]
pub struct InterleaveArgs {
    pub inputs: Vec<String>,
    pub output: Option<String>,
    pub overwrite: bool,
}

/// The model of `InterleaveArgs`.
#[verifier::ext_equal]
pub struct InterleaveChoice {
    pub inputs: Seq<Seq<char>>,
    pub output: Option<Seq<char>>,
    pub overwrite: bool,
}

impl View for InterleaveArgs {
    type V = InterleaveChoice;

    open spec fn view(&self) -> InterleaveChoice {
        InterleaveChoice {
            inputs: strings(self.inputs@),
            output: some_text(self.output),
            overwrite: self.overwrite,
        }
    }
}

/// What interleaving is asked to do by `args`, after the choice `o`: `None` if it is asked for
/// help.
pub open spec fn interleave_choice(args: Seq<Seq<char>>, o: InterleaveChoice) -> Result<
    Option<InterleaveChoice>,
    Seq<char>,
>
    decreases args.len(),
{
    if args.len() == 0 {
        if o.inputs.len() == 0 {
            Err("missing input; usage: wakformat interleave <INPUT> [MORE INPUTS ...] [OPTIONS]"@)
        } else {
            Ok(Some(o))
        }
    } else {
        let arg = args[0];
        let rest = args.skip(1);
        if arg == "--input"@ || arg == "-i"@ {
            if rest.len() == 0 {
                Err("missing input"@)
            } else {
                interleave_choice(
                    rest.skip(1),
                    InterleaveChoice { inputs: o.inputs.push(rest[0]), ..o },
                )
            }
        } else if arg == "--output"@ || arg == "-o"@ {
            if rest.len() == 0 {
                Err("missing output"@)
            } else {
                interleave_choice(rest.skip(1), InterleaveChoice { output: Some(rest[0]), ..o })
            }
        } else if arg == "--allow-overwrite"@ {
            interleave_choice(
                behind_switch(rest),
                InterleaveChoice { overwrite: switched(rest), ..o },
            )
        } else if asks_help(arg) {
            Ok(None)
        } else if !dashed(arg) {
            interleave_choice(rest, InterleaveChoice { inputs: o.inputs.push(arg), ..o })
        } else {
            Err("unknown argument "@ + arg)
        }
    }
}

/// What interleaving does unless it is asked otherwise.
pub open spec fn interleave_default() -> InterleaveChoice {
    InterleaveChoice { inputs: seq![], output: None, overwrite: false }
}

/// Reads the arguments of interleaving: `None` if it is asked for help.
pub fn interleave_args(items: Vec<String>) -> (r: Result<Option<InterleaveArgs>, String>)
    ensures
        match (r, interleave_choice(strings(items@), interleave_default())) {
            (Ok(Some(a)), Ok(Some(b))) => a@ == b && a.inputs@.len() > 0,
            (Ok(None), Ok(None)) => true,
            (Err(m), Err(n)) => m@ == n,
            _ => false,
        },
{
    let mut args = Args::new(items);
    let mut o = InterleaveArgs { inputs: Vec::new(), output: None, overwrite: false };
    assert(o@ =~~= interleave_default());
    let ghost whole = interleave_choice(strings(items@), interleave_default());
    loop
        invariant
            args.wf(),
            whole == interleave_choice(args@, o@),
            whole == interleave_choice(strings(items@), interleave_default()),
        decreases args@.len(),
    {
        let ghost before = o.inputs@;
        let arg = match args.next_arg() {
            Some(arg) => arg,
            None => {
                assert(o.inputs@.len() == strings(o.inputs@).len());
                return if o.inputs.len() == 0 {
                    Err(
                        "missing input; usage: wakformat interleave <INPUT> [MORE INPUTS ...] [OPTIONS]".to_owned(),
                    )
                } else {
                    Ok(Some(o))
                };
            },
        };
        if same(&arg, "--input") || same(&arg, "-i") {
            match args.next_arg() {
                Some(s) => {
                    o.inputs.push(s);
                    assert(strings(o.inputs@) =~= strings(before).push(s@));
                },
                None => {
                    return Err("missing input".to_owned());
                },
            }
        } else if same(&arg, "--output") || same(&arg, "-o") {
            match args.next_arg() {
                Some(s) => {
                    o.output = Some(s);
                },
                None => {
                    return Err("missing output".to_owned());
                },
            }
        } else if same(&arg, "--allow-overwrite") {
            o.overwrite = flag(&mut args);
        } else if is_help(&arg) {
            return Ok(None);
        } else if !is_dashed(&arg) {
            o.inputs.push(arg);
            assert(strings(o.inputs@) =~= strings(before).push(arg@));
        } else {
            return Err(unknown(&arg));
        }
    }
}

/// The number that `s` writes: digits, with a plus sign before them or not.
pub open spec fn unsigned(s: Seq<char>, limit: nat) -> Option<int> {
    let digits = if s.len() > 0 && s[0] == '+' {
        s.skip(1)
    } else {
        s
    };
    match text::number(digits, limit) {
        Some(n) => Some(n as int),
        None => None,
    }
}

/// The number between -32768 and 32767 that `s` writes: digits, with a sign before them or not.
pub open spec fn signed(s: Seq<char>) -> Option<int> {
    if s.len() > 0 && s[0] == '-' {
        match text::number(s.skip(1), 32768) {
            Some(n) => Some(-n),
            None => None,
        }
    } else {
        unsigned(s, 32767)
    }
}

/// What is said of a text that is no `usize`, where `limit` is the highest one.
pub uninterp spec fn usize_message(s: Seq<char>, limit: nat) -> Seq<char>;

/// `<usize as FromStr>::from_str`: reads digits with a plus sign before them or not. What the error
/// displays depends on the text and on the highest `usize` alone and is not stated further.
#[verifier::external_body]
fn parse_usize(s: &str) -> (r: Result<usize, String>)
    ensures
        match r {
            Ok(n) => unsigned(s@, usize::MAX as nat) == Some(n as int),
            Err(m) => unsigned(s@, usize::MAX as nat) is None && m@ == usize_message(
                s@,
                usize::MAX as nat,
            ),
        },
{
    match s.parse::<usize>() {
        Ok(n) => Ok(n),
        Err(e) => Err(e.to_string()),
    }
}

/// What is said of a text that is no `i16`.
pub uninterp spec fn i16_message(s: Seq<char>) -> Seq<char>;

/// `<i16 as FromStr>::from_str`: reads digits with a sign before them or not. What the error
/// displays depends on the text alone and is not stated further.
#[verifier::external_body]
fn parse_i16(s: &str) -> (r: Result<i16, String>)
    ensures
        match r {
            Ok(n) => signed(s@) == Some(n as int),
            Err(m) => signed(s@) is None && m@ == i16_message(s@),
        },
{
    match s.parse::<i16>() {
        Ok(n) => Ok(n),
        Err(e) => Err(e.to_string()),
    }
}

/// `c` in lower case, if it is an ASCII letter.
pub open spec fn lower(c: char) -> char {
    if 'A' <= c <= 'Z' {
        (c as u32 + 32) as char
    } else {
        c
    }
}

/// `s` with ASCII letters in lower case.
pub open spec fn lowered(s: Seq<char>) -> Seq<char> {
    s.map_values(|c: char| lower(c))
}

/// `s` with ASCII letters in lower case.
fn to_lower(s: &[char]) -> (r: Vec<char>)
    ensures
        r@ == lowered(s@),
{
    let mut r: Vec<char> = Vec::new();
    let mut i: usize = 0;
    while i < s.len()
        invariant
            i <= s@.len(),
            r@ == lowered(s@).take(i as int),
        decreases s@.len() - i,
    {
        let c = s[i];
        let l = if 'A' <= c && c <= 'Z' {
            (c as u8 + 32) as char
        } else {
            c
        };
        assert(l == lower(c));
        r.push(l);
        i += 1;
        assert(lowered(s@).take(i as int) =~= lowered(s@).take(i - 1).push(l));
    }
    assert(lowered(s@).take(i as int) =~= lowered(s@));
    r
}

/// What `s` says about missing scores, or what is wrong.
pub open spec fn fill_of(s: Seq<char>) -> Result<Fill, Seq<char>> {
    if lowered(s) == "prev"@ {
        Ok(Fill::Prev)
    } else if lowered(s) == "next"@ {
        Ok(Fill::Next)
    } else {
        match signed(s) {
            Some(n) => Ok(Fill::Value(n as i16)),
            None => Err(i16_message(s)),
        }
    }
}

/// Reads what is done about missing scores: `prev`, `next` or a score.
pub fn read_fill(s: &str) -> (r: Result<Fill, String>)
    ensures
        match (r, fill_of(s@)) {
            (Ok(a), Ok(b)) => a == b,
            (Err(m), Err(n)) => m@ == n,
            _ => false,
        },
{
    let l = to_lower(chars_of(s).as_slice());
    if is_word(l.as_slice(), "prev") {
        Ok(Fill::Prev)
    } else if is_word(l.as_slice(), "next") {
        Ok(Fill::Next)
    } else {
        match parse_i16(s) {
            Ok(n) => Ok(Fill::Value(n)),
            Err(m) => Err(m),
        }
    }
}

/// What the conversion is asked to do.
#[derive(Clone, Debug, PartialEq, Eq)]
pub struct Pgn2wfArgs {
    pub input: Option<String>,
    pub output: Option<String>,
    pub overwrite: bool,
    /// Whether a file may have any extension.
    pub allow_extension: bool,
    pub threads: usize,
    pub options: Options,
}

/// The model of `Pgn2wfArgs`.
#[verifier::ext_equal]
pub struct Pgn2wfChoice {
    pub input: Option<Seq<char>>,
    pub output: Option<Seq<char>>,
    pub overwrite: bool,
    pub allow_extension: bool,
    pub threads: int,
    pub options: Options,
}

impl View for Pgn2wfArgs {
    type V = Pgn2wfChoice;

    open spec fn view(&self) -> Pgn2wfChoice {
        Pgn2wfChoice {
            input: some_text(self.input),
            output: some_text(self.output),
            overwrite: self.overwrite,
            allow_extension: self.allow_extension,
            threads: self.threads as int,
            options: self.options,
        }
    }
}

/// What the conversion is asked to do by `args`, after the choice `o`: `None` if it is asked for
/// help.
pub open spec fn pgn2wf_choice(args: Seq<Seq<char>>, o: Pgn2wfChoice) -> Result<
    Option<Pgn2wfChoice>,
    Seq<char>,
>
    decreases args.len(),
{
    if args.len() == 0 {
        if o.input is None {
            Err("missing input; usage: wakformat pgn2wf <INPUT> [OPTIONS]"@)
        } else {
            Ok(Some(o))
        }
    } else {
        let arg = args[0];
        let rest = args.skip(1);
        if arg == "--input"@ || arg == "-i"@ {
            if rest.len() == 0 {
                Err("missing input"@)
            } else {
                pgn2wf_choice(rest.skip(1), Pgn2wfChoice { input: Some(rest[0]), ..o })
            }
        } else if arg == "--output"@ || arg == "-o"@ {
            if rest.len() == 0 {
                Err("missing output"@)
            } else {
                pgn2wf_choice(rest.skip(1), Pgn2wfChoice { output: Some(rest[0]), ..o })
            }
        } else if arg == "--threads"@ {
            if rest.len() == 0 {
                Err("missing thread count"@)
            } else {
                match unsigned(rest[0], usize::MAX as nat) {
                    Some(threads) => pgn2wf_choice(rest.skip(1), Pgn2wfChoice { threads, ..o }),
                    None => Err(usize_message(rest[0], usize::MAX as nat)),
                }
            }
        } else if arg == "--skip-broken-games"@ {
            pgn2wf_choice(
                behind_switch(rest),
                Pgn2wfChoice {
                    options: Options { skip_broken: switched(rest), ..o.options },
                    ..o
                },
            )
        } else if arg == "--allow-non-pgn-extension"@ {
            pgn2wf_choice(
                behind_switch(rest),
                Pgn2wfChoice { allow_extension: switched(rest), ..o },
            )
        } else if arg == "--allow-overwrite"@ {
            pgn2wf_choice(behind_switch(rest), Pgn2wfChoice { overwrite: switched(rest), ..o })
        } else if arg == "--fill-missing-evals"@ {
            if rest.len() == 0 {
                Err("missing fill value"@)
            } else {
                match fill_of(rest[0]) {
                    Ok(fill) => pgn2wf_choice(
                        rest.skip(1),
                        Pgn2wfChoice { options: Options { fill, ..o.options }, ..o },
                    ),
                    Err(m) => Err(m),
                }
            }
        } else if asks_help(arg) {
            Ok(None)
        } else if !dashed(arg) && o.input is None {
            pgn2wf_choice(rest, Pgn2wfChoice { input: Some(arg), ..o })
        } else {
            Err("unknown argument "@ + arg)
        }
    }
}

/// What the conversion does unless it is asked otherwise.
pub open spec fn pgn2wf_default(threads: int) -> Pgn2wfChoice {
    Pgn2wfChoice {
        input: None,
        output: None,
        overwrite: false,
        allow_extension: false,
        threads,
        options: Options { fill: Fill::Nothing, skip_broken: false },
    }
}

/// Reads the arguments of the conversion, which uses `threads` threads unless it is asked
/// otherwise: `None` if it is asked for help.
pub fn pgn2wf_args(items: Vec<String>, threads: usize) -> (r: Result<Option<Pgn2wfArgs>, String>)
    ensures
        match (r, pgn2wf_choice(strings(items@), pgn2wf_default(threads as int))) {
            (Ok(Some(a)), Ok(Some(b))) => a@ == b && a.input is Some,
            (Ok(None), Ok(None)) => true,
            (Err(m), Err(n)) => m@ == n,
            _ => false,
        },
{
    let mut args = Args::new(items);
    let mut o = Pgn2wfArgs {
        input: None,
        output: None,
        overwrite: false,
        allow_extension: false,
        threads,
        options: Options { fill: Fill::Nothing, skip_broken: false },
    };
    assert(o@ =~= pgn2wf_default(threads as int));
    let ghost whole = pgn2wf_choice(strings(items@), pgn2wf_default(threads as int));
    loop
        invariant
            args.wf(),
            whole == pgn2wf_choice(args@, o@),
            whole == pgn2wf_choice(strings(items@), pgn2wf_default(threads as int)),
        decreases args@.len(),
    {
        let arg = match args.next_arg() {
            Some(arg) => arg,
            None => {
                return if o.input.is_none() {
                    Err("missing input; usage: wakformat pgn2wf <INPUT> [OPTIONS]".to_owned())
                } else {
                    Ok(Some(o))
                };
            },
        };
        if same(&arg, "--input") || same(&arg, "-i") {
            match args.next_arg() {
                Some(s) => {
                    o.input = Some(s);
                },
                None => {
                    return Err("missing input".to_owned());
                },
            }
        } else if same(&arg, "--output") || same(&arg, "-o") {
            match args.next_arg() {
                Some(s) => {
                    o.output = Some(s);
                },
                None => {
                    return Err("missing output".to_owned());
                },
            }
        } else if same(&arg, "--threads") {
            match args.next_arg() {
                Some(s) => match parse_usize(s.as_str()) {
                    Ok(n) => {
                        o.threads = n;
                    },
                    Err(m) => {
                        return Err(m);
                    },
                },
                None => {
                    return Err("missing thread count".to_owned());
                },
            }
        } else if same(&arg, "--skip-broken-games") {
            o.options.skip_broken = flag(&mut args);
        } else if same(&arg, "--allow-non-pgn-extension") {
            o.allow_extension = flag(&mut args);
        } else if same(&arg, "--allow-overwrite") {
            o.overwrite = flag(&mut args);
        } else if same(&arg, "--fill-missing-evals") {
            match args.next_arg() {
                Some(s) => match read_fill(s.as_str()) {
                    Ok(fill) => {
                        o.options.fill = fill;
                    },
                    Err(m) => {
                        return Err(m);
                    },
                },
                None => {
                    return Err("missing fill value".to_owned());
                },
            }
        } else if is_help(&arg) {
            return Ok(None);
        } else if !is_dashed(&arg) && o.input.is_none() {
            o.input = Some(arg);
        } else {
            return Err(unknown(&arg));
        }
    }
}

/// Checks how many threads are asked for.
pub fn check_threads(threads: usize) -> (r: Result<(), String>)
    ensures
        match r {
            Ok(()) => 0 < threads <= 1024,
            Err(m) => !(0 < threads <= 1024) && m@ == "invalid thread count"@,
        },
{
    if threads == 0 || threads > 1024 {
        Err("invalid thread count".to_owned())
    } else {
        Ok(())
    }
}

/// The stem and the extension of a file name. A dot at the beginning makes no extension.
pub open spec fn extension_of(name: Seq<char>) -> Option<(Seq<char>, Seq<char>)> {
    match text::last_of(name, '.') {
        Some(i) => if i > 0 {
            Some((name.take(i), name.skip(i + 1)))
        } else {
            None
        },
        None => None,
    }
}

/// Whether a file name has an extension, in whichever case.
pub open spec fn extends(name: Seq<char>, extension: Seq<char>) -> bool {
    extension_of(name) matches Some((_, e)) && lowered(e) == lowered(extension)
}

/// Whether a file name is that of a PGN file, compressed or not.
pub open spec fn names_pgn(name: Seq<char>) -> bool {
    ||| extends(name, "pgn"@)
    ||| extends(name, "bz2"@) && (extension_of(name) matches Some((stem, _)) && extends(
        stem,
        "pgn"@,
    ))
}

/// The stem and the extension of a file name.
fn split_name(s: &[char]) -> (r: Option<(Vec<char>, Vec<char>)>)
    ensures
        match (r, extension_of(s@)) {
            (Some((a, b)), Some((c, d))) => a@ == c && b@ == d,
            (None, None) => true,
            _ => false,
        },
{
    match find_last(s, '.') {
        Some(i) => if i > 0 {
            let n = s.len();
            let stem = cut(s, 0, i);
            let extension = cut(s, i + 1, n);
            assert(stem@ =~= s@.take(i as int));
            assert(extension@ =~= s@.skip(i + 1));
            Some((stem, extension))
        } else {
            None
        },
        None => None,
    }
}

/// Whether the characters of a file name have an extension.
fn name_extends(name: &[char], extension: &str) -> (r: bool)
    ensures
        r == extends(name@, extension@),
{
    match split_name(name) {
        Some((_, e)) => {
            let a = to_lower(e.as_slice());
            let b = to_lower(chars_of(extension).as_slice());
            is_word(a.as_slice(), text_of(b.as_slice()).as_str())
        },
        None => false,
    }
}

/// Whether a file name has an extension, in whichever case.
pub fn has_extension(name: &str, extension: &str) -> (r: bool)
    ensures
        r == extends(name@, extension@),
{
    name_extends(chars_of(name).as_slice(), extension)
}

/// Whether a file name is that of a PGN file, compressed or not.
pub fn is_pgn(name: &str) -> (r: bool)
    ensures
        r == names_pgn(name@),
{
    let s = chars_of(name);
    if name_extends(s.as_slice(), "pgn") {
        return true;
    }
    if !name_extends(s.as_slice(), "bz2") {
        return false;
    }
    match split_name(s.as_slice()) {
        Some((stem, _)) => name_extends(stem.as_slice(), "pgn"),
        None => false,
    }
}

/// How a file holds games.
#[derive(Clone, Copy, Debug, PartialEq, Eq, Structural)]
pub enum Source {
    /// As PGN.
    Plain,
    /// As compressed PGN.
    Bzip2,
    /// As an archive of PGN files, compressed or not.
    Tar,
}

/// How a file holds games, by its name.
pub open spec fn source_kind(name: Seq<char>) -> Source {
    if extends(name, "tar"@) {
        Source::Tar
    } else if extends(name, "bz2"@) {
        Source::Bzip2
    } else {
        Source::Plain
    }
}

/// How a file holds games, by its name.
pub fn source_of(name: &str) -> (r: Source)
    ensures
        r == source_kind(name@),
{
    if has_extension(name, "tar") {
        Source::Tar
    } else if has_extension(name, "bz2") {
        Source::Bzip2
    } else {
        Source::Plain
    }
}

/// Checks the name of a single file that is to be converted.
pub fn check_input(name: &str, allow_extension: bool) -> (r: Result<(), String>)
    ensures
        ({
            let fits = allow_extension || names_pgn(name@) || source_kind(name@) == Source::Tar;
            match r {
                Ok(()) => fits,
                Err(m) => !fits && m@
                    == "input must end in .pgn, .pgn.bz2, or .tar (or use --allow-non-pgn-extension)"@,
            }
        }),
{
    if allow_extension || is_pgn(name) || has_extension(name, "tar") {
        Ok(())
    } else {
        Err(
            "input must end in .pgn, .pgn.bz2, or .tar (or use --allow-non-pgn-extension)".to_owned(),
        )
    }
}

/// Checks the name of a file with stored games.
pub fn check_wf(name: &str) -> (r: Result<(), String>)
    ensures
        match r {
            Ok(()) => extends(name@, "wf"@),
            Err(m) => !extends(name@, "wf"@) && m@ == "input must end in .wf"@,
        },
{
    if has_extension(name, "wf") {
        Ok(())
    } else {
        Err("input must end in .wf".to_owned())
    }
}

/// Where the games of the single file `input` go: to `output` if it is given, else beside the file.
pub fn single_output(input: &str, output: Option<String>) -> (r: String)
    ensures
        r@ == match output {
            Some(o) => o@,
            None => input@ + ".wf"@,
        },
{
    match output {
        Some(o) => o,
        None => {
            let mut s = input.to_owned();
            s.append(".wf");
            s
        },
    }
}

/// Where the games of a folder go: to `output` if it is given, else to one file. The flag says
/// whether that file is in the folder.
pub fn folder_output(output: Option<String>) -> (r: (String, bool))
    ensures
        match output {
            Some(o) => r.0@ == o@ && !r.1,
            None => r.0@ == "combined.wf"@ && r.1,
        },
{
    match output {
        Some(o) => (o, false),
        None => ("combined.wf".to_owned(), true),
    }
}

/// The name for the mixed games of the file `name`: its stem with another extension.
pub open spec fn interleaved_name(name: Seq<char>) -> Seq<char> {
    match extension_of(name) {
        Some((stem, _)) => stem + ".interleaved.wf"@,
        None => name + ".interleaved.wf"@,
    }
}

/// Where the mixed games of `inputs` files go, the first of them with the file name `name`: to
/// `output` if it is given, else to a name of their own. The flag says whether that name stands for
/// a file beside the only input.
pub fn interleaved_output(inputs: usize, name: &str, output: Option<String>) -> (r: (String, bool))
    ensures
        match output {
            Some(o) => r.0@ == o@ && !r.1,
            None => if inputs == 1 {
                r.0@ == interleaved_name(name@) && r.1
            } else {
                r.0@ == "interleaved.wf"@ && !r.1
            },
        },
{
    match output {
        Some(o) => (o, false),
        None => {
            if inputs != 1 {
                return ("interleaved.wf".to_owned(), false);
            }
            let chars = chars_of(name);
            let mut s = match split_name(chars.as_slice()) {
                Some((stem, _)) => text_of(stem.as_slice()),
                None => text_of(chars.as_slice()),
            };
            s.append(".interleaved.wf");
            (s, true)
        },
    }
}

} // verus!
