//! The commands of the UCI protocol, as far as they are text.

use crate::search::data::Report;
use crate::search::time::{Nodes, TimeSettings};
use crate::types::sides::Side;
use crate::types::text::{
    chars_of, cut, lower, lower_chars, numeral, push_decimal, read_number, same_text, split_once,
    stands_at, trim, trimmed, words, words_of,
};
use vstd::prelude::*;

verus! {

/// What a line asks for.
#[derive(Debug, Clone, Copy, PartialEq, Eq, Structural)]
pub enum Command {
    Position,
    Uci,
    IsReady,
    SetOption,
    NewGame,
    Go,
    Quit,
    Perft,
    Display,
    Bench,
    Genfens,
    Unknown,
}

/// The command with a name.
pub open spec fn command_named(name: Seq<char>) -> Command {
    if name == "position"@ {
        Command::Position
    } else if name == "uci"@ {
        Command::Uci
    } else if name == "isready"@ {
        Command::IsReady
    } else if name == "setoption"@ {
        Command::SetOption
    } else if name == "ucinewgame"@ {
        Command::NewGame
    } else if name == "go"@ {
        Command::Go
    } else if name == "quit"@ {
        Command::Quit
    } else if name == "perft"@ {
        Command::Perft
    } else if name == "d"@ {
        Command::Display
    } else if name == "bench"@ {
        Command::Bench
    } else if name == "genfens"@ {
        Command::Genfens
    } else {
        Command::Unknown
    }
}

/// The line gives a command, with a text after it.
pub open spec fn commanded(line: Seq<char>, command: Command, args: Seq<char>) -> bool {
    exists|name: Seq<char>| #[trigger]
        cut(line, " "@, name, args) && command == command_named(trimmed(name))
}

/// The command of a line and the text after it.
pub fn parse_command(line: &str) -> (res: (Command, Vec<char>))
    ensures
        commanded(line@, res.0, res.1@),
{
    let chars = chars_of(line);
    let (first, args) = split_once(&chars, " ");
    let name = trim(&first);
    let command = if same_text(&name, "position") {
        Command::Position
    } else if same_text(&name, "uci") {
        Command::Uci
    } else if same_text(&name, "isready") {
        Command::IsReady
    } else if same_text(&name, "setoption") {
        Command::SetOption
    } else if same_text(&name, "ucinewgame") {
        Command::NewGame
    } else if same_text(&name, "go") {
        Command::Go
    } else if same_text(&name, "quit") {
        Command::Quit
    } else if same_text(&name, "perft") {
        Command::Perft
    } else if same_text(&name, "d") {
        Command::Display
    } else if same_text(&name, "bench") {
        Command::Bench
    } else if same_text(&name, "genfens") {
        Command::Genfens
    } else {
        Command::Unknown
    };
    let res = (command, args);
    assert(res.0 == command_named(trimmed(first@)));
    assert(cut(line@, " "@, first@, res.1@));
    res
}

/// Whether a line asks the engine to end, whatever else it says.
pub fn mentions_quit(line: &str) -> (res: bool)
    ensures
        res <==> exists|i: int| #[trigger] stands_at(line@, "quit"@, i),
{
    let chars = chars_of(line);
    let (before, after) = split_once(&chars, "quit");
    proof {
        reveal_strlit("quit");
        if before@.len() == chars@.len() {
            if exists|i: int| #[trigger] crate::types::text::first_at(chars@, "quit"@, i)
                && before@ == chars@.take(i) && after@ == chars@.skip(i + "quit"@.len()) {
                let i = choose|i: int| #[trigger]
                    crate::types::text::first_at(chars@, "quit"@, i) && before@ == chars@.take(i)
                        && after@ == chars@.skip(i + "quit"@.len());
                assert(chars@.take(i).len() == i);
            }
        }
    }
    before.len() != chars.len()
}

/// What one pair of a `go` command sets. A value that is no number sets nothing.
pub open spec fn go_step(
    stm: Side,
    soft_node: bool,
    settings: TimeSettings,
    command: Seq<char>,
    value: Seq<char>,
) -> TimeSettings {
    match numeral(value, u64::MAX as int) {
        None => settings,
        Some(n) => {
            let v = n as u64;
            if command == "depth"@ && v > 0 {
                TimeSettings { depth: Some(v as i32), ..settings }
            } else if command == "movetime"@ && v > 0 {
                TimeSettings { movetime: Some(v), ..settings }
            } else if command == "movestogo"@ && v > 0 {
                TimeSettings { movestogo: Some(v), ..settings }
            } else if command == "mate"@ && v > 0 {
                TimeSettings { mate: Some(v), ..settings }
            } else if command == "nodes"@ && v > 0 {
                TimeSettings {
                    nodes: Some(
                        if soft_node {
                            Nodes::Soft(v)
                        } else {
                            Nodes::Hard(v)
                        },
                    ),
                    ..settings
                }
            } else if command == "wtime"@ && stm == Side::White {
                TimeSettings { time: Some(v), ..settings }
            } else if command == "winc"@ && stm == Side::White {
                TimeSettings { inc: v, ..settings }
            } else if command == "btime"@ && stm == Side::Black {
                TimeSettings { time: Some(v), ..settings }
            } else if command == "binc"@ && stm == Side::Black {
                TimeSettings { inc: v, ..settings }
            } else {
                settings
            }
        },
    }
}

/// What the first `n` pairs of a `go` command set.
pub open spec fn go_upto(stm: Side, soft_node: bool, args: Seq<Seq<char>>, n: int) -> TimeSettings
    decreases n,
{
    if n <= 0 {
        TimeSettings::unlimited()
    } else {
        go_step(
            stm,
            soft_node,
            go_upto(stm, soft_node, args, n - 1),
            args[2 * n - 2],
            args[2 * n - 1],
        )
    }
}

/// Reads one pair of a `go` command.
fn read_go_pair(
    stm: Side,
    soft_node: bool,
    settings: TimeSettings,
    command: &Vec<char>,
    text: &Vec<char>,
) -> (res: TimeSettings)
    ensures
        res == go_step(stm, soft_node, settings, command@, text@),
{
    let mut settings = settings;
    if let Some(value) = read_number(text, u64::MAX) {
        if same_text(command, "depth") && value > 0 {
            settings.depth = Some(value as i32);
        } else if same_text(command, "movetime") && value > 0 {
            settings.movetime = Some(value);
        } else if same_text(command, "movestogo") && value > 0 {
            settings.movestogo = Some(value);
        } else if same_text(command, "mate") && value > 0 {
            settings.mate = Some(value);
        } else if same_text(command, "nodes") && value > 0 {
            settings.nodes = Some(if soft_node { Nodes::Soft(value) } else { Nodes::Hard(value) });
        } else if same_text(command, "wtime") && stm == Side::White {
            settings.time = Some(value);
        } else if same_text(command, "winc") && stm == Side::White {
            settings.inc = value;
        } else if same_text(command, "btime") && stm == Side::Black {
            settings.time = Some(value);
        } else if same_text(command, "binc") && stm == Side::Black {
            settings.inc = value;
        }
    }
    settings
}

/// A text in small letters.
pub open spec fn lowered(s: Seq<char>) -> Seq<char> {
    s.map_values(|c: char| lower(c))
}

/// What a `go` command with a text sets.
pub open spec fn go_settings(stm: Side, text: Seq<char>, soft_node: bool) -> TimeSettings {
    let list = words_of(lowered(text));
    go_upto(stm, soft_node, list, list.len() as int / 2)
}

/// What a `go` command asks for: pairs of a name and a number. Capital letters count as
/// small ones.
pub fn parse_go(stm: Side, args: &str, soft_node: bool) -> (res: TimeSettings)
    ensures
        res == go_settings(stm, args@, soft_node),
{
    let chars = lower_chars(args);
    let list = words(&chars);
    let ghost texts = words_of(chars@);
    let mut settings = TimeSettings::default();
    let mut n: usize = 0;
    while n < list.len() / 2
        invariant
            n <= list@.len() / 2,
            list@.len() == texts.len(),
            forall|i: int| 0 <= i < list@.len() ==> (#[trigger] list@[i])@ == texts[i],
            settings == go_upto(stm, soft_node, texts, n as int),
        decreases list@.len() / 2 - n,
    {
        assert(list@[2 * n]@ == texts[2 * n]);
        assert(list@[2 * n + 1]@ == texts[2 * n + 1]);
        settings = read_go_pair(stm, soft_node, settings, &list[2 * n], &list[2 * n + 1]);
        n += 1;
    }
    settings
}

/// What an option command asks for.
#[derive(Debug, Clone, Copy, PartialEq, Eq, Structural)]
pub enum Setting {
    Minimal(bool),
    Hash(usize),
    Threads(usize),
    ClearHash,
    Chess960(bool),
    SoftNodes(bool),
    Unknown,
}

/// The number that a word names, or else the given one.
pub open spec fn amount_or(word: Seq<char>, default: usize) -> usize {
    match numeral(word, usize::MAX as int) {
        Some(n) => n as usize,
        None => default,
    }
}

/// What the words of an option command ask for.
pub open spec fn setting_of(list: Seq<Seq<char>>) -> Setting {
    if list.len() == 4 && list[0] == "name"@ && list[2] == "value"@ {
        if list[1] == "minimal"@ {
            Setting::Minimal(list[3] == "true"@)
        } else if list[1] == "hash"@ {
            Setting::Hash(amount_or(list[3], 16))
        } else if list[1] == "threads"@ {
            Setting::Threads(amount_or(list[3], 1))
        } else if list[1] == "uci_chess960"@ {
            Setting::Chess960(list[3] == "true"@)
        } else if list[1] == "softnodes"@ {
            Setting::SoftNodes(list[3] == "true"@)
        } else {
            Setting::Unknown
        }
    } else if list.len() == 3 && list[0] == "name"@ && list[1] == "clear"@ && list[2] == "hash"@ {
        Setting::ClearHash
    } else {
        Setting::Unknown
    }
}

fn read_amount(word: &Vec<char>, default: usize) -> (res: usize)
    ensures
        res == amount_or(word@, default),
{
    match read_number(word, usize::MAX as u64) {
        Some(n) => n as usize,
        None => default,
    }
}

/// What an option command with a text asks for.
pub open spec fn option_asked(text: Seq<char>) -> Setting {
    setting_of(words_of(lowered(text)))
}

/// Reads an option command. Capital letters count as small ones.
pub fn parse_option(args: &str) -> (res: Setting)
    ensures
        res == option_asked(args@),
{
    let chars = lower_chars(args);
    let list = words(&chars);
    let ghost texts = words_of(chars@);
    proof {
        assert forall|i: int| 0 <= i < list@.len() implies (#[trigger] list@[i])@ == texts[i] by {}
    }
    if list.len() == 4 && same_text(&list[0], "name") && same_text(&list[2], "value") {
        if same_text(&list[1], "minimal") {
            Setting::Minimal(same_text(&list[3], "true"))
        } else if same_text(&list[1], "hash") {
            Setting::Hash(read_amount(&list[3], 16))
        } else if same_text(&list[1], "threads") {
            Setting::Threads(read_amount(&list[3], 1))
        } else if same_text(&list[1], "uci_chess960") {
            Setting::Chess960(same_text(&list[3], "true"))
        } else if same_text(&list[1], "softnodes") {
            Setting::SoftNodes(same_text(&list[3], "true"))
        } else {
            Setting::Unknown
        }
    } else if list.len() == 3 && same_text(&list[0], "name") && same_text(&list[1], "clear")
        && same_text(&list[2], "hash") {
        Setting::ClearHash
    } else {
        Setting::Unknown
    }
}

/// The text for a truth value.
pub open spec fn truth_text(b: bool) -> Seq<char> {
    if b {
        "true"@
    } else {
        "false"@
    }
}

fn push_truth(out: &mut String, b: bool)
    ensures
        final(out)@ == old(out)@ + truth_text(b),
{
    if b {
        out.push_str("true");
    } else {
        out.push_str("false");
    }
}

impl Setting {
    /// What is reported about a setting; nothing about an unknown one.
    pub open spec fn notice(self) -> Option<Seq<char>> {
        match self {
            Setting::Minimal(v) => Some("info string Set Minimal to "@ + truth_text(v)),
            Setting::Hash(n) => Some(
                "info string Resized TT to "@ + crate::types::text::decimal(n as nat) + " mb"@,
            ),
            Setting::Threads(n) => Some(
                "info string Set Threads to "@ + crate::types::text::decimal(n as nat),
            ),
            Setting::ClearHash => Some("info string TT cleared"@),
            Setting::Chess960(v) => Some("info string Set UCI_Chess960 to "@ + truth_text(v)),
            Setting::SoftNodes(v) => Some("info string Set SoftNodes to "@ + truth_text(v)),
            Setting::Unknown => None,
        }
    }

    pub fn to_string(&self) -> (res: Option<String>)
        ensures
            match self.notice() {
                Some(text) => res matches Some(s) && s@ == text,
                None => res is None,
            },
    {
        let mut out = String::new();
        match self {
            Setting::Minimal(v) => {
                out.push_str("info string Set Minimal to ");
                push_truth(&mut out, *v);
            },
            Setting::Hash(n) => {
                out.push_str("info string Resized TT to ");
                push_decimal(&mut out, *n as u64);
                out.push_str(" mb");
            },
            Setting::Threads(n) => {
                out.push_str("info string Set Threads to ");
                push_decimal(&mut out, *n as u64);
            },
            Setting::ClearHash => {
                out.push_str("info string TT cleared");
            },
            Setting::Chess960(v) => {
                out.push_str("info string Set UCI_Chess960 to ");
                push_truth(&mut out, *v);
            },
            Setting::SoftNodes(v) => {
                out.push_str("info string Set SoftNodes to ");
                push_truth(&mut out, *v);
            },
            Setting::Unknown => {
                return None;
            },
        }
        assert(out@ =~= self.notice()->0);
        Some(out)
    }
}

#[derive(Debug, Clone, Copy, PartialEq, Eq, Structural)]
pub struct UCISettings {
    pub soft_nodes: bool,
    pub frc: bool,
    pub report: Report,
}

impl Default for UCISettings {
    fn default() -> (res: Self)
        ensures
            res == (UCISettings { soft_nodes: false, frc: false, report: Report::Full }),
    {
        UCISettings { soft_nodes: false, frc: false, report: Report::Full }
    }
}

impl UCISettings {
    /// The settings after an option command.
    pub open spec fn after(self, setting: Setting) -> UCISettings {
        match setting {
            Setting::Minimal(v) => UCISettings {
                report: if v {
                    Report::Minimal
                } else {
                    Report::Full
                },
                ..self
            },
            Setting::Chess960(v) => UCISettings { frc: v, ..self },
            Setting::SoftNodes(v) => UCISettings { soft_nodes: v, ..self },
            _ => self,
        }
    }
}

/// Carries an option command out as far as it concerns the settings. What is left to do is
/// returned.
pub fn set_option(args: &str, settings: &mut UCISettings) -> (res: Setting)
    ensures
        res == option_asked(args@),
        *final(settings) == old(settings).after(res),
{
    let setting = parse_option(args);
    match setting {
        Setting::Minimal(v) => {
            settings.report = if v { Report::Minimal } else { Report::Full };
        },
        Setting::Chess960(v) => {
            settings.frc = v;
        },
        Setting::SoftNodes(v) => {
            settings.soft_nodes = v;
        },
        _ => {},
    }
    setting
}

/// The number that the text of a `perft` command names.
pub open spec fn perft_asked(text: Seq<char>) -> Option<int> {
    numeral(trimmed(text), usize::MAX as int)
}

/// The depth that a `perft` command asks for.
pub fn parse_perft(args: &Vec<char>) -> (res: Option<usize>)
    ensures
        match perft_asked(args@) {
            Some(n) => res == Some(n as usize),
            None => res is None,
        },
{
    match read_number(&trim(args), usize::MAX as u64) {
        Some(n) => Some(n as usize),
        None => None,
    }
}

/// How many positions a `genfens` command asks for, and the seed it gives.
pub open spec fn genfens_of(list: Seq<Seq<char>>) -> (int, int) {
    if list.len() >= 3 && list[1] == "seed"@ {
        (amount_or(list[0], 0) as int, seed_of(list[2]))
    } else if list.len() >= 1 {
        (amount_or(list[0], 0) as int, 0)
    } else {
        (0, 0)
    }
}

pub open spec fn seed_of(word: Seq<char>) -> int {
    match numeral(word, u64::MAX as int) {
        Some(n) => n,
        None => 0,
    }
}

/// How many positions a `genfens` command with a text asks for, and the seed it gives.
pub open spec fn genfens_asked(text: Seq<char>) -> (int, int) {
    genfens_of(words_of(lowered(text)))
}

pub fn parse_genfens(args: &str) -> (res: (usize, u64))
    ensures
        (res.0 as int, res.1 as int) == genfens_asked(args@),
{
    let chars = lower_chars(args);
    let list = words(&chars);
    let ghost texts = words_of(chars@);
    proof {
        assert forall|i: int| 0 <= i < list@.len() implies (#[trigger] list@[i])@ == texts[i] by {}
    }
    if list.len() >= 3 && same_text(&list[1], "seed") {
        let seed: u64 = match read_number(&list[2], u64::MAX) {
            Some(n) => n,
            None => 0,
        };
        (read_amount(&list[0], 0), seed)
    } else if list.len() >= 1 {
        (read_amount(&list[0], 0), 0)
    } else {
        (0, 0)
    }
}

} // verus!
