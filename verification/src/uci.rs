//! The times of a game, as a `go` command names them for both sides.

use crate::types::text::{chars_of, numeral, read_number, same_text, split, split_on, trim, trimmed};
use vstd::prelude::*;

verus! {

/// The depth when a depth is asked for but not given as a number.
pub const FULL_DEPTH: u64 = 127;

/// What a `go` command says about the clocks, in milliseconds.
#[derive(Debug, Clone, Copy, PartialEq)]
pub struct ClockSettings {
    pub depth: Option<u64>,
    pub wtime: Option<u64>,
    pub btime: Option<u64>,
    pub winc: Option<u64>,
    pub binc: Option<u64>,
    pub movestogo: Option<u64>,
    pub movetime: Option<u64>,
}

impl ClockSettings {
    pub open spec fn nothing() -> ClockSettings {
        ClockSettings {
            depth: None,
            wtime: None,
            btime: None,
            winc: None,
            binc: None,
            movestogo: None,
            movetime: None,
        }
    }
}

/// The number that a word names, or else the given one.
pub open spec fn number_or(word: Seq<char>, default: u64) -> u64 {
    match numeral(trimmed(word), u64::MAX as int) {
        Some(n) => n as u64,
        None => default,
    }
}

/// A word that a value follows.
pub open spec fn is_key(word: Seq<char>) -> bool {
    word == "depth"@ || word == "wtime"@ || word == "btime"@ || word == "winc"@ || word == "binc"@
        || word == "movestogo"@ || word == "movetime"@
}

/// The settings after a word and its value.
pub open spec fn with(s: ClockSettings, key: Seq<char>, value: Seq<char>) -> ClockSettings {
    if key == "depth"@ {
        ClockSettings { depth: Some(number_or(value, FULL_DEPTH)), ..s }
    } else if key == "wtime"@ {
        ClockSettings { wtime: Some(number_or(value, 500)), ..s }
    } else if key == "btime"@ {
        ClockSettings { btime: Some(number_or(value, 500)), ..s }
    } else if key == "winc"@ {
        ClockSettings { winc: Some(number_or(value, 0)), ..s }
    } else if key == "binc"@ {
        ClockSettings { binc: Some(number_or(value, 0)), ..s }
    } else if key == "movestogo"@ {
        ClockSettings { movestogo: Some(number_or(value, 0)), ..s }
    } else if key == "movetime"@ {
        ClockSettings { movetime: Some(number_or(value, 0)), ..s }
    } else {
        s
    }
}

/// The settings once the words from `k` on have been read. A word that is no key is passed
/// over; a last word without anything behind it ends the command.
pub open spec fn read_from(list: Seq<Seq<char>>, k: int, s: ClockSettings) -> ClockSettings
    decreases list.len() - k,
{
    if k + 1 >= list.len() || (k + 2 == list.len() && list[k + 1].len() == 0) {
        s
    } else if is_key(trimmed(list[k])) {
        read_from(list, k + 2, with(s, trimmed(list[k]), list[k + 1]))
    } else {
        read_from(list, k + 1, s)
    }
}

fn read_value(word: &Vec<char>, default: u64) -> (res: u64)
    ensures
        res == number_or(word@, default),
{
    match read_number(&trim(word), u64::MAX) {
        Some(n) => n,
        None => default,
    }
}

/// Reads a `go` command.
pub fn go(args: &str) -> (res: ClockSettings)
    ensures
        res == read_from(split(args@, ' '), 0, ClockSettings::nothing()),
{
    let chars = chars_of(args);
    let list = split_on(&chars, ' ');
    let ghost texts = split(args@, ' ');
    let mut s = ClockSettings {
        depth: None,
        wtime: None,
        btime: None,
        winc: None,
        binc: None,
        movestogo: None,
        movetime: None,
    };
    let mut k: usize = 0;
    let n: usize = list.len();
    while k < n && n - k > 1 && !(n - k == 2 && list[k + 1].len() == 0)
        invariant
            k <= n,
            n == list@.len(),
            n == texts.len(),
            texts == split(args@, ' '),
            forall|i: int| 0 <= i < n ==> (#[trigger] list@[i])@ == texts[i],
            read_from(texts, k as int, s) == read_from(texts, 0, ClockSettings::nothing()),
        decreases n - k,
    {
        let key = trim(&list[k]);
        assert(list@[k as int]@ == texts[k as int]);
        assert(list@[k + 1]@ == texts[k + 1]);
        if same_text(&key, "depth") {
            s.depth = Some(read_value(&list[k + 1], FULL_DEPTH));
            k += 2;
        } else if same_text(&key, "wtime") {
            s.wtime = Some(read_value(&list[k + 1], 500));
            k += 2;
        } else if same_text(&key, "btime") {
            s.btime = Some(read_value(&list[k + 1], 500));
            k += 2;
        } else if same_text(&key, "winc") {
            s.winc = Some(read_value(&list[k + 1], 0));
            k += 2;
        } else if same_text(&key, "binc") {
            s.binc = Some(read_value(&list[k + 1], 0));
            k += 2;
        } else if same_text(&key, "movestogo") {
            s.movestogo = Some(read_value(&list[k + 1], 0));
            k += 2;
        } else if same_text(&key, "movetime") {
            s.movetime = Some(read_value(&list[k + 1], 0));
            k += 2;
        } else {
            k += 1;
        }
    }
    proof {
        if k < n && n - k == 2 {
            assert(list@[k + 1]@ == texts[k + 1]);
        }
    }
    s
}

} // verus!
