//! What commands ask for, read from their text.

use crate::search::time::{Nodes, TimeSettings};
use crate::tools::uci::{
    command_named, commanded, genfens_asked, go_settings, go_step, go_upto, lowered, option_asked,
    perft_asked, Command, Setting,
};
use crate::types::sides::Side;
use crate::types::text::{
    blank, cut, decimal, first_at, leading, lemma_decimal_number, lower, numeral, space, stands_at,
    trimmed, without_trailing, words_of,
};
use vstd::prelude::*;

verus! {

/// A word: not empty, and without separators.
pub open spec fn is_word(s: Seq<char>) -> bool {
    s.len() > 0 && forall|i: int| 0 <= i < s.len() ==> !blank(#[trigger] s[i])
}

/// A word after a separator, or at the start, is one more word of the text.
pub proof fn lemma_one_more_word(s: Seq<char>, w: Seq<char>)
    requires
        is_word(w),
        s.len() > 0 ==> blank(s.last()),
    ensures
        words_of(s + w) == words_of(s).push(w),
    decreases w.len(),
{
    let t = s + w;
    assert(t.drop_last() =~= s + w.drop_last());
    assert(t.last() == w.last());
    if w.len() == 1 {
        assert(s + w.drop_last() =~= s);
        assert(w =~= seq![w.last()]);
        if t.len() > 1 {
            assert(t[t.len() - 2] == s.last());
        }
        assert(words_of(t) =~= words_of(s).push(w));
    } else {
        let v = w.drop_last();
        assert forall|i: int| 0 <= i < v.len() implies !blank(#[trigger] v[i]) by {
            assert(!blank(w[i]));
        }
        lemma_one_more_word(s, v);
        assert(t[t.len() - 2] == w[w.len() - 2]);
        let head = words_of(s).push(v);
        assert(head.drop_last() =~= words_of(s));
        assert(head.last().push(w.last()) =~= w);
        assert(words_of(t) =~= words_of(s).push(w));
    }
}

/// A separator at the end adds no word.
pub proof fn lemma_blank_adds_nothing(s: Seq<char>, c: char)
    requires
        blank(c),
    ensures
        words_of(s.push(c)) == words_of(s),
{
    assert(s.push(c).drop_last() =~= s);
}

/// The decimal notation of a number is a word of small letters.
pub proof fn lemma_decimal_word(n: nat)
    ensures
        is_word(decimal(n)),
        lowered(decimal(n)) == decimal(n),
{
    lemma_decimal_number(n);
    let d = decimal(n);
    assert forall|i: int| 0 <= i < d.len() implies !blank(#[trigger] d[i]) && lower(d[i])
        == d[i] by {
        assert('0' <= d[i] <= '9');
    }
    assert(lowered(d) =~= d);
}

/// The decimal notation of a number names that number.
pub proof fn lemma_decimal_numeral(n: nat, max: int)
    requires
        n <= max,
    ensures
        numeral(decimal(n), max) == Some(n as int),
{
    lemma_decimal_number(n);
    let d = decimal(n);
    assert('0' <= d[0] <= '9');
}

/// Small letters of a text made of two parts.
proof fn lemma_lowered_join(a: Seq<char>, b: Seq<char>)
    ensures
        lowered(a + b) == lowered(a) + lowered(b),
{
    assert(lowered(a + b) =~= lowered(a) + lowered(b));
}

/// The words of a text, with a name and a number after it.
proof fn lemma_pair_words(text: Seq<char>, name: Seq<char>, value: Seq<char>)
    requires
        is_word(name),
        lowered(name) == name,
        is_word(value),
        lowered(value) == value,
    ensures
        words_of(lowered(text + " "@ + name + " "@ + value)) == words_of(lowered(text)).push(
            name,
        ).push(value),
{
    reveal_strlit(" ");
    let low = lowered(text);
    let a = low.push(' ');
    let b = (a + name).push(' ');
    lemma_blank_adds_nothing(low, ' ');
    lemma_one_more_word(a, name);
    lemma_blank_adds_nothing(a + name, ' ');
    lemma_one_more_word(b, value);
    assert(lowered(text + " "@ + name + " "@ + value) =~= b + value) by {
        lemma_lowered_join(text + " "@ + name + " "@, value);
        lemma_lowered_join(text + " "@ + name, " "@);
        lemma_lowered_join(text + " "@, name);
        lemma_lowered_join(text, " "@);
        assert(lowered(" "@) =~= seq![' ']);
    }
}

/// Pairs that stay the same set the same.
proof fn lemma_go_prefix(
    stm: Side,
    soft_node: bool,
    a: Seq<Seq<char>>,
    b: Seq<Seq<char>>,
    n: int,
)
    requires
        2 * n <= a.len(),
        a.len() <= b.len(),
        forall|i: int| 0 <= i < a.len() ==> a[i] == b[i],
    ensures
        go_upto(stm, soft_node, a, n) == go_upto(stm, soft_node, b, n),
    decreases n,
{
    if n > 0 {
        lemma_go_prefix(stm, soft_node, a, b, n - 1);
        assert(a[2 * n - 2] == b[2 * n - 2]);
        assert(a[2 * n - 1] == b[2 * n - 1]);
    }
}

/// One more pair.
proof fn lemma_go_pair(
    stm: Side,
    text: Seq<char>,
    soft_node: bool,
    name: Seq<char>,
    value: Seq<char>,
)
    requires
        words_of(lowered(text)).len() % 2 == 0,
        is_word(name),
        lowered(name) == name,
        is_word(value),
        lowered(value) == value,
    ensures
        go_settings(stm, text + " "@ + name + " "@ + value, soft_node) == go_step(
            stm,
            soft_node,
            go_settings(stm, text, soft_node),
            name,
            value,
        ),
{
    lemma_pair_words(text, name, value);
    let a = words_of(lowered(text));
    let b = a.push(name).push(value);
    let n = a.len() as int / 2;
    lemma_go_prefix(stm, soft_node, a, b, n);
    assert(b.len() as int / 2 == n + 1);
    assert(b[2 * (n + 1) - 2] == name);
    assert(b[2 * (n + 1) - 1] == value);
}

/// The names in a `go` command are words of small letters, and no two are the same.
proof fn lemma_go_names()
    ensures
        is_word("depth"@) && lowered("depth"@) == "depth"@,
        is_word("movetime"@) && lowered("movetime"@) == "movetime"@,
        is_word("movestogo"@) && lowered("movestogo"@) == "movestogo"@,
        is_word("mate"@) && lowered("mate"@) == "mate"@,
        is_word("nodes"@) && lowered("nodes"@) == "nodes"@,
        is_word("wtime"@) && lowered("wtime"@) == "wtime"@,
        is_word("winc"@) && lowered("winc"@) == "winc"@,
        is_word("btime"@) && lowered("btime"@) == "btime"@,
        is_word("binc"@) && lowered("binc"@) == "binc"@,
{
    reveal_strlit("depth");
    reveal_strlit("movetime");
    reveal_strlit("movestogo");
    reveal_strlit("mate");
    reveal_strlit("nodes");
    reveal_strlit("wtime");
    reveal_strlit("winc");
    reveal_strlit("btime");
    reveal_strlit("binc");
    assert(lowered("depth"@) =~= "depth"@);
    assert(lowered("movetime"@) =~= "movetime"@);
    assert(lowered("movestogo"@) =~= "movestogo"@);
    assert(lowered("mate"@) =~= "mate"@);
    assert(lowered("nodes"@) =~= "nodes"@);
    assert(lowered("wtime"@) =~= "wtime"@);
    assert(lowered("winc"@) =~= "winc"@);
    assert(lowered("btime"@) =~= "btime"@);
    assert(lowered("binc"@) =~= "binc"@);
}

/// The names in a `go` command differ by their letters.
proof fn lemma_names_differ()
    ensures
        "depth"@ != "movetime"@ && "depth"@ != "movestogo"@ && "depth"@ != "mate"@ && "depth"@
            != "nodes"@ && "depth"@ != "wtime"@ && "depth"@ != "winc"@ && "depth"@ != "btime"@
            && "depth"@ != "binc"@,
        "movetime"@ != "movestogo"@ && "movetime"@ != "mate"@ && "movetime"@ != "nodes"@
            && "movetime"@ != "wtime"@ && "movetime"@ != "winc"@ && "movetime"@ != "btime"@
            && "movetime"@ != "binc"@,
        "movestogo"@ != "mate"@ && "movestogo"@ != "nodes"@ && "movestogo"@ != "wtime"@
            && "movestogo"@ != "winc"@ && "movestogo"@ != "btime"@ && "movestogo"@ != "binc"@,
        "mate"@ != "nodes"@ && "mate"@ != "wtime"@ && "mate"@ != "winc"@ && "mate"@ != "btime"@
            && "mate"@ != "binc"@,
        "nodes"@ != "wtime"@ && "nodes"@ != "winc"@ && "nodes"@ != "btime"@ && "nodes"@ != "binc"@,
        "wtime"@ != "winc"@ && "wtime"@ != "btime"@ && "wtime"@ != "binc"@,
        "winc"@ != "btime"@ && "winc"@ != "binc"@,
        "btime"@ != "binc"@,
{
    reveal_strlit("depth");
    reveal_strlit("movetime");
    reveal_strlit("movestogo");
    reveal_strlit("mate");
    reveal_strlit("nodes");
    reveal_strlit("wtime");
    reveal_strlit("winc");
    reveal_strlit("btime");
    reveal_strlit("binc");
    assert("depth"@[0] == 'd' && "movetime"@[0] == 'm' && "movestogo"@[0] == 'm' && "mate"@[0]
        == 'm' && "nodes"@[0] == 'n' && "wtime"@[0] == 'w' && "winc"@[0] == 'w' && "btime"@[0]
        == 'b' && "binc"@[0] == 'b');
    assert("movetime"@[4] == 't' && "movestogo"@[4] == 's' && "movetime"@.len() == 8
        && "movestogo"@.len() == 9 && "mate"@.len() == 4);
    assert("wtime"@.len() == 5 && "winc"@.len() == 4 && "btime"@.len() == 5 && "binc"@.len() == 4);
}

/// After any pairs, a name and the decimal notation of a number set what they name to that
/// number and nothing else. So what a command says is what is set, whatever was said before.
pub proof fn law_go_reads_back(stm: Side, text: Seq<char>, soft_node: bool, n: u64)
    requires
        words_of(lowered(text)).len() % 2 == 0,
        n > 0,
    ensures
        ({
            let before = go_settings(stm, text, soft_node);
            let d = decimal(n as nat);
            let after = |name: Seq<char>|
                go_settings(stm, text + " "@ + name + " "@ + d, soft_node);
            &&& n <= i32::MAX ==> after("depth"@) == (TimeSettings {
                depth: Some(n as i32),
                ..before
            })
            &&& after("movetime"@) == (TimeSettings { movetime: Some(n), ..before })
            &&& after("movestogo"@) == (TimeSettings { movestogo: Some(n), ..before })
            &&& after("mate"@) == (TimeSettings { mate: Some(n), ..before })
            &&& after("nodes"@) == (TimeSettings {
                nodes: Some(
                    if soft_node {
                        Nodes::Soft(n)
                    } else {
                        Nodes::Hard(n)
                    },
                ),
                ..before
            })
        }),
{
    let d = decimal(n as nat);
    lemma_decimal_word(n as nat);
    lemma_decimal_numeral(n as nat, u64::MAX as int);
    lemma_go_names();
    lemma_names_differ();
    lemma_go_pair(stm, text, soft_node, "depth"@, d);
    lemma_go_pair(stm, text, soft_node, "movetime"@, d);
    lemma_go_pair(stm, text, soft_node, "movestogo"@, d);
    lemma_go_pair(stm, text, soft_node, "mate"@, d);
    lemma_go_pair(stm, text, soft_node, "nodes"@, d);
}

/// The clocks: each side is told of its own time and increment only.
pub proof fn law_go_clocks(text: Seq<char>, soft_node: bool, n: u64)
    requires
        words_of(lowered(text)).len() % 2 == 0,
    ensures
        ({
            let d = decimal(n as nat);
            let white = go_settings(Side::White, text, soft_node);
            let black = go_settings(Side::Black, text, soft_node);
            let after = |stm: Side, name: Seq<char>|
                go_settings(stm, text + " "@ + name + " "@ + d, soft_node);
            &&& after(Side::White, "wtime"@) == (TimeSettings { time: Some(n), ..white })
            &&& after(Side::White, "winc"@) == (TimeSettings { inc: n, ..white })
            &&& after(Side::Black, "btime"@) == (TimeSettings { time: Some(n), ..black })
            &&& after(Side::Black, "binc"@) == (TimeSettings { inc: n, ..black })
            &&& after(Side::White, "btime"@) == white && after(Side::White, "binc"@) == white
            &&& after(Side::Black, "wtime"@) == black && after(Side::Black, "winc"@) == black
        }),
{
    let d = decimal(n as nat);
    lemma_decimal_word(n as nat);
    lemma_decimal_numeral(n as nat, u64::MAX as int);
    lemma_go_names();
    lemma_names_differ();
    lemma_go_pair(Side::White, text, soft_node, "wtime"@, d);
    lemma_go_pair(Side::White, text, soft_node, "winc"@, d);
    lemma_go_pair(Side::White, text, soft_node, "btime"@, d);
    lemma_go_pair(Side::White, text, soft_node, "binc"@, d);
    lemma_go_pair(Side::Black, text, soft_node, "wtime"@, d);
    lemma_go_pair(Side::Black, text, soft_node, "winc"@, d);
    lemma_go_pair(Side::Black, text, soft_node, "btime"@, d);
    lemma_go_pair(Side::Black, text, soft_node, "binc"@, d);
}

/// A command without text asks for nothing, and a value that is no number sets nothing.
pub proof fn law_go_nothing(
    stm: Side,
    text: Seq<char>,
    soft_node: bool,
    name: Seq<char>,
    value: Seq<char>,
)
    requires
        words_of(lowered(text)).len() % 2 == 0,
        is_word(name) && lowered(name) == name,
        is_word(value) && lowered(value) == value,
        'a' <= value[0] <= 'z',
    ensures
        go_settings(stm, Seq::empty(), soft_node) == (TimeSettings {
            time: None,
            inc: 0,
            movestogo: None,
            depth: None,
            nodes: None,
            mate: None,
            movetime: None,
        }),
        go_settings(stm, text + " "@ + name + " "@ + value, soft_node) == go_settings(
            stm,
            text,
            soft_node,
        ),
{
    lemma_go_pair(stm, text, soft_node, name, value);
    assert(lowered(Seq::<char>::empty()) =~= Seq::<char>::empty());
    assert(!('0' <= value[0] <= '9') && value[0] != '+');
    assert(numeral(value, u64::MAX as int) is None);
}

/// An option is set to the value that is named, whatever the case of the letters.
pub proof fn law_option_values(name: Seq<char>, value: Seq<char>, n: u64)
    requires
        is_word(name) && lowered(name) == name,
        is_word(value) && lowered(value) == value,
    ensures
        ({
            let asked = |x: Seq<char>, v: Seq<char>|
                option_asked("name "@ + x + " value "@ + v);
            let d = decimal(n as nat);
            &&& n <= usize::MAX ==> asked("hash"@, d) == Setting::Hash(n as usize)
            &&& n <= usize::MAX ==> asked("threads"@, d) == Setting::Threads(n as usize)
            &&& asked("minimal"@, value) == Setting::Minimal(value == "true"@)
            &&& asked("uci_chess960"@, value) == Setting::Chess960(value == "true"@)
            &&& asked("softnodes"@, value) == Setting::SoftNodes(value == "true"@)
            &&& name != "hash"@ && name != "threads"@ && name != "minimal"@ && name
                != "uci_chess960"@ && name != "softnodes"@ ==> asked(name, value)
                == Setting::Unknown
        }),
{
    reveal_strlit("hash");
    reveal_strlit("threads");
    reveal_strlit("minimal");
    reveal_strlit("uci_chess960");
    reveal_strlit("softnodes");
    assert(lowered("hash"@) =~= "hash"@);
    assert(lowered("threads"@) =~= "threads"@);
    assert(lowered("minimal"@) =~= "minimal"@);
    assert(lowered("uci_chess960"@) =~= "uci_chess960"@);
    assert(lowered("softnodes"@) =~= "softnodes"@);
    let d = decimal(n as nat);
    lemma_decimal_word(n as nat);
    if n <= usize::MAX {
        lemma_decimal_numeral(n as nat, usize::MAX as int);
    }
    assert("hash"@.len() == 4 && "threads"@.len() == 7 && "minimal"@.len() == 7
        && "uci_chess960"@.len() == 12 && "softnodes"@.len() == 9);
    assert("threads"@[0] == 't' && "minimal"@[0] == 'm');
    lemma_option_words("hash"@, d);
    lemma_option_words("threads"@, d);
    lemma_option_words("minimal"@, value);
    lemma_option_words("uci_chess960"@, value);
    lemma_option_words("softnodes"@, value);
    lemma_option_words(name, value);
}

/// The words of an option command.
proof fn lemma_option_words(name: Seq<char>, value: Seq<char>)
    requires
        is_word(name) && lowered(name) == name,
        is_word(value) && lowered(value) == value,
    ensures
        words_of(lowered("name "@ + name + " value "@ + value)) == seq![
            "name"@,
            name,
            "value"@,
            value,
        ],
{
    reveal_strlit("name ");
    reveal_strlit("name");
    reveal_strlit(" value ");
    reveal_strlit("value");
    let none = Seq::<char>::empty();
    let a = (none + "name"@).push(' ');
    let b = (a + name).push(' ');
    let c = (b + "value"@).push(' ');
    lemma_one_more_word(none, "name"@);
    lemma_blank_adds_nothing(none + "name"@, ' ');
    lemma_one_more_word(a, name);
    lemma_blank_adds_nothing(a + name, ' ');
    lemma_one_more_word(b, "value"@);
    lemma_blank_adds_nothing(b + "value"@, ' ');
    lemma_one_more_word(c, value);
    let whole = "name "@ + name + " value "@ + value;
    assert(lowered(whole) =~= c + value) by {
        lemma_lowered_join("name "@ + name + " value "@, value);
        lemma_lowered_join("name "@ + name, " value "@);
        lemma_lowered_join("name "@, name);
        assert(lowered("name "@) =~= a);
        assert(lowered(" value "@) =~= " value "@);
    }
    assert(words_of(lowered(whole)) =~= seq!["name"@, name, "value"@, value]);
}

/// A `perft` command names its depth; white space around it does not matter.
pub proof fn law_perft_depth(n: u64)
    requires
        n <= usize::MAX,
    ensures
        perft_asked(decimal(n as nat)) == Some(n as int),
        perft_asked(" "@ + decimal(n as nat)) == Some(n as int),
        perft_asked(decimal(n as nat) + " "@) == Some(n as int),
{
    let d = decimal(n as nat);
    reveal_strlit(" ");
    lemma_decimal_number(n as nat);
    lemma_decimal_numeral(n as nat, usize::MAX as int);
    assert('0' <= d[0] <= '9');
    assert('0' <= d[d.len() - 1] <= '9');
    assert(!space(d[0]) && !space(d.last()));
    assert(d.take(d.len() as int) =~= d);
    assert(d.skip(0) =~= d);
    assert(trimmed(d) =~= d);
    let after = d + " "@;
    assert(after.last() == ' ' && after.drop_last() =~= d);
    assert(without_trailing(after) == d.len()) by {
        assert(space(' '));
        assert(without_trailing(d) == d.len());
    }
    assert(after.take(d.len() as int) =~= d);
    assert(trimmed(after) =~= d);
    let before = " "@ + d;
    assert(before.last() == d.last());
    assert(before.take(before.len() as int) =~= before);
    assert(before[0] == ' ' && before.drop_first() =~= d);
    assert(leading(before) == 1) by {
        assert(space(' '));
        assert(leading(d) == 0);
    }
    assert(before.skip(1) =~= d);
    assert(trimmed(before) =~= d);
}

/// A `genfens` command names how many positions it asks for, and its seed after that word.
pub proof fn law_genfens(n: u64, seed: u64)
    requires
        n <= usize::MAX,
    ensures
        genfens_asked(decimal(n as nat) + " seed "@ + decimal(seed as nat)) == (
            n as int,
            seed as int,
        ),
        genfens_asked(decimal(n as nat)) == (n as int, 0int),
{
    let d = decimal(n as nat);
    let e = decimal(seed as nat);
    reveal_strlit(" seed ");
    reveal_strlit("seed");
    lemma_decimal_word(n as nat);
    lemma_decimal_word(seed as nat);
    lemma_decimal_numeral(n as nat, usize::MAX as int);
    lemma_decimal_numeral(seed as nat, u64::MAX as int);
    let none = Seq::<char>::empty();
    let a = (none + d).push(' ');
    let b = (a + "seed"@).push(' ');
    lemma_one_more_word(none, d);
    lemma_blank_adds_nothing(none + d, ' ');
    lemma_one_more_word(a, "seed"@);
    lemma_blank_adds_nothing(a + "seed"@, ' ');
    lemma_one_more_word(b, e);
    let whole = d + " seed "@ + e;
    assert(lowered(whole) =~= b + e) by {
        lemma_lowered_join(d + " seed "@, e);
        lemma_lowered_join(d, " seed "@);
        assert(lowered(" seed "@) =~= " seed "@);
    }
    assert(words_of(lowered(whole)) =~= seq![d, "seed"@, e]);
    assert(none + d =~= d);
    assert(words_of(lowered(d)) =~= seq![d]);
}

/// A line that is a word gives the command of that name without arguments; with a blank and a
/// text after it, it gives that command with the text.
proof fn lemma_command(line: Seq<char>, name: Seq<char>, rest: Seq<char>, c: Command, a: Seq<char>)
    requires
        name.len() > 0,
        forall|i: int| 0 <= i < name.len() ==> !space(#[trigger] name[i]),
        line == name + " "@ + rest || line == name && rest.len() == 0,
        commanded(line, c, a),
    ensures
        c == command_named(name),
        a == rest,
{
    reveal_strlit(" ");
    let n = name.len() as int;
    assert(space(' '));
    let x = choose|x: Seq<char>| #[trigger]
        cut(line, " "@, x, a) && c == command_named(trimmed(x));
    assert(x == name && a == rest) by {
        assert forall|j: int| 0 <= j < n implies !#[trigger] stands_at(line, " "@, j) by {
            if stands_at(line, " "@, j) {
                assert(line.subrange(j, j + 1)[0] == ' ');
                assert(line[j] == name[j]);
            }
        }
        if line == name {
            assert forall|i: int| !#[trigger] stands_at(line, " "@, i) by {
                if stands_at(line, " "@, i) {
                    assert(i < n);
                }
            }
            assert(a =~= rest);
        } else {
            assert(line.subrange(n, n + 1) =~= " "@);
            assert(stands_at(line, " "@, n));
            let i = choose|i: int| #[trigger]
                first_at(line, " "@, i) && x == line.take(i) && a == line.skip(i + " "@.len());
            assert(first_at(line, " "@, i));
            assert(i == n) by {
                if i > n {
                    assert(!stands_at(line, " "@, n));
                }
            }
            assert(x =~= name);
            assert(a =~= rest);
        }
    }
    assert(name.take(n) =~= name);
    assert(name.skip(0) =~= name);
    assert(!space(name[n - 1]) && !space(name[0]));
    assert(trimmed(name) =~= name);
}

/// Each command is called by its name, and what follows the name and a blank goes with it.
pub proof fn law_commands(rest: Seq<char>, c: Command, a: Seq<char>)
    ensures
        commanded("position"@ + " "@ + rest, c, a) ==> c == Command::Position && a == rest,
        commanded("go"@ + " "@ + rest, c, a) ==> c == Command::Go && a == rest,
        commanded("setoption"@ + " "@ + rest, c, a) ==> c == Command::SetOption && a == rest,
        commanded("perft"@ + " "@ + rest, c, a) ==> c == Command::Perft && a == rest,
        commanded("genfens"@ + " "@ + rest, c, a) ==> c == Command::Genfens && a == rest,
        commanded("go"@, c, a) ==> c == Command::Go && a.len() == 0,
        commanded("uci"@, c, a) ==> c == Command::Uci,
        commanded("isready"@, c, a) ==> c == Command::IsReady,
        commanded("ucinewgame"@, c, a) ==> c == Command::NewGame,
        commanded("quit"@, c, a) ==> c == Command::Quit,
        commanded("d"@, c, a) ==> c == Command::Display,
        commanded("bench"@, c, a) ==> c == Command::Bench,
{
    reveal_strlit("position");
    reveal_strlit("go");
    reveal_strlit("setoption");
    reveal_strlit("perft");
    reveal_strlit("genfens");
    reveal_strlit("uci");
    reveal_strlit("isready");
    reveal_strlit("ucinewgame");
    reveal_strlit("quit");
    reveal_strlit("d");
    reveal_strlit("bench");
    assert("position"@.len() == 8 && "go"@.len() == 2 && "setoption"@.len() == 9 && "perft"@.len()
        == 5 && "genfens"@.len() == 7 && "uci"@.len() == 3 && "isready"@.len() == 7
        && "ucinewgame"@.len() == 10 && "quit"@.len() == 4 && "d"@.len() == 1 && "bench"@.len()
        == 5);
    assert("genfens"@[0] == 'g' && "isready"@[0] == 'i' && "perft"@[0] == 'p' && "bench"@[0]
        == 'b');
    let none = Seq::<char>::empty();
    if commanded("position"@ + " "@ + rest, c, a) {
        lemma_command("position"@ + " "@ + rest, "position"@, rest, c, a);
    }
    if commanded("go"@ + " "@ + rest, c, a) {
        lemma_command("go"@ + " "@ + rest, "go"@, rest, c, a);
    }
    if commanded("setoption"@ + " "@ + rest, c, a) {
        lemma_command("setoption"@ + " "@ + rest, "setoption"@, rest, c, a);
    }
    if commanded("perft"@ + " "@ + rest, c, a) {
        lemma_command("perft"@ + " "@ + rest, "perft"@, rest, c, a);
    }
    if commanded("genfens"@ + " "@ + rest, c, a) {
        lemma_command("genfens"@ + " "@ + rest, "genfens"@, rest, c, a);
    }
    if commanded("go"@, c, a) {
        lemma_command("go"@, "go"@, none, c, a);
    }
    if commanded("uci"@, c, a) {
        lemma_command("uci"@, "uci"@, none, c, a);
    }
    if commanded("isready"@, c, a) {
        lemma_command("isready"@, "isready"@, none, c, a);
    }
    if commanded("ucinewgame"@, c, a) {
        lemma_command("ucinewgame"@, "ucinewgame"@, none, c, a);
    }
    if commanded("quit"@, c, a) {
        lemma_command("quit"@, "quit"@, none, c, a);
    }
    if commanded("d"@, c, a) {
        lemma_command("d"@, "d"@, none, c, a);
    }
    if commanded("bench"@, c, a) {
        lemma_command("bench"@, "bench"@, none, c, a);
    }
}

} // verus!
