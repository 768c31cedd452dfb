//! What a report says, read back from its text.

use crate::search::data::{info_text, line_text, score_text, signed, RootMove};
use crate::types::moves::Move;
use crate::types::text::{decimal, stands_at};
use vstd::prelude::*;

verus! {

/// A mate that the side to move gives is reported with the number of its moves, one that it
/// suffers with that number below zero: a mate in `k` moves takes `2k - 1` plies of the side
/// that gives it, or `2k` if the other side moves first.
pub proof fn law_mate_reported(k: int)
    requires
        1 <= k <= 128,
    ensures
        score_text(31000 - (2 * k - 1), false, false) == "mate "@ + decimal(k as nat),
        score_text(-31000 + 2 * k, false, false) == "mate -"@ + decimal(k as nat),
{
    reveal_strlit("mate ");
    reveal_strlit("mate -");
    assert("mate "@ + (seq!['-'] + decimal(k as nat)) =~= "mate -"@ + decimal(k as nat));
}

/// Every score of a mate is reported as one, with the sign of the score: above zero exactly if
/// the side to move wins. The nearer the mate, the smaller the number.
pub proof fn law_mate_signed(score: int)
    requires
        30744 <= score <= 31000,
    ensures
        exists|k: nat|
            0 <= k <= 128 && 31000 - 2 * k <= score <= 31000 - 2 * k + 1 && score_text(
                score,
                false,
                false,
            ) == "mate "@ + #[trigger] decimal(k),
        score < 31000 ==> exists|k: nat|
            1 <= k <= 128 && 31000 - 2 * k <= score <= 31000 - 2 * k + 1 && score_text(
                -score,
                false,
                false,
            ) == "mate -"@ + #[trigger] decimal(k),
{
    reveal_strlit("mate ");
    reveal_strlit("mate -");
    let k = ((31000 - score + 1) / 2) as nat;
    assert("mate "@ + (seq!['-'] + decimal(k)) =~= "mate -"@ + decimal(k));
    assert(score_text(score, false, false) =~= "mate "@ + decimal(k));
}

/// A score that tells of no mate is reported as it is, in hundredths of a pawn.
pub proof fn law_score_reported(score: int)
    requires
        0 <= score < 30744,
    ensures
        score_text(score, false, false) == "cp "@ + decimal(score as nat),
        score > 0 ==> score_text(-score, false, false) == "cp -"@ + decimal(score as nat),
{
    reveal_strlit("cp ");
    reveal_strlit("cp -");
    assert("cp "@ + (seq!['-'] + decimal(score as nat)) =~= "cp -"@ + decimal(score as nat));
}

/// Bounds are named after the score: an upper bound as one, a lower bound as one.
pub proof fn law_bounds_named(score: int)
    ensures
        score_text(score, true, false) == score_text(score, false, false) + " upperbound"@,
        score_text(score, false, true) == score_text(score, false, false) + " lowerbound"@,
{
}

/// A number below zero is written with a sign before its size, any other without one.
pub proof fn law_signed(n: nat)
    ensures
        signed(n as int) == decimal(n),
        n > 0 ==> signed(-n) == seq!['-'] + decimal(n),
{
}

/// A part between two others stands in the whole.
proof fn lemma_part(whole: Seq<char>, a: Seq<char>, part: Seq<char>, b: Seq<char>)
    requires
        whole == a + part + b,
    ensures
        stands_at(whole, part, a.len() as int),
{
    assert(whole.subrange(a.len() as int, a.len() as int + part.len()) =~= part);
}

/// A report names each of its numbers behind the word for it, in this order: the depth, the
/// greatest depth, the time, the score, the nodes, the nodes for each second, the line and how
/// full the table is. A move without a score from the last iteration is reported with its
/// earlier score and no bound.
pub proof fn law_info(rm: RootMove, elapsed: u64, nodes: u64, nps: u64, hashfull: usize)
    ensures
        ({
            let text = info_text(rm, elapsed, nodes, nps, hashfull);
            let score = if rm.score == -32000 {
                score_text(rm.previous_score as int, false, false)
            } else {
                score_text(rm.display_score as int, rm.upperbound, rm.lowerbound)
            };
            &&& stands_at(
                text,
                "info depth "@ + signed(rm.searched_depth as int) + " seldepth "@ + signed(
                    rm.sel_depth as int,
                ) + " time "@ + decimal(elapsed as nat) + " score "@ + score + " nodes "@,
                0,
            )
            &&& exists|i: int| #[trigger]
                stands_at(
                    text,
                    " nodes "@ + decimal(nodes as nat) + " nps "@ + decimal(nps as nat) + " pv "@
                        + Move::notation(rm.m@) + " "@,
                    i,
                )
            &&& exists|i: int| #[trigger]
                stands_at(
                    text,
                    line_text(rm.pv.inner@, rm.pv.inner@.len() as int) + " hashfull "@ + decimal(
                        hashfull as nat,
                    ),
                    i,
                ) && i + (line_text(rm.pv.inner@, rm.pv.inner@.len() as int) + " hashfull "@
                    + decimal(hashfull as nat)).len() == text.len()
        }),
{
    let text = info_text(rm, elapsed, nodes, nps, hashfull);
    let stale = rm.score == -32000;
    let score = if stale {
        score_text(rm.previous_score as int, false, false)
    } else {
        score_text(rm.display_score as int, rm.upperbound, rm.lowerbound)
    };
    reveal_strlit(" ");
    let none = Seq::<char>::empty();
    let head = "info depth "@ + signed(rm.searched_depth as int) + " seldepth "@ + signed(
        rm.sel_depth as int,
    ) + " time "@ + decimal(elapsed as nat) + " score "@ + score;
    let tail = line_text(rm.pv.inner@, rm.pv.inner@.len() as int) + " hashfull "@ + decimal(
        hashfull as nat,
    );
    let first = Move::notation(rm.m@).push(' ');
    let count = decimal(nodes as nat) + " nps "@ + decimal(nps as nat) + " pv "@ + first;
    let middle = " nodes "@ + decimal(nodes as nat) + " nps "@ + decimal(nps as nat) + " pv "@
        + Move::notation(rm.m@) + " "@;
    assert(" nodes "@ + count =~= middle);
    assert(text =~= head + middle + tail);
    lemma_part(text, head, middle, tail);
    assert(text =~= (head + middle) + tail + none);
    lemma_part(text, head + middle, tail, none);
    assert(text =~= none + (head + " nodes "@) + (count + tail));
    lemma_part(text, none, head + " nodes "@, count + tail);
}

/// A line is written move by move, each with a blank behind it.
pub proof fn law_line_written(m: Move, line: Seq<Move>, n: int)
    requires
        0 <= n <= line.len(),
    ensures
        line_text(seq![m] + line, n + 1) == Move::notation(m@) + " "@ + line_text(line, n),
        line_text(line, 0).len() == 0,
    decreases n,
{
    reveal_strlit(" ");
    let longer = seq![m] + line;
    if n == 0 {
        assert(line_text(longer, 0) == Seq::<char>::empty());
        assert(longer[0] == m);
        assert(line_text(longer, 1) =~= Move::notation(m@) + " "@ + line_text(line, 0));
    } else {
        law_line_written(m, line, n - 1);
        assert(longer[n] == line[n - 1]);
        assert(line_text(longer, n + 1) =~= Move::notation(m@) + " "@ + line_text(line, n));
    }
}

} // verus!
