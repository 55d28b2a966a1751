//! Full-turn sequence search: every maximal sequence of legal moves for a
//! dice roll, with the forced-maximal-play rule and the larger-die
//! tie-break applied as filters over the exhaustively generated candidates.

use vstd::prelude::*;
use vstd::slice::slice_subrange;

use dedup_iter::DedupAdapter;

use crate::board::BoardModel;
use crate::board::BoardState;
use crate::board::Move;
use crate::board::die_distance;
use crate::moves::lemma_apply_move_wf;
use crate::moves::lemma_legal_move_applicable;

verus! {

/// Some move is legal for the given die on the given board.
pub open spec fn any_move_legal(b: BoardModel, d: int) -> bool {
    exists|m: Move| b.move_legal(d, m)
}

/// All die values lie in 1..=6.
pub open spec fn dice_ok(ds: Seq<usize>) -> bool {
    forall|k: int| 0 <= k < ds.len() ==> 1 <= #[trigger] ds[k] <= 6
}

/// The board after a sequence of moves is applied in order.
pub open spec fn board_after(b: BoardModel, ms: Seq<Move>) -> BoardModel
    decreases ms.len(),
{
    if ms.len() == 0 {
        b
    } else {
        board_after(b.apply(ms[0]), ms.drop_first())
    }
}

/// Each move of `ms` is legal for the corresponding die of `ds` on the
/// board it meets.
pub open spec fn plays_prefix(b: BoardModel, ds: Seq<usize>, ms: Seq<Move>) -> bool
    decreases ms.len(),
{
    if ms.len() == 0 {
        true
    } else {
        &&& ds.len() >= 1
        &&& b.move_legal(ds[0] as int, ms[0])
        &&& plays_prefix(b.apply(ms[0]), ds.drop_first(), ms.drop_first())
    }
}

/// A sequence the backtracking search yields for the ordered dice `ds`:
/// nonempty, each move legal for its die in order, and either all dice are
/// used or the next die has no legal move on the resulting board.
pub open spec fn branch_seq(b: BoardModel, ds: Seq<usize>, ms: Seq<Move>) -> bool {
    &&& 1 <= ms.len() <= ds.len()
    &&& plays_prefix(b, ds, ms)
    &&& (ms.len() == ds.len() || !any_move_legal(board_after(b, ms), ds[ms.len() as int] as int))
}

/// Prepending a move steps the board once before the rest is applied.
pub proof fn lemma_board_after_cons(b: BoardModel, m: Move, tail: Seq<Move>)
    ensures
        board_after(b, seq![m] + tail) == board_after(b.apply(m), tail),
{
    let ms = seq![m] + tail;
    assert(ms[0] == m);
    assert(ms.drop_first() =~= tail);
}

/// A legal first move followed by a branch of the remaining dice is a
/// branch of the whole dice sequence.
pub proof fn lemma_branch_cons(b: BoardModel, ds: Seq<usize>, m: Move, tail: Seq<Move>)
    requires
        ds.len() >= 1,
        b.move_legal(ds[0] as int, m),
        branch_seq(b.apply(m), ds.drop_first(), tail),
    ensures
        branch_seq(b, ds, seq![m] + tail),
{
    let ms = seq![m] + tail;
    assert(ms[0] == m);
    assert(ms.drop_first() =~= tail);
    lemma_board_after_cons(b, m, tail);
    if ms.len() < ds.len() {
        assert(ds.drop_first()[tail.len() as int] == ds[ms.len() as int]);
    }
}

/// A legal move after which the next die is dead is a branch on its own.
pub proof fn lemma_branch_fallback(b: BoardModel, ds: Seq<usize>, m: Move)
    requires
        ds.len() >= 2,
        b.move_legal(ds[0] as int, m),
        !any_move_legal(b.apply(m), ds[1] as int),
    ensures
        branch_seq(b, ds, seq![m]),
{
    let ms = seq![m];
    assert(ms[0] == m);
    assert(ms.drop_first() =~= Seq::<Move>::empty());
    assert(plays_prefix(b.apply(m), ds.drop_first(), Seq::<Move>::empty()));
    assert(board_after(b, ms) == b.apply(m)) by {
        lemma_board_after_cons(b, m, Seq::<Move>::empty());
        assert(seq![m] + Seq::<Move>::empty() =~= seq![m]);
    }
}

/// With a single die, every legal move is a branch on its own.
pub proof fn lemma_branch_single(b: BoardModel, ds: Seq<usize>, m: Move)
    requires
        ds.len() == 1,
        b.move_legal(ds[0] as int, m),
    ensures
        branch_seq(b, ds, seq![m]),
{
    let ms = seq![m];
    assert(ms[0] == m);
    assert(ms.drop_first() =~= Seq::<Move>::empty());
    assert(plays_prefix(b.apply(m), ds.drop_first(), Seq::<Move>::empty()));
}

/// Taking a branch apart: its first move is legal, and what remains is a
/// branch of the remaining dice — or, if nothing remains, the next die is
/// dead.
pub proof fn lemma_branch_uncons(b: BoardModel, ds: Seq<usize>, ms: Seq<Move>)
    requires
        branch_seq(b, ds, ms),
        ds.len() >= 2,
    ensures
        b.move_legal(ds[0] as int, ms[0]),
        ms.len() >= 2 ==> branch_seq(b.apply(ms[0]), ds.drop_first(), ms.drop_first()),
        ms.len() == 1 ==> !any_move_legal(b.apply(ms[0]), ds[1] as int),
{
    assert(seq![ms[0]] + ms.drop_first() =~= ms);
    lemma_board_after_cons(b, ms[0], ms.drop_first());
    if ms.len() >= 2 {
        if ms.len() < ds.len() {
            assert(ds.drop_first()[ms.drop_first().len() as int] == ds[ms.len() as int]);
        }
    } else {
        assert(ms.drop_first() =~= Seq::<Move>::empty());
        assert(board_after(b, ms) == b.apply(ms[0]));
    }
}

/// On a well-formed board, a sequence that plays each die legally can be
/// applied move by move, and leaves a well-formed board with the same
/// player to move.  In particular every sequence `get_move_seqs` returns
/// can be handed to `apply_move_seq` or `with_move_seq`.
pub proof fn lemma_plays_prefix_applicable(b: BoardModel, ds: Seq<usize>, ms: Seq<Move>)
    requires
        b.wf(),
        dice_ok(ds),
        plays_prefix(b, ds, ms),
    ensures
        crate::moves::seq_applicable(b.points, b.cur_player, ms),
        board_after(b, ms).wf(),
        board_after(b, ms).cur_player == b.cur_player,
    decreases ms.len(),
{
    if ms.len() > 0 {
        lemma_legal_move_applicable(b, ds[0] as int, ms[0]);
        lemma_apply_move_wf(b, ms[0]);
        assert forall|k: int| 0 <= k < ds.drop_first().len() implies 1 <= #[trigger] ds.drop_first()[k] <= 6 by {
            assert(ds.drop_first()[k] == ds[k + 1]);
        }
        lemma_plays_prefix_applicable(b.apply(ms[0]), ds.drop_first(), ms.drop_first());
    }
}

/// Wherever some move is legal for the first die, at least one branch
/// exists: the search can always play on until it is stuck.
pub proof fn lemma_branch_exists(b: BoardModel, ds: Seq<usize>)
    requires
        ds.len() >= 1,
        any_move_legal(b, ds[0] as int),
    ensures
        exists|ms: Seq<Move>| branch_seq(b, ds, ms),
    decreases ds.len(),
{
    let m = choose|m: Move| b.move_legal(ds[0] as int, m);
    if ds.len() == 1 {
        lemma_branch_single(b, ds, m);
        assert(branch_seq(b, ds, seq![m]));
    } else {
        let stepped = b.apply(m);
        if any_move_legal(stepped, ds[1] as int) {
            assert(ds.drop_first()[0] == ds[1]);
            lemma_branch_exists(stepped, ds.drop_first());
            let tail = choose|tail: Seq<Move>| branch_seq(stepped, ds.drop_first(), tail);
            lemma_branch_cons(b, ds, m, tail);
            assert(branch_seq(b, ds, seq![m] + tail));
        } else {
            lemma_branch_fallback(b, ds, m);
            assert(branch_seq(b, ds, seq![m]));
        }
    }
}

/// The ordered die sequences a roll gives rise to: a double is played four
/// times over; otherwise both orderings are tried, since legality is
/// order-dependent.
pub open spec fn die_orders(a: usize, b: usize) -> Seq<Seq<usize>> {
    if a == b {
        seq![seq![a, a, a, a]]
    } else {
        seq![seq![a, b], seq![b, a]]
    }
}

/// A full-turn candidate: a branch of one of the roll's die orders.
pub open spec fn is_candidate(bm: BoardModel, a: usize, b: usize, ms: Seq<Move>) -> bool {
    exists|q: int|
        0 <= q < die_orders(a, b).len() && branch_seq(bm, #[trigger] die_orders(a, b)[q], ms)
}

/// The length of the longest candidate, or zero if there is none.
pub open spec fn max_candidate_len(bm: BoardModel, a: usize, b: usize) -> int {
    if exists|ms: Seq<Move>| is_candidate(bm, a, b, ms) && ms.len() == 4 {
        4
    } else if exists|ms: Seq<Move>| is_candidate(bm, a, b, ms) && ms.len() == 3 {
        3
    } else if exists|ms: Seq<Move>| is_candidate(bm, a, b, ms) && ms.len() == 2 {
        2
    } else if exists|ms: Seq<Move>| is_candidate(bm, a, b, ms) && ms.len() == 1 {
        1
    } else {
        0
    }
}

/// The larger of the two die values.
pub open spec fn larger_die(a: usize, b: usize) -> usize {
    if a >= b {
        a
    } else {
        b
    }
}

/// Two single-move candidates consume visibly different die values.
pub open spec fn two_die_values_usable(bm: BoardModel, a: usize, b: usize) -> bool {
    exists|ms1: Seq<Move>, ms2: Seq<Move>|
        is_candidate(bm, a, b, ms1) && is_candidate(bm, a, b, ms2) && ms1.len() == 1 && ms2.len()
            == 1 && die_distance(ms1[0]) != die_distance(ms2[0])
}

/// The larger-die tie-break is in force: the roll is not a double, at most
/// one die can be played, and the single-move candidates do not all consume
/// the same die value.
pub open spec fn tie_break_applies(bm: BoardModel, a: usize, b: usize) -> bool {
    a != b && max_candidate_len(bm, a, b) == 1 && two_die_values_usable(bm, a, b)
}

/// A candidate that survives the turn's filters: under the tie-break, only
/// single moves consuming the larger die; otherwise, only candidates of
/// maximal length.
pub open spec fn chosen_seq(bm: BoardModel, a: usize, b: usize, ms: Seq<Move>) -> bool {
    &&& is_candidate(bm, a, b, ms)
    &&& if tie_break_applies(bm, a, b) {
        die_distance(ms[0]) == larger_die(a, b) as int
    } else {
        ms.len() == max_candidate_len(bm, a, b)
    }
}

/// Every candidate plays at least one and at most four moves.
pub proof fn lemma_candidate_len(bm: BoardModel, a: usize, b: usize, ms: Seq<Move>)
    requires
        is_candidate(bm, a, b, ms),
    ensures
        1 <= ms.len() <= 4,
{
    let q = choose|q: int|
        0 <= q < die_orders(a, b).len() && branch_seq(bm, die_orders(a, b)[q], ms);
    assert(die_orders(a, b)[q].len() <= 4);
}

/// A bound met by all candidates and attained by one (or zero, if there is
/// none) is the maximal candidate length.
pub proof fn lemma_max_len_is(bm: BoardModel, a: usize, b: usize, l: int)
    requires
        0 <= l <= 4,
        forall|ms: Seq<Move>| is_candidate(bm, a, b, ms) ==> ms.len() <= l,
        l == 0 || exists|ms: Seq<Move>| is_candidate(bm, a, b, ms) && ms.len() == l,
    ensures
        max_candidate_len(bm, a, b) == l,
{
    if l == 0 {
        assert forall|ms: Seq<Move>| !(is_candidate(bm, a, b, ms) && ms.len() >= 1) by {
            if is_candidate(bm, a, b, ms) {
                lemma_candidate_len(bm, a, b, ms);
            }
        }
    }
}

/// Collapse runs of equal adjacent values to their first element.
pub open spec fn dedup_runs(s: Seq<usize>) -> Seq<usize>
    decreases s.len(),
{
    if s.len() <= 1 {
        s
    } else if s[0] == s[1] {
        dedup_runs(s.drop_first())
    } else {
        seq![s[0]] + dedup_runs(s.drop_first())
    }
}

/// Collapsing runs never empties a nonempty sequence.
pub proof fn lemma_dedup_nonempty(s: Seq<usize>)
    requires
        s.len() >= 1,
    ensures
        dedup_runs(s).len() >= 1,
    decreases s.len(),
{
    if s.len() > 1 {
        lemma_dedup_nonempty(s.drop_first());
    }
}

/// At least two values survive the collapse exactly when the sequence holds
/// two different values at all.
pub proof fn lemma_dedup_two(s: Seq<usize>)
    ensures
        dedup_runs(s).len() >= 2 <==> exists|i: int, j: int|
            0 <= i < s.len() && 0 <= j < s.len() && s[i] != s[j],
    decreases s.len(),
{
    if s.len() <= 1 {
        assert forall|i: int, j: int|
            0 <= i < s.len() && 0 <= j < s.len() implies s[i] == s[j] by {}
    } else if s[0] == s[1] {
        let t = s.drop_first();
        lemma_dedup_two(t);
        if exists|i: int, j: int| 0 <= i < s.len() && 0 <= j < s.len() && s[i] != s[j] {
            let (i, j) = choose|i: int, j: int|
                0 <= i < s.len() && 0 <= j < s.len() && s[i] != s[j];
            if i == 0 {
                assert(t[0] == s[1]);
                assert(t[j - 1] == s[j]);
                assert(t[0] != t[j - 1]);
            } else if j == 0 {
                assert(t[i - 1] != t[0]);
            } else {
                assert(t[i - 1] != t[j - 1]);
            }
        }
        if exists|i: int, j: int| 0 <= i < t.len() && 0 <= j < t.len() && t[i] != t[j] {
            let (i, j) = choose|i: int, j: int|
                0 <= i < t.len() && 0 <= j < t.len() && t[i] != t[j];
            assert(s[i + 1] != s[j + 1]);
        }
    } else {
        lemma_dedup_nonempty(s.drop_first());
        assert(s[0] != s[1]);
    }
}

/// Relies on `dedup_iter::DedupAdapter::dedup`: the adapter yields the
/// source iterator's elements, skipping each element equal to the one it
/// yielded last, i.e. it collapses runs of equal adjacent elements.
#[verifier::external_body]
fn dedup_die_rolls(v: &Vec<usize>) -> (r: Vec<usize>)
    ensures
        r@ == dedup_runs(v@),
{
    v.iter().cloned().dedup().collect()
}

impl BoardState {
    /// All move sequences the backtracking search yields for one ordered
    /// permutation of the dice: exactly the sequences `ms` with
    /// `branch_seq(self@, dice_slice@, ms)`.
    pub fn backtrack_die_moves(&self, dice_slice: &[usize]) -> (r: Vec<Vec<Move>>)
        requires
            self@.wf(),
            dice_slice@.len() >= 1,
            dice_ok(dice_slice@),
        ensures
            forall|k: int| 0 <= k < r@.len() ==> branch_seq(self@, dice_slice@, (#[trigger] r@[k])@),
            forall|ms: Seq<Move>|
                branch_seq(self@, dice_slice@, ms) ==> exists|k: int|
                    0 <= k < r@.len() && (#[trigger] r@[k])@ == ms,
        decreases dice_slice@.len(),
    {
        let ghost ds = dice_slice@;
        let ghost d0 = dice_slice@[0] as int;
        let first_moves = self.get_moves_for_single_die(dice_slice[0]);
        let mut result: Vec<Vec<Move>> = Vec::new();
        if dice_slice.len() == 1 {
            let mut idx: usize = 0;
            while idx < first_moves.len()
                invariant
                    idx <= first_moves@.len(),
                    ds.len() == 1,
                    d0 == ds[0] as int,
                    forall|k: int|
                        0 <= k < first_moves@.len() ==> self@.move_legal(
                            d0,
                            #[trigger] first_moves@[k],
                        ),
                    result@.len() == idx,
                    forall|k: int| 0 <= k < idx ==> (#[trigger] result@[k])@ == seq![
                        first_moves@[k],
                    ],
                decreases first_moves@.len() - idx,
            {
                let m = first_moves[idx];
                let mut s: Vec<Move> = Vec::new();
                s.push(m);
                result.push(s);
                proof {
                    assert(result@[idx as int]@ =~= seq![first_moves@[idx as int]]);
                }
                idx = idx + 1;
            }
            proof {
                assert forall|k: int|
                    0 <= k < result@.len() implies branch_seq(
                    self@,
                    ds,
                    (#[trigger] result@[k])@,
                ) by {
                    lemma_branch_single(self@, ds, first_moves@[k]);
                }
                assert forall|ms: Seq<Move>| branch_seq(self@, ds, ms) implies exists|k: int|
                    0 <= k < result@.len() && (#[trigger] result@[k])@ == ms by {
                    assert(ms.len() == 1);
                    assert(self@.move_legal(d0, ms[0]));
                    assert(first_moves@.contains(ms[0]));
                    let k = choose|k: int|
                        0 <= k < first_moves@.len() && first_moves@[k] == ms[0];
                    assert(ms =~= seq![ms[0]]);
                    assert(result@[k]@ == ms);
                }
            }
        } else {
            let rest = slice_subrange(dice_slice, 1, dice_slice.len());
            proof {
                assert(rest@ =~= ds.drop_first());
            }
            let mut idx: usize = 0;
            while idx < first_moves.len()
                invariant
                    idx <= first_moves@.len(),
                    self@.wf(),
                    ds == dice_slice@,
                    ds.len() >= 2,
                    dice_ok(ds),
                    d0 == ds[0] as int,
                    rest@ == ds.drop_first(),
                    forall|k: int|
                        0 <= k < first_moves@.len() ==> self@.move_legal(
                            d0,
                            #[trigger] first_moves@[k],
                        ),
                    forall|m: Move| self@.move_legal(d0, m) ==> first_moves@.contains(m),
                    forall|k: int|
                        0 <= k < result@.len() ==> branch_seq(self@, ds, (#[trigger] result@[k])@),
                    forall|ms: Seq<Move>|
                        branch_seq(self@, ds, ms) && (exists|k0: int|
                            0 <= k0 < idx && first_moves@[k0] == ms[0]) ==> exists|k: int|
                            0 <= k < result@.len() && (#[trigger] result@[k])@ == ms,
                decreases first_moves@.len() - idx,
            {
                let m = first_moves[idx];
                proof {
                    lemma_legal_move_applicable(self@, d0, m);
                    lemma_apply_move_wf(self@, m);
                    assert forall|k: int| 0 <= k < rest@.len() implies 1 <= #[trigger] rest@[k]
                        <= 6 by {
                        assert(rest@[k] == ds[k + 1]);
                    }
                }
                let state_after_move = self.with_move(m);
                proof {
                    assert(state_after_move@ =~= self@.apply(m));
                }
                let tails = state_after_move.backtrack_die_moves(rest);
                let ghost result0 = result@;
                if tails.len() == 0 {
                    // no continuation exists, so the next die is dead after
                    // this move; the single move still counts as a branch
                    proof {
                        if any_move_legal(self@.apply(m), rest@[0] as int) {
                            lemma_branch_exists(self@.apply(m), rest@);
                            let w = choose|w: Seq<Move>| branch_seq(self@.apply(m), rest@, w);
                            assert(exists|k: int| 0 <= k < tails@.len() && (#[trigger] tails@[k])@ == w);
                            assert(false);
                        }
                    }
                    let mut s: Vec<Move> = Vec::new();
                    s.push(m);
                    result.push(s);
                    proof {
                        assert(result@[result@.len() - 1]@ =~= seq![m]);
                        assert(rest@[0] == ds[1]);
                        lemma_branch_fallback(self@, ds, m);
                    }
                } else {
                    let mut t: usize = 0;
                    while t < tails.len()
                        invariant
                            t <= tails@.len(),
                            self@.wf(),
                            ds.len() >= 2,
                            d0 == ds[0] as int,
                            rest@ == ds.drop_first(),
                            self@.move_legal(d0, m),
                            forall|k: int|
                                0 <= k < tails@.len() ==> branch_seq(
                                    self@.apply(m),
                                    rest@,
                                    (#[trigger] tails@[k])@,
                                ),
                            result@.len() == result0.len() + t,
                            forall|k: int|
                                0 <= k < result0.len() ==> result@[k] == result0[k],
                            forall|k: int|
                                0 <= k < t ==> (#[trigger] result@[result0.len() + k])@ == seq![m]
                                    + tails@[k]@,
                            forall|k: int|
                                0 <= k < result@.len() ==> branch_seq(
                                    self@,
                                    ds,
                                    (#[trigger] result@[k])@,
                                ),
                        decreases tails@.len() - t,
                    {
                        let mut s: Vec<Move> = Vec::new();
                        s.push(m);
                        let mut tail_copy = tails[t].clone();
                        proof {
                            assert(tail_copy@ =~= tails@[t as int]@);
                        }
                        s.append(&mut tail_copy);
                        proof {
                            assert(s@ =~= seq![m] + tails@[t as int]@);
                            lemma_branch_cons(self@, ds, m, tails@[t as int]@);
                        }
                        result.push(s);
                        t = t + 1;
                    }
                }
                proof {
                    assert forall|ms: Seq<Move>|
                        branch_seq(self@, ds, ms) && (exists|k0: int|
                            0 <= k0 < idx + 1 && first_moves@[k0] == ms[0]) implies exists|k: int|
                        0 <= k < result@.len() && (#[trigger] result@[k])@ == ms by {
                        let k0 = choose|k0: int|
                            0 <= k0 < idx + 1 && first_moves@[k0] == ms[0];
                        if k0 < idx {
                            let k = choose|k: int|
                                0 <= k < result0.len() && (#[trigger] result0[k])@ == ms;
                            assert(result@[k]@ == ms);
                        } else {
                            // ms starts with this iteration's move
                            assert(ms[0] == m);
                            lemma_branch_uncons(self@, ds, ms);
                            if ms.len() >= 2 {
                                let kt = choose|kt: int|
                                    0 <= kt < tails@.len() && (#[trigger] tails@[kt])@
                                        == ms.drop_first();
                                assert(seq![m] + ms.drop_first() =~= ms);
                                assert(result@[result0.len() + kt]@ == ms);
                            } else {
                                assert(ms =~= seq![m]);
                                // a lone first move is a branch only when no
                                // continuation existed at all
                                if tails@.len() > 0 {
                                    assert(branch_seq(self@.apply(m), rest@, tails@[0]@));
                                    assert(self@.apply(m).move_legal(
                                        rest@[0] as int,
                                        tails@[0]@[0],
                                    ));
                                    assert(any_move_legal(self@.apply(m), ds[1] as int));
                                    assert(false);
                                } else {
                                    assert(result@[result@.len() - 1]@ == ms);
                                }
                            }
                        }
                    }
                }
                idx = idx + 1;
            }
            proof {
                assert forall|ms: Seq<Move>| branch_seq(self@, ds, ms) implies exists|k: int|
                    0 <= k < result@.len() && (#[trigger] result@[k])@ == ms by {
                    assert(self@.move_legal(d0, ms[0]));
                    assert(first_moves@.contains(ms[0]));
                    let k0 = choose|k0: int|
                        0 <= k0 < first_moves@.len() && first_moves@[k0] == ms[0];
                    assert(0 <= k0 < idx && first_moves@[k0] == ms[0]);
                }
            }
        }
        result
    }

    /// Every legal full turn for the given dice roll, after the
    /// forced-maximal-play filter and the larger-die tie-break: exactly the
    /// sequences `ms` with `chosen_seq(self@, dice_roll.0, dice_roll.1, ms)`.
    /// An empty result means no legal play exists this turn.
    pub fn get_move_seqs(&self, dice_roll: (usize, usize)) -> (r: Vec<Vec<Move>>)
        requires
            self@.wf(),
            1 <= dice_roll.0 <= 6,
            1 <= dice_roll.1 <= 6,
        ensures
            forall|k: int|
                0 <= k < r@.len() ==> chosen_seq(
                    self@,
                    dice_roll.0,
                    dice_roll.1,
                    (#[trigger] r@[k])@,
                ),
            forall|ms: Seq<Move>|
                chosen_seq(self@, dice_roll.0, dice_roll.1, ms) ==> exists|k: int|
                    0 <= k < r@.len() && (#[trigger] r@[k])@ == ms,
            forall|k: int| 0 <= k < r@.len() ==> 1 <= (#[trigger] r@[k])@.len() <= 4,
            forall|k1: int, k2: int|
                0 <= k1 < r@.len() && 0 <= k2 < r@.len() ==> (#[trigger] r@[k1])@.len() == (
                #[trigger] r@[k2])@.len(),
    {
        let a = dice_roll.0;
        let b = dice_roll.1;
        let ghost bm = self@;
        let is_double = a == b;
        let mut move_seqs: Vec<Vec<Move>>;
        if is_double {
            let dice: Vec<usize> = vec![a, a, a, a];
            proof {
                assert(dice@ =~= seq![a, a, a, a]);
            }
            move_seqs = self.backtrack_die_moves(dice.as_slice());
            proof {
                assert forall|k: int|
                    0 <= k < move_seqs@.len() implies is_candidate(
                    bm,
                    a,
                    b,
                    (#[trigger] move_seqs@[k])@,
                ) by {
                    assert(branch_seq(bm, die_orders(a, b)[0], move_seqs@[k]@));
                }
                assert forall|ms: Seq<Move>| is_candidate(bm, a, b, ms) implies exists|k: int|
                    0 <= k < move_seqs@.len() && (#[trigger] move_seqs@[k])@ == ms by {
                    let q = choose|q: int|
                        0 <= q < die_orders(a, b).len() && branch_seq(bm, die_orders(a, b)[q], ms);
                    assert(q == 0);
                    assert(branch_seq(bm, dice@, ms));
                }
            }
        } else {
            let dice1: Vec<usize> = vec![a, b];
            let dice2: Vec<usize> = vec![b, a];
            proof {
                assert(dice1@ =~= seq![a, b]);
                assert(dice2@ =~= seq![b, a]);
            }
            move_seqs = self.backtrack_die_moves(dice1.as_slice());
            let ghost c1 = move_seqs@;
            let mut more = self.backtrack_die_moves(dice2.as_slice());
            let ghost c2 = more@;
            move_seqs.append(&mut more);
            proof {
                assert forall|k: int|
                    0 <= k < move_seqs@.len() implies is_candidate(
                    bm,
                    a,
                    b,
                    (#[trigger] move_seqs@[k])@,
                ) by {
                    if k < c1.len() {
                        assert(move_seqs@[k] == c1[k]);
                        assert(branch_seq(bm, die_orders(a, b)[0], c1[k]@));
                    } else {
                        assert(move_seqs@[k] == c2[k - c1.len()]);
                        assert(branch_seq(bm, die_orders(a, b)[1], c2[k - c1.len()]@));
                    }
                }
                assert forall|ms: Seq<Move>| is_candidate(bm, a, b, ms) implies exists|k: int|
                    0 <= k < move_seqs@.len() && (#[trigger] move_seqs@[k])@ == ms by {
                    let q = choose|q: int|
                        0 <= q < die_orders(a, b).len() && branch_seq(bm, die_orders(a, b)[q], ms);
                    if q == 0 {
                        assert(branch_seq(bm, dice1@, ms));
                        let k = choose|k: int| 0 <= k < c1.len() && (#[trigger] c1[k])@ == ms;
                        assert(move_seqs@[k]@ == ms);
                    } else {
                        assert(branch_seq(bm, dice2@, ms));
                        let k = choose|k: int| 0 <= k < c2.len() && (#[trigger] c2[k])@ == ms;
                        assert(move_seqs@[c1.len() + k]@ == ms);
                    }
                }
            }
        }
        // the longest candidate decides how many moves must be played
        let mut max_seq_len: usize = 0;
        let mut k: usize = 0;
        while k < move_seqs.len()
            invariant
                k <= move_seqs@.len(),
                bm == self@,
                max_seq_len <= 4,
                forall|k0: int|
                    0 <= k0 < move_seqs@.len() ==> is_candidate(
                        bm,
                        a,
                        b,
                        (#[trigger] move_seqs@[k0])@,
                    ),
                forall|k0: int| 0 <= k0 < k ==> (#[trigger] move_seqs@[k0])@.len() <= max_seq_len,
                max_seq_len == 0 || exists|k0: int|
                    0 <= k0 < k && (#[trigger] move_seqs@[k0])@.len() == max_seq_len,
            decreases move_seqs@.len() - k,
        {
            if move_seqs[k].len() > max_seq_len {
                proof {
                    lemma_candidate_len(bm, a, b, move_seqs@[k as int]@);
                }
                max_seq_len = move_seqs[k].len();
            }
            k = k + 1;
        }
        proof {
            assert forall|ms: Seq<Move>|
                is_candidate(bm, a, b, ms) implies ms.len() <= max_seq_len by {
                let k0 = choose|k0: int|
                    0 <= k0 < move_seqs@.len() && (#[trigger] move_seqs@[k0])@ == ms;
            }
            lemma_max_len_is(bm, a, b, max_seq_len as int);
        }
        // if only one die can be used at all, and the usable single moves do
        // not all consume the same die value, the larger die must be played
        if !is_double && max_seq_len == 1 {
            proof {
                assert forall|k0: int|
                    0 <= k0 < move_seqs@.len() implies (#[trigger] move_seqs@[k0])@.len() == 1 by {
                    lemma_candidate_len(bm, a, b, move_seqs@[k0]@);
                }
            }
            let mut drs: Vec<usize> = Vec::new();
            let mut k2: usize = 0;
            while k2 < move_seqs.len()
                invariant
                    k2 <= move_seqs@.len(),
                    bm == self@,
                    drs@.len() == k2,
                    forall|k0: int|
                        0 <= k0 < move_seqs@.len() ==> is_candidate(
                            bm,
                            a,
                            b,
                            (#[trigger] move_seqs@[k0])@,
                        ),
                    forall|k0: int|
                        0 <= k0 < move_seqs@.len() ==> (#[trigger] move_seqs@[k0])@.len() == 1,
                    forall|k0: int|
                        0 <= k0 < k2 ==> #[trigger] drs@[k0] as int == die_distance(
                            move_seqs@[k0]@[0],
                        ),
                decreases move_seqs@.len() - k2,
            {
                let first_move = move_seqs[k2][0];
                drs.push(first_move.die_roll());
                k2 = k2 + 1;
            }
            let deduped = dedup_die_rolls(&drs);
            if deduped.len() >= 2 {
                proof {
                    lemma_dedup_two(drs@);
                    let (i, j) = choose|i: int, j: int|
                        0 <= i < drs@.len() && 0 <= j < drs@.len() && drs@[i] != drs@[j];
                    assert(is_candidate(bm, a, b, move_seqs@[i]@));
                    assert(is_candidate(bm, a, b, move_seqs@[j]@));
                    assert(die_distance(move_seqs@[i]@[0]) != die_distance(move_seqs@[j]@[0]));
                    assert(two_die_values_usable(bm, a, b));
                    assert(tie_break_applies(bm, a, b));
                }
                let larger = if a >= b {
                    a
                } else {
                    b
                };
                let mut kept: Vec<Vec<Move>> = Vec::new();
                let mut k3: usize = 0;
                while k3 < move_seqs.len()
                    invariant
                        k3 <= move_seqs@.len(),
                        bm == self@,
                        a == dice_roll.0,
                        b == dice_roll.1,
                        larger == larger_die(a, b),
                        tie_break_applies(bm, a, b),
                        forall|k0: int|
                            0 <= k0 < move_seqs@.len() ==> is_candidate(
                                bm,
                                a,
                                b,
                                (#[trigger] move_seqs@[k0])@,
                            ),
                        forall|k0: int|
                            0 <= k0 < move_seqs@.len() ==> (#[trigger] move_seqs@[k0])@.len() == 1,
                        forall|k0: int|
                            0 <= k0 < kept@.len() ==> chosen_seq(bm, a, b, (#[trigger] kept@[k0])@),
                        forall|k0: int|
                            0 <= k0 < k3 && die_distance((#[trigger] move_seqs@[k0])@[0])
                                == larger_die(a, b) as int ==> exists|kk: int|
                                0 <= kk < kept@.len() && (#[trigger] kept@[kk])@ == move_seqs@[k0]@,
                    decreases move_seqs@.len() - k3,
                {
                    let ghost kept0 = kept@;
                    let first_move = move_seqs[k3][0];
                    if first_move.die_roll() == larger {
                        let s = move_seqs[k3].clone();
                        proof {
                            assert(s@ =~= move_seqs@[k3 as int]@);
                        }
                        kept.push(s);
                    }
                    proof {
                        assert forall|k0: int|
                            0 <= k0 < k3 + 1 && die_distance((#[trigger] move_seqs@[k0])@[0])
                                == larger_die(a, b) as int implies exists|kk: int|
                            0 <= kk < kept@.len() && (#[trigger] kept@[kk])@
                                == move_seqs@[k0]@ by {
                            if k0 < k3 {
                                let kk = choose|kk: int|
                                    0 <= kk < kept0.len() && (#[trigger] kept0[kk])@
                                        == move_seqs@[k0]@;
                                assert(kept@[kk]@ == move_seqs@[k0]@);
                            } else {
                                assert(kept@[kept@.len() - 1]@ == move_seqs@[k0]@);
                            }
                        }
                    }
                    k3 = k3 + 1;
                }
                proof {
                    assert forall|ms: Seq<Move>|
                        chosen_seq(bm, a, b, ms) implies exists|kk: int|
                        0 <= kk < kept@.len() && (#[trigger] kept@[kk])@ == ms by {
                        let k0 = choose|k0: int|
                            0 <= k0 < move_seqs@.len() && (#[trigger] move_seqs@[k0])@ == ms;
                        assert(die_distance(move_seqs@[k0]@[0]) == larger_die(a, b) as int);
                    }
                    // under the tie-break every surviving sequence is a
                    // single move
                    assert forall|kk: int|
                        0 <= kk < kept@.len() implies (#[trigger] kept@[kk])@.len() == 1 by {
                        lemma_candidate_len(bm, a, b, kept@[kk]@);
                    }
                }
                return kept;
            }
            proof {
                lemma_dedup_two(drs@);
                assert(!two_die_values_usable(bm, a, b)) by {
                    if two_die_values_usable(bm, a, b) {
                        let (ms1, ms2) = choose|ms1: Seq<Move>, ms2: Seq<Move>|
                            is_candidate(bm, a, b, ms1) && is_candidate(bm, a, b, ms2) && ms1.len()
                                == 1 && ms2.len() == 1 && die_distance(ms1[0]) != die_distance(
                                ms2[0],
                            );
                        let i = choose|i: int|
                            0 <= i < move_seqs@.len() && (#[trigger] move_seqs@[i])@ == ms1;
                        let j = choose|j: int|
                            0 <= j < move_seqs@.len() && (#[trigger] move_seqs@[j])@ == ms2;
                        assert(drs@[i] != drs@[j]);
                    }
                }
            }
        }
        proof {
            assert(!tie_break_applies(bm, a, b));
        }
        // every surviving sequence must play the maximal number of moves
        let mut kept: Vec<Vec<Move>> = Vec::new();
        let mut k4: usize = 0;
        while k4 < move_seqs.len()
            invariant
                k4 <= move_seqs@.len(),
                bm == self@,
                a == dice_roll.0,
                b == dice_roll.1,
                !tie_break_applies(bm, a, b),
                max_candidate_len(bm, a, b) == max_seq_len as int,
                forall|k0: int|
                    0 <= k0 < move_seqs@.len() ==> is_candidate(
                        bm,
                        a,
                        b,
                        (#[trigger] move_seqs@[k0])@,
                    ),
                forall|k0: int|
                    0 <= k0 < move_seqs@.len() ==> (#[trigger] move_seqs@[k0])@.len()
                        <= max_seq_len,
                forall|k0: int|
                    0 <= k0 < kept@.len() ==> chosen_seq(bm, a, b, (#[trigger] kept@[k0])@),
                forall|k0: int|
                    0 <= k0 < k4 && (#[trigger] move_seqs@[k0])@.len() == max_seq_len as int
                        ==> exists|kk: int|
                        0 <= kk < kept@.len() && (#[trigger] kept@[kk])@ == move_seqs@[k0]@,
            decreases move_seqs@.len() - k4,
        {
            let ghost kept0 = kept@;
            if move_seqs[k4].len() >= max_seq_len {
                let s = move_seqs[k4].clone();
                proof {
                    assert(s@ =~= move_seqs@[k4 as int]@);
                }
                kept.push(s);
            }
            proof {
                assert forall|k0: int|
                    0 <= k0 < k4 + 1 && (#[trigger] move_seqs@[k0])@.len()
                        == max_seq_len as int implies exists|kk: int|
                    0 <= kk < kept@.len() && (#[trigger] kept@[kk])@ == move_seqs@[k0]@ by {
                    if k0 < k4 {
                        let kk = choose|kk: int|
                            0 <= kk < kept0.len() && (#[trigger] kept0[kk])@ == move_seqs@[k0]@;
                        assert(kept@[kk]@ == move_seqs@[k0]@);
                    } else {
                        assert(kept@[kept@.len() - 1]@ == move_seqs@[k0]@);
                    }
                }
            }
            k4 = k4 + 1;
        }
        proof {
            assert forall|ms: Seq<Move>|
                chosen_seq(bm, a, b, ms) implies exists|kk: int|
                0 <= kk < kept@.len() && (#[trigger] kept@[kk])@ == ms by {
                let k0 = choose|k0: int|
                    0 <= k0 < move_seqs@.len() && (#[trigger] move_seqs@[k0])@ == ms;
                assert(move_seqs@[k0]@.len() == max_seq_len as int);
            }
            // outside the tie-break every surviving sequence has the
            // maximal length
            assert forall|kk: int|
                0 <= kk < kept@.len() implies 1 <= (#[trigger] kept@[kk])@.len() <= 4 by {
                lemma_candidate_len(bm, a, b, kept@[kk]@);
            }
        }
        kept
    }
}

} // verus!
