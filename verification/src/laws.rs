//! The engine's guarantees, stated and proved once over the board model:
//! checker conservation, the effect of captures, the forced-bar-entry and
//! bearing-off rules, the shape of a turn's surviving sequences, and win
//! detection.

use vstd::prelude::*;

use crate::board::BoardModel;
use crate::board::Move;
use crate::board::PlayerColor;
use crate::board::PointState;
use crate::board::canon_index;
use crate::board::color_gone;
use crate::board::color_sum;
use crate::board::die_distance;
use crate::board::opposite_color;
use crate::board::spec_bar_index;
use crate::board::spec_is_bar_point;
use crate::board::start_point;
use crate::board::used_by;
use crate::board::lemma_start_sums;
use crate::moves::lift_origin;
use crate::moves::move_applicable;
use crate::moves::points_after;
use crate::moves::lemma_apply_move_sums;
use crate::search::chosen_seq;
use crate::search::is_candidate;
use crate::search::larger_die;
use crate::search::max_candidate_len;
use crate::search::tie_break_applies;
use crate::search::two_die_values_usable;
use crate::search::lemma_candidate_len;

verus! {

/// Checker conservation.  The starting layout holds fifteen checkers of
/// each color; applying a move preserves both totals exactly, except that a
/// bearing-off move removes one of the mover's checkers from the board;
/// ending a turn touches no point at all.  Only bearing off ever changes a
/// total, so both totals stay at fifteen until bearing off begins.
pub proof fn lemma_checker_conservation(ps: Seq<PointState>, mover: PlayerColor, m: Move)
    requires
        move_applicable(ps, mover, m),
        ps[0].checker_color == PlayerColor::Black,
        ps[25].checker_color == PlayerColor::White,
        color_sum(ps, PlayerColor::Black) <= 15,
        color_sum(ps, PlayerColor::White) <= 15,
    ensures
        color_sum(points_after(ps, mover, m), opposite_color(mover)) == color_sum(
            ps,
            opposite_color(mover),
        ),
        !spec_is_bar_point(m.1 as int) ==> color_sum(points_after(ps, mover, m), mover)
            == color_sum(ps, mover),
        spec_is_bar_point(m.1 as int) ==> color_sum(points_after(ps, mover, m), mover)
            == color_sum(ps, mover) - 1,
        color_sum(Seq::new(26, |i: int| start_point(i)), PlayerColor::Black) == 15,
        color_sum(Seq::new(26, |i: int| start_point(i)), PlayerColor::White) == 15,
{
    lemma_apply_move_sums(ps, mover, m);
    lemma_start_sums();
}

/// A non-capturing move takes exactly one checker off its origin and puts
/// exactly one, in the mover's color, on its destination; every other point
/// is untouched.
pub proof fn lemma_apply_non_capturing(ps: Seq<PointState>, mover: PlayerColor, m: Move)
    requires
        move_applicable(ps, mover, m),
        m.0 != m.1,
        !spec_is_bar_point(m.1 as int),
        !used_by(ps[m.1 as int], opposite_color(mover)),
        color_sum(ps, PlayerColor::Black) <= 15,
        color_sum(ps, PlayerColor::White) <= 15,
    ensures
        points_after(ps, mover, m)[m.0 as int].checker_count == ps[m.0 as int].checker_count - 1,
        points_after(ps, mover, m)[m.0 as int].checker_color == ps[m.0 as int].checker_color,
        points_after(ps, mover, m)[m.1 as int].checker_count == ps[m.1 as int].checker_count + 1,
        points_after(ps, mover, m)[m.1 as int].checker_color == mover,
        forall|k: int|
            0 <= k < 26 && k != m.0 as int && k != m.1 as int ==> points_after(ps, mover, m)[k]
                == ps[k],
{
    let i = m.0 as int;
    let j = m.1 as int;
    assert(lift_origin(ps, m)[j] == ps[j]);
    crate::moves::lemma_point_le_sum(ps, ps[j].checker_color, j);
}

/// A move onto a lone opposing checker relocates that checker to its
/// owner's bar and leaves the destination holding exactly the mover's one
/// checker; the origin loses one checker and every other point is
/// untouched.
pub proof fn lemma_apply_capturing(ps: Seq<PointState>, mover: PlayerColor, m: Move)
    requires
        move_applicable(ps, mover, m),
        !spec_is_bar_point(m.1 as int),
        used_by(ps[m.1 as int], opposite_color(mover)),
        ps[0].checker_color == PlayerColor::Black,
        ps[25].checker_color == PlayerColor::White,
        color_sum(ps, PlayerColor::Black) <= 15,
        color_sum(ps, PlayerColor::White) <= 15,
    ensures
        ps[m.1 as int].checker_count == 1,
        points_after(ps, mover, m)[spec_bar_index(opposite_color(mover))].checker_count == ps[
            spec_bar_index(opposite_color(mover))
        ].checker_count + 1,
        points_after(ps, mover, m)[m.1 as int] == (PointState {
            checker_count: 1,
            checker_color: mover,
        }),
        points_after(ps, mover, m)[m.0 as int].checker_count == ps[m.0 as int].checker_count - 1,
        forall|k: int|
            0 <= k < 26 && k != m.0 as int && k != m.1 as int && k != spec_bar_index(
                opposite_color(mover),
            ) ==> points_after(ps, mover, m)[k] == ps[k],
{
    let i = m.0 as int;
    let j = m.1 as int;
    let bar = spec_bar_index(opposite_color(mover));
    assert(i != j);
    assert(i != bar);
    assert(lift_origin(ps, m)[j] == ps[j]);
    assert(lift_origin(ps, m)[bar] == ps[bar]);
    crate::moves::lemma_point_le_sum(ps, ps[bar].checker_color, bar);
}

/// While the mover has a checker on their bar, every legal move starts at
/// the bar, whatever else they occupy.
pub proof fn lemma_bar_entry_forced(b: BoardModel, d: int, m: Move)
    requires
        b.on_bar(),
        b.move_legal(d, m),
    ensures
        m.0 as int == spec_bar_index(b.cur_player),
{
    assert(canon_index(b.cur_player, m.0 as int) == 0);
}

/// The least relevant origin bounded by `w` exists.
proof fn lemma_min_origin(b: BoardModel, w: int)
    requires
        b.relevant_origin(w),
        0 <= w < 26,
    ensures
        exists|f: int| b.is_farthest_origin(f),
    decreases w,
{
    if forall|ci: int| b.relevant_origin(ci) ==> w <= ci {
        assert(b.is_farthest_origin(w));
    } else {
        let smaller = choose|ci: int| b.relevant_origin(ci) && ci < w;
        assert(0 <= smaller);
        lemma_min_origin(b, smaller);
    }
}

/// Whenever the mover has any origin at all, a farthest-back origin exists
/// and is the one the model names.
pub proof fn lemma_farthest_exists(b: BoardModel)
    requires
        b.has_origin(),
    ensures
        b.is_farthest_origin(b.farthest_origin()),
{
    let w = choose|ci: int| b.relevant_origin(ci);
    if b.on_bar() {
        assert(b.relevant_origin(0));
        lemma_min_origin(b, 0);
    } else {
        lemma_min_origin(b, w);
    }
}

/// Bearing off is legal only from the home quarter: a canonical move to the
/// off-board sentinel requires the farthest-back origin to be at index 19
/// or beyond, so the origin itself is as well; and an overshooting origin
/// must be the farthest-back one — every other origin must land exactly.
pub proof fn lemma_bearing_off_only_from_home(b: BoardModel, d: int, ci: int)
    requires
        b.canon_move_legal(d, ci, 25),
    ensures
        b.bearing_off(),
        b.farthest_origin() >= 19,
        ci >= 19,
        ci + d > 25 ==> b.is_farthest_origin(ci),
{
    lemma_farthest_exists(b);
    assert(b.farthest_origin() <= ci);
}

/// Every candidate's length is bounded by the maximal candidate length.
pub proof fn lemma_len_le_max(bm: BoardModel, a: usize, b: usize, ms: Seq<Move>)
    requires
        is_candidate(bm, a, b, ms),
    ensures
        ms.len() <= max_candidate_len(bm, a, b),
{
    lemma_candidate_len(bm, a, b, ms);
}

/// All sequences that survive a turn's filters have one and the same
/// length.
pub proof fn lemma_chosen_equal_lengths(
    bm: BoardModel,
    a: usize,
    b: usize,
    ms1: Seq<Move>,
    ms2: Seq<Move>,
)
    requires
        chosen_seq(bm, a, b, ms1),
        chosen_seq(bm, a, b, ms2),
    ensures
        ms1.len() == ms2.len(),
{
    if tie_break_applies(bm, a, b) {
        lemma_len_le_max(bm, a, b, ms1);
        lemma_len_le_max(bm, a, b, ms2);
        lemma_candidate_len(bm, a, b, ms1);
        lemma_candidate_len(bm, a, b, ms2);
    }
}

/// When at most one die can be played but each die on its own yields a
/// usable single move, only moves consuming the larger die survive.
pub proof fn lemma_larger_die_preferred(
    bm: BoardModel,
    a: usize,
    b: usize,
    ms_a: Seq<Move>,
    ms_b: Seq<Move>,
    ms: Seq<Move>,
)
    requires
        a != b,
        max_candidate_len(bm, a, b) == 1,
        is_candidate(bm, a, b, ms_a),
        ms_a.len() == 1,
        die_distance(ms_a[0]) == a as int,
        is_candidate(bm, a, b, ms_b),
        ms_b.len() == 1,
        die_distance(ms_b[0]) == b as int,
        chosen_seq(bm, a, b, ms),
    ensures
        die_distance(ms[0]) == larger_die(a, b) as int,
{
    assert(two_die_values_usable(bm, a, b));
    assert(tie_break_applies(bm, a, b));
}

/// Win detection names a color exactly when that color has no checker left
/// on any of the 26 points while the opponent still has at least one.
pub proof fn lemma_winner_characterization(b: BoardModel, c: PlayerColor)
    ensures
        b.winner() == Some(c) <==> (color_gone(b.points, c) && !color_gone(
            b.points,
            opposite_color(c),
        )),
{
}

} // verus!
