//! Move legality and move application.
//!
//! Legality is specified in the mover-relative (canonical) orientation:
//! White's indices are mirrored onto Black's numbering before the shared
//! rules run, and mirrored back afterwards.

use vstd::prelude::*;

use crate::board::BoardModel;
use crate::board::BoardState;
use crate::board::Move;
use crate::board::PlayerColor;
use crate::board::PointIndex;
use crate::board::PointState;
use crate::board::canon_index;
use crate::board::canon_move;
use crate::board::color_sum;
use crate::board::opposite_color;
use crate::board::point_count;
use crate::board::spec_bar_index;
use crate::board::spec_is_bar_point;
use crate::board::used_by;

verus! {

impl BoardModel {
    /// A canonical index the mover may move from: while any checker waits on
    /// the mover's bar only the bar may be played; otherwise every point the
    /// mover occupies qualifies.
    pub open spec fn relevant_origin(self, ci: int) -> bool {
        if self.on_bar() {
            ci == 0
        } else {
            0 <= ci < 26 && used_by(self.point_at(ci), self.cur_player)
        }
    }

    /// The mover has at least one point to move from.
    pub open spec fn has_origin(self) -> bool {
        exists|ci: int| self.relevant_origin(ci)
    }

    /// `f` is the mover's farthest-back origin: relevant, and no relevant
    /// origin lies at a smaller canonical index.
    pub open spec fn is_farthest_origin(self, f: int) -> bool {
        self.relevant_origin(f) && forall|ci: int| self.relevant_origin(ci) ==> f <= ci
    }

    /// The canonical index of the mover's farthest-back origin.
    pub open spec fn farthest_origin(self) -> int {
        choose|f: int| self.is_farthest_origin(f)
    }

    /// The mover may bear off: every checker of theirs stands in the home
    /// quarter (canonical indices 19 through 24) or is already off.
    pub open spec fn bearing_off(self) -> bool {
        self.has_origin() && self.farthest_origin() >= 19
    }

    /// A canonical destination on the board is open unless the opponent has
    /// made the point with two or more checkers; a lone opposing checker is
    /// a capturable blot.
    pub open spec fn dest_open(self, cj: int) -> bool {
        !(used_by(self.point_at(cj), opposite_color(self.cur_player)) && self.point_at(
            cj,
        ).checker_count >= 2)
    }

    /// Legality of the canonical move `ci -> cj` for a single die `d`.
    /// A destination on the board must lie exactly `d` past the origin and
    /// be open.  The bearing-off sentinel 25 is reached either exactly, or
    /// by overshooting from the farthest-back origin; both require the whole
    /// home quarter condition.
    pub open spec fn canon_move_legal(self, d: int, ci: int, cj: int) -> bool {
        &&& self.relevant_origin(ci)
        &&& if cj <= 24 {
            ci + d == cj && self.dest_open(cj)
        } else {
            cj == 25 && self.bearing_off() && (ci + d == 25 || (ci + d > 25
                && self.is_farthest_origin(ci)))
        }
    }

    /// Legality of a move in the board's own orientation.
    pub open spec fn move_legal(self, d: int, m: Move) -> bool {
        self.canon_move_legal(
            d,
            canon_index(self.cur_player, m.0 as int),
            canon_index(self.cur_player, m.1 as int),
        )
    }

    /// The board after applying one move; the turn does not change.
    pub open spec fn apply(self, m: Move) -> BoardModel {
        BoardModel {
            points: points_after(self.points, self.cur_player, m),
            cur_player: self.cur_player,
        }
    }

    /// The move may be applied: its origin is owned by the mover, and a
    /// destination held by the opponent holds exactly one checker.
    pub open spec fn can_apply(self, m: Move) -> bool {
        move_applicable(self.points, self.cur_player, m)
    }
}

/// The points after the mover's checker is lifted off the move's origin.
pub open spec fn lift_origin(ps: Seq<PointState>, m: Move) -> Seq<PointState> {
    ps.update(
        m.0 as int,
        PointState {
            checker_count: (ps[m.0 as int].checker_count - 1) as usize,
            checker_color: ps[m.0 as int].checker_color,
        },
    )
}

/// The precondition of applying a move, as the engine checks it: the origin
/// is owned by the mover, and if the destination is an on-board point held
/// by the opponent it holds exactly one checker (a blot).
pub open spec fn move_applicable(ps: Seq<PointState>, mover: PlayerColor, m: Move) -> bool {
    &&& ps.len() == 26
    &&& m.0 < 26
    &&& m.1 < 26
    &&& used_by(ps[m.0 as int], mover)
    &&& (!spec_is_bar_point(m.1 as int) && used_by(
        lift_origin(ps, m)[m.1 as int],
        opposite_color(mover),
    ) ==> lift_origin(ps, m)[m.1 as int].checker_count == 1)
}

/// The point states after one move is applied: the origin loses a checker;
/// a bearing-off move touches nothing else; a lone opposing checker on the
/// destination is relocated to its owner's bar; finally the destination
/// gains the mover's checker and color.
pub open spec fn points_after(ps: Seq<PointState>, mover: PlayerColor, m: Move) -> Seq<
    PointState,
> {
    let j = m.1 as int;
    let lifted = lift_origin(ps, m);
    if spec_is_bar_point(j) {
        lifted
    } else if used_by(lifted[j], opposite_color(mover)) {
        let bar = spec_bar_index(opposite_color(mover));
        let with_bar = lifted.update(
            bar,
            PointState {
                checker_count: (lifted[bar].checker_count + 1) as usize,
                checker_color: lifted[bar].checker_color,
            },
        );
        with_bar.update(j, PointState { checker_count: 1, checker_color: mover })
    } else {
        lifted.update(
            j,
            PointState {
                checker_count: (lifted[j].checker_count + 1) as usize,
                checker_color: mover,
            },
        )
    }
}

/// The point states after a whole sequence of moves is applied in order.
pub open spec fn points_after_seq(ps: Seq<PointState>, mover: PlayerColor, ms: Seq<Move>) -> Seq<
    PointState,
>
    decreases ms.len(),
{
    if ms.len() == 0 {
        ps
    } else {
        points_after_seq(points_after(ps, mover, ms[0]), mover, ms.drop_first())
    }
}

/// Every move of the sequence is applicable on the board it meets.
pub open spec fn seq_applicable(ps: Seq<PointState>, mover: PlayerColor, ms: Seq<Move>) -> bool
    decreases ms.len(),
{
    ms.len() == 0 || (move_applicable(ps, mover, ms[0]) && seq_applicable(
        points_after(ps, mover, ms[0]),
        mover,
        ms.drop_first(),
    ))
}

/// A player's total is never negative.
pub proof fn lemma_sum_nonneg(ps: Seq<PointState>, player: PlayerColor)
    ensures
        color_sum(ps, player) >= 0,
    decreases ps.len(),
{
    if ps.len() > 0 {
        lemma_sum_nonneg(ps.drop_last(), player);
    }
}

/// A single point never holds more of a player's checkers than the player's
/// total over the whole board.
pub proof fn lemma_point_le_sum(ps: Seq<PointState>, player: PlayerColor, k: int)
    requires
        0 <= k < ps.len(),
    ensures
        point_count(ps[k], player) <= color_sum(ps, player),
    decreases ps.len(),
{
    if k == ps.len() - 1 {
        lemma_sum_nonneg(ps.drop_last(), player);
    } else {
        lemma_point_le_sum(ps.drop_last(), player, k);
        assert(ps.drop_last()[k] == ps[k]);
        assert(point_count(ps.last(), player) >= 0);
    }
}

/// Updating one point changes a player's total by exactly the difference the
/// point itself contributes.
pub proof fn lemma_sum_update(ps: Seq<PointState>, player: PlayerColor, k: int, p: PointState)
    requires
        0 <= k < ps.len(),
    ensures
        color_sum(ps.update(k, p), player) == color_sum(ps, player) - point_count(ps[k], player)
            + point_count(p, player),
    decreases ps.len(),
{
    let updated = ps.update(k, p);
    if k == ps.len() - 1 {
        assert(updated.drop_last() =~= ps.drop_last());
        assert(updated.last() == p);
    } else {
        assert(updated.drop_last() =~= ps.drop_last().update(k, p));
        assert(updated.last() == ps.last());
        lemma_sum_update(ps.drop_last(), player, k, p);
    }
}

/// How one applied move changes the two players' totals: a bearing-off move
/// removes one of the mover's checkers from the board; every other move —
/// captures included — leaves both totals unchanged.
pub proof fn lemma_apply_move_sums(ps: Seq<PointState>, mover: PlayerColor, m: Move)
    requires
        move_applicable(ps, mover, m),
        ps[0].checker_color == PlayerColor::Black,
        ps[25].checker_color == PlayerColor::White,
        color_sum(ps, PlayerColor::Black) <= 15,
        color_sum(ps, PlayerColor::White) <= 15,
    ensures
        spec_is_bar_point(m.1 as int) ==> color_sum(points_after(ps, mover, m), mover)
            == color_sum(ps, mover) - 1,
        !spec_is_bar_point(m.1 as int) ==> color_sum(points_after(ps, mover, m), mover)
            == color_sum(ps, mover),
        color_sum(points_after(ps, mover, m), opposite_color(mover)) == color_sum(
            ps,
            opposite_color(mover),
        ),
{
    let opp = opposite_color(mover);
    let i = m.0 as int;
    let j = m.1 as int;
    let lifted = lift_origin(ps, m);
    lemma_sum_update(
        ps,
        mover,
        i,
        PointState {
            checker_count: (ps[i].checker_count - 1) as usize,
            checker_color: ps[i].checker_color,
        },
    );
    lemma_sum_update(
        ps,
        opp,
        i,
        PointState {
            checker_count: (ps[i].checker_count - 1) as usize,
            checker_color: ps[i].checker_color,
        },
    );
    if spec_is_bar_point(j) {
    } else if used_by(lifted[j], opp) {
        let bar = spec_bar_index(opp);
        // the origin is owned by the mover, so it cannot be the opponent's
        // bar slot, whose color is fixed
        assert(i != bar);
        assert(lifted[bar].checker_count + 1 <= 16) by {
            lemma_point_le_sum(ps, ps[bar].checker_color, bar);
        }
        let captured = PointState {
            checker_count: (lifted[bar].checker_count + 1) as usize,
            checker_color: lifted[bar].checker_color,
        };
        let with_bar = lifted.update(bar, captured);
        lemma_sum_update(lifted, mover, bar, captured);
        lemma_sum_update(lifted, opp, bar, captured);
        lemma_sum_update(with_bar, mover, j, PointState { checker_count: 1, checker_color: mover });
        lemma_sum_update(with_bar, opp, j, PointState { checker_count: 1, checker_color: mover });
    } else {
        assert(lifted[j].checker_count + 1 <= 16) by {
            if i != j {
                lemma_point_le_sum(ps, ps[j].checker_color, j);
            } else {
                lemma_point_le_sum(ps, ps[i].checker_color, i);
            }
        }
        let placed = PointState {
            checker_count: (lifted[j].checker_count + 1) as usize,
            checker_color: mover,
        };
        lemma_sum_update(lifted, mover, j, placed);
        lemma_sum_update(lifted, opp, j, placed);
    }
}

/// Applying an applicable move to a well-formed board yields a well-formed
/// board.
pub proof fn lemma_apply_move_wf(b: BoardModel, m: Move)
    requires
        b.wf(),
        b.can_apply(m),
    ensures
        b.apply(m).wf(),
{
    lemma_apply_move_sums(b.points, b.cur_player, m);
    lemma_sum_nonneg(b.points, b.cur_player);
}

/// On a well-formed board, every legal move may be applied: its origin is
/// owned by the mover and a held destination is a lone blot.
pub proof fn lemma_legal_move_applicable(b: BoardModel, d: int, m: Move)
    requires
        b.wf(),
        1 <= d <= 6,
        b.move_legal(d, m),
    ensures
        b.can_apply(m),
        m.0 <= 25,
        m.1 <= 25,
{
    let ci = canon_index(b.cur_player, m.0 as int);
    let cj = canon_index(b.cur_player, m.1 as int);
    assert(b.relevant_origin(ci));
    if b.on_bar() {
        assert(m.0 as int == spec_bar_index(b.cur_player));
    }
    assert(used_by(b.points[m.0 as int], b.cur_player));
    if !spec_is_bar_point(m.1 as int) {
        assert(1 <= cj <= 24);
        assert(ci < cj);
        assert(m.0 != m.1);
        assert(lift_origin(b.points, m)[m.1 as int] == b.points[m.1 as int]);
        assert(b.dest_open(cj));
    }
}

/// Whatever index satisfies `is_farthest_origin` is the one `choose` picks.
pub proof fn lemma_farthest_unique(b: BoardModel, f: int)
    requires
        b.is_farthest_origin(f),
    ensures
        b.farthest_origin() == f,
{
    assert(b.is_farthest_origin(b.farthest_origin())) by {
        assert(exists|x: int| b.is_farthest_origin(x));
    }
}

impl BoardState {
    /// All moves that are individually legal for a single die on this
    /// board, in the board's own orientation; the other die is ignored.
    /// The result is exactly the set of moves `m` with
    /// `self@.move_legal(die_roll as int, m)`.
    pub fn get_moves_for_single_die(&self, die_roll: usize) -> (r: Vec<Move>)
        requires
            1 <= die_roll <= 6,
        ensures
            forall|k: int|
                0 <= k < r@.len() ==> (#[trigger] r@[k]).0 <= 25 && r@[k].1 <= 25
                    && self@.move_legal(die_roll as int, r@[k]),
            forall|m: Move| self@.move_legal(die_roll as int, m) ==> r@.contains(m),
            self@.on_bar() ==> forall|k: int|
                0 <= k < r@.len() ==> (#[trigger] r@[k]).0 as int == spec_bar_index(
                    self.cur_player,
                ),
    {
        let ghost d = die_roll as int;
        // checkers on the bar must enter first
        let cur_player_bar = Self::get_bar_point(self.cur_player);
        let mut relevant_points: Vec<PointIndex>;
        let mut from_bar = false;
        if self.points[cur_player_bar].checker_count > 0 {
            relevant_points = Vec::new();
            relevant_points.push(cur_player_bar);
            from_bar = true;
        } else {
            relevant_points = self.used_points(self.cur_player);
        }
        if relevant_points.len() == 0 {
            proof {
                assert(!self@.on_bar());
                assert forall|m: Move| !(#[trigger] self@.move_legal(d, m)) by {
                    let ci = canon_index(self.cur_player, m.0 as int);
                    if self@.relevant_origin(ci) {
                        let ri = canon_index(self.cur_player, ci);
                        assert(used_by(self.points@[ri], self.cur_player));
                        assert(0 <= ri < 26);
                        assert(relevant_points@.contains(ri as usize));
                    }
                }
            }
            return Vec::new();
        }
        let ghost rp_real = relevant_points@;
        Self::reverse_white_points(self.cur_player, &mut relevant_points);
        proof {
            assert forall|k: int|
                0 <= k < relevant_points@.len() implies (#[trigger] relevant_points@[k]) <= 25
                    && self@.relevant_origin(relevant_points@[k] as int) by {
                if from_bar {
                    assert(relevant_points@[k] as int == canon_index(
                        self.cur_player,
                        spec_bar_index(self.cur_player),
                    ));
                } else {
                    assert(used_by(self.points@[rp_real[k] as int], self.cur_player));
                    assert(canon_index(
                        self.cur_player,
                        relevant_points@[k] as int,
                    ) == rp_real[k] as int);
                }
            }
            assert forall|ci: int|
                self@.relevant_origin(ci) implies relevant_points@.contains(ci as usize) by {
                if from_bar {
                    assert(relevant_points@[0] as int == canon_index(
                        self.cur_player,
                        spec_bar_index(self.cur_player),
                    ));
                    assert(relevant_points@[0] == 0usize);
                } else {
                    let ri = canon_index(self.cur_player, ci);
                    assert(used_by(self.points@[ri], self.cur_player));
                    assert(rp_real.contains(ri as usize));
                    let k = choose|k: int| 0 <= k < rp_real.len() && rp_real[k] == ri as usize;
                    assert(relevant_points@[k] as int == canon_index(self.cur_player, ri));
                    assert(relevant_points@[k] == ci as usize);
                }
            }
        }
        // the farthest-back origin decides bearing-off eligibility
        let mut farthest: usize = relevant_points[0];
        let mut idx: usize = 1;
        while idx < relevant_points.len()
            invariant
                1 <= idx <= relevant_points@.len(),
                forall|k: int|
                    0 <= k < relevant_points@.len() ==> (#[trigger] relevant_points@[k]) <= 25
                        && self@.relevant_origin(relevant_points@[k] as int),
                self@.relevant_origin(farthest as int),
                farthest <= 25,
                forall|k: int| 0 <= k < idx ==> farthest <= #[trigger] relevant_points@[k],
            decreases relevant_points@.len() - idx,
        {
            if relevant_points[idx] < farthest {
                farthest = relevant_points[idx];
            }
            idx = idx + 1;
        }
        proof {
            assert forall|ci: int| self@.relevant_origin(ci) implies farthest as int <= ci by {
                assert(relevant_points@.contains(ci as usize));
                let k = choose|k: int|
                    0 <= k < relevant_points@.len() && relevant_points@[k] == ci as usize;
                assert(farthest <= relevant_points@[k]);
            }
            assert(self@.is_farthest_origin(farthest as int));
            lemma_farthest_unique(self@, farthest as int);
        }
        let bearing_off = farthest >= 19;
        let mut moves: Vec<Move> = Vec::new();
        let mut idx2: usize = 0;
        while idx2 < relevant_points.len()
            invariant
                idx2 <= relevant_points@.len(),
                1 <= die_roll <= 6,
                d == die_roll as int,
                forall|k: int|
                    0 <= k < relevant_points@.len() ==> (#[trigger] relevant_points@[k]) <= 25
                        && self@.relevant_origin(relevant_points@[k] as int),
                forall|ci2: int|
                    self@.relevant_origin(ci2) ==> relevant_points@.contains(ci2 as usize),
                self@.is_farthest_origin(farthest as int),
                self@.farthest_origin() == farthest as int,
                bearing_off == (farthest >= 19),
                farthest <= 25,
                forall|k: int|
                    0 <= k < moves@.len() ==> (#[trigger] moves@[k]).0 <= 25 && moves@[k].1 <= 25
                        && self@.canon_move_legal(d, moves@[k].0 as int, moves@[k].1 as int),
                forall|ci2: int, cj2: int|
                    #[trigger] self@.canon_move_legal(d, ci2, cj2) && (exists|k0: int|
                        0 <= k0 < idx2 && relevant_points@[k0] as int == ci2) ==> moves@.contains(
                        Move(ci2 as usize, cj2 as usize),
                    ),
            decreases relevant_points@.len() - idx2,
        {
            let i = relevant_points[idx2];
            let ghost ci = i as int;
            let j = i + die_roll;
            let ghost moves0 = moves@;
            if j <= 24 {
                let real_j = Self::reverse_white_point(self.cur_player, j);
                let end_point = self.points[real_j];
                // a destination made by the opponent (two or more checkers)
                // is closed; a lone opposing checker is a capturable blot
                let blocked = end_point.is_used_by(self.cur_player.inverse())
                    && end_point.checker_count >= 2;
                if !blocked {
                    moves.push(Move(i, j));
                }
                proof {
                    assert(self@.dest_open(j as int) == !blocked);
                }
            } else if bearing_off {
                if j == 25 {
                    moves.push(Move(i, 25));
                } else if i == farthest {
                    // only the farthest-back checker may overshoot
                    moves.push(Move(i, 25));
                }
            }
            proof {
                assert forall|mm: Move| moves0.contains(mm) implies moves@.contains(mm) by {
                    let k = choose|k: int| 0 <= k < moves0.len() && moves0[k] == mm;
                    assert(moves@[k] == mm);
                }
                assert forall|ci2: int, cj2: int|
                    #[trigger] self@.canon_move_legal(d, ci2, cj2) && (exists|k0: int|
                        0 <= k0 < idx2 + 1 && relevant_points@[k0] as int == ci2)
                        implies moves@.contains(Move(ci2 as usize, cj2 as usize)) by {
                    let k0 = choose|k0: int|
                        0 <= k0 < idx2 + 1 && relevant_points@[k0] as int == ci2;
                    if k0 < idx2 {
                        assert(moves0.contains(Move(ci2 as usize, cj2 as usize)));
                    } else if ci2 == ci {
                        if cj2 <= 24 {
                            assert(cj2 == ci + d && self@.dest_open(cj2));
                            assert(moves@[moves@.len() - 1] == Move(ci2 as usize, cj2 as usize));
                        } else {
                            assert(cj2 == 25);
                            if ci + d > 25 {
                                assert(self@.is_farthest_origin(ci2));
                                lemma_farthest_unique(self@, ci2);
                                assert(i == farthest);
                            }
                            assert(moves@[moves@.len() - 1] == Move(ci2 as usize, cj2 as usize));
                        }
                    }
                }
            }
            idx2 = idx2 + 1;
        }
        let ghost mc = moves@;
        Self::reverse_white_moves(self.cur_player, &mut moves);
        proof {
            let player = self.cur_player;
            assert forall|k: int|
                0 <= k < moves@.len() implies (#[trigger] moves@[k]).0 <= 25 && moves@[k].1 <= 25
                    && self@.move_legal(d, moves@[k]) by {
                let m0 = mc[k];
                assert(moves@[k] == canon_move(player, m0));
                assert(canon_index(player, canon_move(player, m0).0 as int) == m0.0 as int);
                assert(canon_index(player, canon_move(player, m0).1 as int) == m0.1 as int);
            }
            assert forall|m: Move| self@.move_legal(d, m) implies moves@.contains(m) by {
                let ci2 = canon_index(player, m.0 as int);
                let cj2 = canon_index(player, m.1 as int);
                assert(self@.canon_move_legal(d, ci2, cj2));
                assert(self@.relevant_origin(ci2));
                assert(relevant_points@.contains(ci2 as usize));
                let k0 = choose|k0: int|
                    0 <= k0 < relevant_points@.len() && relevant_points@[k0] == ci2 as usize;
                assert(relevant_points@[k0] as int == ci2);
                assert(mc.contains(Move(ci2 as usize, cj2 as usize)));
                let k = choose|k: int|
                    0 <= k < mc.len() && mc[k] == Move(ci2 as usize, cj2 as usize);
                assert(moves@[k] == canon_move(player, mc[k]));
                assert(moves@[k] == m);
            }
            if self@.on_bar() {
                assert forall|k: int|
                    0 <= k < moves@.len() implies (#[trigger] moves@[k]).0 as int == spec_bar_index(
                    player,
                ) by {
                    let m0 = mc[k];
                    assert(self@.relevant_origin(m0.0 as int));
                    assert(m0.0 as int == 0);
                    assert(moves@[k] == canon_move(player, m0));
                }
            }
        }
        moves
    }

    /// Apply one move in place: lift a checker off the origin; a bearing-off
    /// move is then done; otherwise capture a lone opposing checker to its
    /// owner's bar, and place the mover's checker on the destination.
    pub fn apply_move(&mut self, m: Move)
        requires
            old(self)@.wf(),
            old(self)@.can_apply(m),
        ensures
            final(self).cur_player == old(self).cur_player,
            final(self).points@ == points_after(old(self).points@, old(self).cur_player, m),
            final(self)@.wf(),
    {
        proof {
            lemma_apply_move_wf(old(self)@, m);
        }
        let i = m.0;
        let j = m.1;
        let pi = self.points[i];
        self.points[i] = PointState {
            checker_count: pi.checker_count - 1,
            checker_color: pi.checker_color,
        };
        if Self::is_bar_point(j) {
            // bearing off: the checker simply leaves the board
            return ;
        }
        let pj = self.points[j];
        if pj.is_used_by(self.cur_player.inverse()) {
            let bar_index = Self::get_bar_point(pj.checker_color);
            let pb = self.points[bar_index];
            proof {
                assert(pb.checker_count + 1 <= 16) by {
                    assert(i != spec_bar_index(opposite_color(self.cur_player)));
                    lemma_point_le_sum(
                        old(self).points@,
                        old(self).points@[bar_index as int].checker_color,
                        bar_index as int,
                    );
                }
            }
            self.points[bar_index] = PointState {
                checker_count: pb.checker_count + 1,
                checker_color: pb.checker_color,
            };
            self.points[j] = PointState { checker_count: 1, checker_color: self.cur_player };
        } else {
            proof {
                assert(pj.checker_count + 1 <= 16) by {
                    if i != j {
                        lemma_point_le_sum(
                            old(self).points@,
                            old(self).points@[j as int].checker_color,
                            j as int,
                        );
                    } else {
                        lemma_point_le_sum(
                            old(self).points@,
                            old(self).points@[i as int].checker_color,
                            i as int,
                        );
                    }
                }
            }
            self.points[j] = PointState {
                checker_count: pj.checker_count + 1,
                checker_color: self.cur_player,
            };
        }
    }

    /// Apply a whole sequence of moves in order, in place.
    pub fn apply_move_seq(&mut self, move_seq: &Vec<Move>)
        requires
            old(self)@.wf(),
            seq_applicable(old(self).points@, old(self).cur_player, move_seq@),
        ensures
            final(self).cur_player == old(self).cur_player,
            final(self).points@ == points_after_seq(
                old(self).points@,
                old(self).cur_player,
                move_seq@,
            ),
            final(self)@.wf(),
    {
        let ghost ps0 = self.points@;
        let ghost mover = self.cur_player;
        proof {
            assert(move_seq@.skip(0) =~= move_seq@);
            assert(move_seq@.take(0) =~= Seq::<Move>::empty());
        }
        let mut k: usize = 0;
        while k < move_seq.len()
            invariant
                k <= move_seq@.len(),
                self.cur_player == mover,
                self@.wf(),
                self.points@ == points_after_seq(ps0, mover, move_seq@.take(k as int)),
                seq_applicable(self.points@, mover, move_seq@.skip(k as int)),
            decreases move_seq@.len() - k,
        {
            let m = move_seq[k];
            proof {
                assert(move_seq@.skip(k as int)[0] == m);
                assert(move_seq@.skip(k as int).drop_first() =~= move_seq@.skip(k as int + 1));
                lemma_points_after_seq_snoc(ps0, mover, move_seq@, k as int);
            }
            self.apply_move(m);
            k = k + 1;
        }
        proof {
            assert(move_seq@.take(move_seq@.len() as int) =~= move_seq@);
        }
    }

    /// The board that results from applying one move to a copy of this one.
    pub fn with_move(&self, m: Move) -> (r: Self)
        requires
            self@.wf(),
            self@.can_apply(m),
        ensures
            r.cur_player == self.cur_player,
            r.points@ == points_after(self.points@, self.cur_player, m),
            r@.wf(),
    {
        let mut ret = self.clone();
        ret.apply_move(m);
        ret
    }

    /// The board that results from applying a whole move sequence to a copy
    /// of this one.
    pub fn with_move_seq(&self, move_seq: &Vec<Move>) -> (r: Self)
        requires
            self@.wf(),
            seq_applicable(self.points@, self.cur_player, move_seq@),
        ensures
            r.cur_player == self.cur_player,
            r.points@ == points_after_seq(self.points@, self.cur_player, move_seq@),
            r@.wf(),
    {
        let mut ret = self.clone();
        ret.apply_move_seq(move_seq);
        ret
    }
}

/// Applying the first `k + 1` moves of a sequence is applying the first `k`
/// and then the next one.
pub proof fn lemma_points_after_seq_snoc(
    ps: Seq<PointState>,
    mover: PlayerColor,
    ms: Seq<Move>,
    k: int,
)
    requires
        0 <= k < ms.len(),
    ensures
        points_after_seq(ps, mover, ms.take(k + 1)) == points_after(
            points_after_seq(ps, mover, ms.take(k)),
            mover,
            ms[k],
        ),
    decreases k,
{
    if k == 0 {
        assert(ms.take(1).drop_first() =~= Seq::<Move>::empty());
        assert(ms.take(0) =~= Seq::<Move>::empty());
        assert(ms.take(1)[0] == ms[0]);
        assert(points_after_seq(ps, mover, ms.take(1)) == points_after_seq(
            points_after(ps, mover, ms[0]),
            mover,
            Seq::<Move>::empty(),
        ));
    } else {
        let tail = ms.drop_first();
        let stepped = points_after(ps, mover, ms[0]);
        assert(ms.take(k + 1)[0] == ms[0]);
        assert(ms.take(k + 1).drop_first() =~= tail.take(k));
        assert(points_after_seq(ps, mover, ms.take(k + 1)) == points_after_seq(
            stepped,
            mover,
            tail.take(k),
        ));
        assert(ms.take(k)[0] == ms[0]);
        assert(ms.take(k).drop_first() =~= tail.take(k - 1));
        assert(points_after_seq(ps, mover, ms.take(k)) == points_after_seq(
            stepped,
            mover,
            tail.take(k - 1),
        ));
        lemma_points_after_seq_snoc(stepped, mover, tail, k - 1);
        assert(tail[k - 1] == ms[k]);
    }
}

} // verus!
