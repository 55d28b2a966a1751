//! Board representation: players, points, moves, and the board state with
//! its construction, bookkeeping helpers and win detection.

use vstd::prelude::*;

verus! {

/// One of the two players.
#[derive(Clone, Copy, Debug, PartialEq, Eq, Structural)]
pub enum PlayerColor {
    Black,
    White,
}

/// The color of the opposing player.
pub open spec fn opposite_color(c: PlayerColor) -> PlayerColor {
    match c {
        PlayerColor::Black => PlayerColor::White,
        PlayerColor::White => PlayerColor::Black,
    }
}

impl PlayerColor {
    /// The opposing player's color.
    pub fn inverse(self) -> (r: Self)
        ensures
            r == opposite_color(self),
    {
        match self {
            PlayerColor::Black => PlayerColor::White,
            PlayerColor::White => PlayerColor::Black,
        }
    }
}

/// Occupancy of a single board location: how many checkers stand there and
/// whose they are.  The color is meaningless when the count is zero; it is
/// simply retained from the last occupant.
#[derive(Clone, Copy, Debug, PartialEq, Eq, Structural)]
pub struct PointState {
    pub checker_count: usize,
    pub checker_color: PlayerColor,
}

/// A point currently holds at least one checker of the given player.
pub open spec fn used_by(p: PointState, player: PlayerColor) -> bool {
    p.checker_color == player && p.checker_count > 0
}

impl PointState {
    fn new(checker_count: usize, checker_color: PlayerColor) -> (r: Self)
        ensures
            r.checker_count == checker_count,
            r.checker_color == checker_color,
    {
        Self { checker_count, checker_color }
    }

    /// No checker stands on this point.
    pub fn is_empty(&self) -> (r: bool)
        ensures
            r == (self.checker_count == 0),
    {
        self.checker_count == 0
    }

    /// At least one of the given player's checkers stands on this point.
    pub fn is_used_by(&self, player: PlayerColor) -> (r: bool)
        ensures
            r == used_by(*self, player),
    {
        self.checker_color == player && self.checker_count > 0
    }
}

pub type PointIndex = usize;

/// An ordered pair `(from, to)` of point indices, in the board's own
/// orientation.
#[derive(Clone, Copy, Debug, PartialEq, Eq, Structural)]
pub struct Move(pub PointIndex, pub PointIndex);

/// The die value a move consumes: the distance between its two points.
pub open spec fn die_distance(m: Move) -> int {
    if m.1 >= m.0 {
        m.1 - m.0
    } else {
        m.0 - m.1
    }
}

impl Move {
    /// The die roll used to make this move.
    pub fn die_roll(&self) -> (r: usize)
        ensures
            r as int == die_distance(*self),
    {
        if self.1 >= self.0 {
            self.1 - self.0
        } else {
            self.0 - self.1
        }
    }
}

/// The mathematical model of a board: the 26 point states and whose turn it
/// is.  Contracts throughout the crate are stated over this model.
#[verifier::ext_equal]
pub struct BoardModel {
    pub points: Seq<PointState>,
    pub cur_player: PlayerColor,
}

/// The full board: index 0 is Black's bar, index 25 is White's bar, indices
/// 1 through 24 are the standard points numbered from Black's home-entry
/// perspective.
#[derive(Clone, Copy, Debug)]
pub struct BoardState {
    pub points: [PointState; 26],
    pub cur_player: PlayerColor,
}

impl View for BoardState {
    type V = BoardModel;

    open spec fn view(&self) -> BoardModel {
        BoardModel { points: self.points@, cur_player: self.cur_player }
    }
}

/// The index of the point directly opposite, mirroring the board.
pub open spec fn opposite_index(i: int) -> int {
    25 - i
}

/// Mover-relative (canonical) index: White's indices are mirrored so that
/// every player enters at low indices and bears off past index 24.
pub open spec fn canon_index(player: PlayerColor, i: int) -> int {
    if player == PlayerColor::White {
        25 - i
    } else {
        i
    }
}

/// The index of the fake point that holds the given player's captured
/// checkers.
pub open spec fn spec_bar_index(player: PlayerColor) -> int {
    if player == PlayerColor::Black {
        0
    } else {
        25
    }
}

/// An index outside the 24 ordinary points: one of the two bar slots, which
/// also serve as the bearing-off destinations.
pub open spec fn spec_is_bar_point(i: int) -> bool {
    i < 1 || i > 24
}

/// A move with both of its indices mirrored for White; Black's moves are
/// left as they are.
pub open spec fn canon_move(player: PlayerColor, m: Move) -> Move {
    Move(canon_index(player, m.0 as int) as usize, canon_index(player, m.1 as int) as usize)
}

/// How many checkers the point contributes to the given player's total.
pub open spec fn point_count(p: PointState, player: PlayerColor) -> int {
    if used_by(p, player) {
        p.checker_count as int
    } else {
        0
    }
}

/// The given player's total number of checkers on the board, bars included.
pub open spec fn color_sum(ps: Seq<PointState>, player: PlayerColor) -> int
    decreases ps.len(),
{
    if ps.len() == 0 {
        0
    } else {
        color_sum(ps.drop_last(), player) + point_count(ps.last(), player)
    }
}

/// The given player has no checkers anywhere on the board.
pub open spec fn color_gone(ps: Seq<PointState>, player: PlayerColor) -> bool {
    forall|i: int| 0 <= i < ps.len() ==> !used_by(ps[i], player)
}

impl BoardModel {
    /// Well-formedness of a board: 26 points, at most fifteen checkers per
    /// player in play, and each bar slot permanently colored for its owner.
    pub open spec fn wf(self) -> bool {
        &&& self.points.len() == 26
        &&& color_sum(self.points, PlayerColor::Black) <= 15
        &&& color_sum(self.points, PlayerColor::White) <= 15
        &&& self.points[0].checker_color == PlayerColor::Black
        &&& self.points[25].checker_color == PlayerColor::White
    }

    /// The point at a canonical (mover-relative) index.
    pub open spec fn point_at(self, ci: int) -> PointState {
        self.points[canon_index(self.cur_player, ci)]
    }

    /// The mover has at least one checker waiting on their bar.
    pub open spec fn on_bar(self) -> bool {
        self.points[spec_bar_index(self.cur_player)].checker_count > 0
    }

    /// Who has won, if anyone: a player wins once no checker of theirs is
    /// left anywhere on the board while the opponent still has at least one.
    pub open spec fn winner(self) -> Option<PlayerColor> {
        if color_gone(self.points, PlayerColor::Black) && !color_gone(
            self.points,
            PlayerColor::White,
        ) {
            Some(PlayerColor::Black)
        } else if color_gone(self.points, PlayerColor::White) && !color_gone(
            self.points,
            PlayerColor::Black,
        ) {
            Some(PlayerColor::White)
        } else {
            None
        }
    }
}

/// The point state at the given index in the standard starting layout.
pub open spec fn start_point(i: int) -> PointState {
    if i == 1 {
        PointState { checker_count: 2, checker_color: PlayerColor::Black }
    } else if i == 6 {
        PointState { checker_count: 5, checker_color: PlayerColor::White }
    } else if i == 8 {
        PointState { checker_count: 3, checker_color: PlayerColor::White }
    } else if i == 12 {
        PointState { checker_count: 5, checker_color: PlayerColor::Black }
    } else if i == 13 {
        PointState { checker_count: 5, checker_color: PlayerColor::White }
    } else if i == 17 {
        PointState { checker_count: 3, checker_color: PlayerColor::Black }
    } else if i == 19 {
        PointState { checker_count: 5, checker_color: PlayerColor::Black }
    } else if i == 24 {
        PointState { checker_count: 2, checker_color: PlayerColor::White }
    } else if 13 <= i < 26 {
        PointState { checker_count: 0, checker_color: PlayerColor::White }
    } else {
        PointState { checker_count: 0, checker_color: PlayerColor::Black }
    }
}

impl BoardState {
    /// The index of the point directly opposite.
    fn get_opposite(index: PointIndex) -> (r: PointIndex)
        requires
            index <= 25,
        ensures
            r as int == opposite_index(index as int),
    {
        25 - index
    }

    /// A board in the standard backgammon starting layout, Black to move.
    pub fn new() -> (r: Self)
        ensures
            r@.points.len() == 26,
            forall|i: int| 0 <= i < 26 ==> (#[trigger] r@.points[i]) == start_point(i),
            r@.cur_player == PlayerColor::Black,
            r@.wf(),
    {
        let mut points = [PointState::new(0, PlayerColor::Black);26];
        points[1] = PointState::new(2, PlayerColor::Black);
        points[6] = PointState::new(5, PlayerColor::White);
        points[8] = PointState::new(3, PlayerColor::White);
        points[12] = PointState::new(5, PlayerColor::Black);
        let mut i: usize = 13;
        while i < 26
            invariant
                13 <= i <= 26,
                forall|k: int| 0 <= k < 13 ==> points@[k] == start_point(k),
                forall|k: int| 13 <= k < i ==> points@[k] == start_point(k),
            decreases 26 - i,
        {
            let opposite = points[Self::get_opposite(i)];
            proof {
                assert(opposite == start_point(25 - i as int));
            }
            points[i] = PointState::new(opposite.checker_count, opposite.checker_color.inverse());
            proof {
                assert(points@[i as int] == start_point(i as int));
            }
            i = i + 1;
        }
        let r = BoardState { points, cur_player: PlayerColor::Black };
        proof {
            lemma_start_sums();
            assert(r@.points =~= Seq::new(26, |i: int| start_point(i)));
        }
        r
    }

    /// The single letter that stands for a player's checkers in a textual
    /// rendering.
    pub fn get_checker_string(color: PlayerColor) -> (r: &'static str)
        ensures
            color == PlayerColor::Black ==> r@ == "b"@,
            color == PlayerColor::White ==> r@ == "w"@,
    {
        match color {
            PlayerColor::Black => "b",
            PlayerColor::White => "w",
        }
    }

    /// The indices of every point the given player currently occupies, in
    /// increasing order.
    pub fn used_points(&self, player: PlayerColor) -> (r: Vec<PointIndex>)
        ensures
            forall|k: int|
                0 <= k < r@.len() ==> r@[k] < 26 && used_by(self.points@[r@[k] as int], player),
            forall|i: usize| i < 26 && used_by(self.points@[i as int], player) ==> r@.contains(i),
            forall|k1: int, k2: int| 0 <= k1 < k2 < r@.len() ==> r@[k1] < r@[k2],
    {
        let mut r: Vec<PointIndex> = Vec::new();
        let mut i: usize = 0;
        while i < 26
            invariant
                i <= 26,
                forall|k: int|
                    0 <= k < r@.len() ==> r@[k] < i && used_by(self.points@[r@[k] as int], player),
                forall|j: usize| j < i && used_by(self.points@[j as int], player) ==> r@.contains(j),
                forall|k1: int, k2: int| 0 <= k1 < k2 < r@.len() ==> r@[k1] < r@[k2],
            decreases 26 - i,
        {
            let ghost r0 = r@;
            if self.points[i].is_used_by(player) {
                r.push(i);
            }
            proof {
                assert forall|j: usize|
                    j < i + 1 && used_by(self.points@[j as int], player) implies r@.contains(
                    j,
                ) by {
                    if j < i {
                        assert(r0.contains(j));
                        let k = choose|k: int| 0 <= k < r0.len() && r0[k] == j;
                        assert(r@[k] == j);
                    } else {
                        assert(r@[r@.len() - 1] == j);
                    }
                }
            }
            i = i + 1;
        }
        r
    }

    /// The index of the fake point used as the given player's bar.  It is
    /// placed so that entering from the bar is a move into the opponent's
    /// home using the usual arithmetic.
    pub fn get_bar_point(player: PlayerColor) -> (r: PointIndex)
        ensures
            r as int == spec_bar_index(player),
    {
        match player {
            PlayerColor::Black => 0,
            PlayerColor::White => 25,
        }
    }

    /// Whether an index lies outside the 24 ordinary points.
    pub fn is_bar_point(pi: PointIndex) -> (r: bool)
        ensures
            r == spec_is_bar_point(pi as int),
    {
        pi < 1 || pi > 24
    }

    /// Mirror a point index if the player is White, so that index 1 is the
    /// entry point and index 24 the last point before bearing off.
    pub(crate) fn reverse_white_point(player: PlayerColor, point: PointIndex) -> (r: PointIndex)
        requires
            point <= 25,
        ensures
            r as int == canon_index(player, point as int),
    {
        match player {
            PlayerColor::White => Self::get_opposite(point),
            _ => point,
        }
    }

    /// Mirror every index in the vector if the player is White.
    pub(crate) fn reverse_white_points(player: PlayerColor, index_vec: &mut Vec<PointIndex>)
        requires
            forall|k: int| 0 <= k < old(index_vec)@.len() ==> old(index_vec)@[k] <= 25,
        ensures
            final(index_vec)@.len() == old(index_vec)@.len(),
            forall|k: int|
                0 <= k < old(index_vec)@.len() ==> final(index_vec)@[k] as int == canon_index(
                    player,
                    old(index_vec)@[k] as int,
                ),
    {
        if player == PlayerColor::White {
            let mut k: usize = 0;
            while k < index_vec.len()
                invariant
                    k <= index_vec.len(),
                    index_vec@.len() == old(index_vec)@.len(),
                    forall|j: int| 0 <= j < old(index_vec)@.len() ==> old(index_vec)@[j] <= 25,
                    forall|j: int| k <= j < index_vec@.len() ==> index_vec@[j] == old(index_vec)@[j],
                    forall|j: int|
                        0 <= j < k ==> index_vec@[j] as int == canon_index(
                            PlayerColor::White,
                            old(index_vec)@[j] as int,
                        ),
                decreases index_vec.len() - k,
            {
                let v = index_vec[k];
                index_vec.set(k, 25 - v);
                k = k + 1;
            }
        }
    }

    /// Mirror both ends of every move in the vector if the player is White.
    pub(crate) fn reverse_white_moves(player: PlayerColor, move_vec: &mut Vec<Move>)
        requires
            forall|k: int|
                0 <= k < old(move_vec)@.len() ==> old(move_vec)@[k].0 <= 25 && old(
                    move_vec,
                )@[k].1 <= 25,
        ensures
            final(move_vec)@.len() == old(move_vec)@.len(),
            forall|k: int|
                0 <= k < old(move_vec)@.len() ==> final(move_vec)@[k] == canon_move(
                    player,
                    old(move_vec)@[k],
                ),
    {
        if player == PlayerColor::White {
            let mut k: usize = 0;
            while k < move_vec.len()
                invariant
                    k <= move_vec.len(),
                    move_vec@.len() == old(move_vec)@.len(),
                    forall|j: int|
                        0 <= j < old(move_vec)@.len() ==> old(move_vec)@[j].0 <= 25 && old(
                            move_vec,
                        )@[j].1 <= 25,
                    forall|j: int| k <= j < move_vec@.len() ==> move_vec@[j] == old(move_vec)@[j],
                    forall|j: int|
                        0 <= j < k ==> move_vec@[j] == canon_move(
                            PlayerColor::White,
                            old(move_vec)@[j],
                        ),
                decreases move_vec.len() - k,
            {
                let m = move_vec[k];
                move_vec.set(k, Move(25 - m.0, 25 - m.1));
                k = k + 1;
            }
        } else {
            proof {
                assert forall|k: int| 0 <= k < move_vec@.len() implies move_vec@[k] == canon_move(
                    player,
                    move_vec@[k],
                ) by {
                    assert(canon_index(player, move_vec@[k].0 as int) == move_vec@[k].0 as int);
                }
            }
        }
    }

    /// Who has won, if anyone.
    pub fn get_winner(&self) -> (r: Option<PlayerColor>)
        ensures
            r == self@.winner(),
    {
        let mut black_won = true;
        let mut white_won = true;
        let mut i: usize = 0;
        while i < 26
            invariant
                i <= 26,
                black_won == forall|k: int|
                    0 <= k < i ==> !used_by(self.points@[k], PlayerColor::Black),
                white_won == forall|k: int|
                    0 <= k < i ==> !used_by(self.points@[k], PlayerColor::White),
            decreases 26 - i,
        {
            let point = self.points[i];
            if point.checker_count > 0 {
                match point.checker_color {
                    PlayerColor::Black => black_won = false,
                    PlayerColor::White => white_won = false,
                }
            }
            i = i + 1;
        }
        if black_won && !white_won {
            Some(PlayerColor::Black)
        } else if white_won && !black_won {
            Some(PlayerColor::White)
        } else {
            None
        }
    }

    /// Flip whose turn it is; nothing else changes.
    pub fn end_turn(&mut self)
        ensures
            final(self).cur_player == opposite_color(old(self).cur_player),
            final(self).points@ == old(self).points@,
    {
        self.cur_player = self.cur_player.inverse();
    }
}

/// The starting layout holds exactly fifteen checkers of each color.
pub proof fn lemma_start_sums()
    ensures
        color_sum(Seq::new(26, |i: int| start_point(i)), PlayerColor::Black) == 15,
        color_sum(Seq::new(26, |i: int| start_point(i)), PlayerColor::White) == 15,
{
    let s = Seq::new(26, |i: int| start_point(i));
    assert(color_sum(s, PlayerColor::Black) == 15) by {
        reveal_with_fuel(color_sum, 27);
    }
    assert(color_sum(s, PlayerColor::White) == 15) by {
        reveal_with_fuel(color_sum, 27);
    }
}

} // verus!
