use vstd::prelude::*;

verus! {

/// One player's move in a round.
#[derive(Clone, Copy, Debug, PartialEq, Eq, Structural)]
pub enum Move {
    Cheated,
    Cooperated,
}

/// What both players did in one round.
#[derive(Clone, Copy, Debug, PartialEq, Eq, Structural)]
pub enum RoundOutcome {
    BothCooperated,
    LeftCheated,
    RightCheated,
    BothCheated,
}

/// A strategy: decides a move from the opponent's previous move.
pub trait Agency {
    fn make_turn(&mut self, current_move: Move) -> Move;
}

/// A repeated game of trust between two agents, with running scores.
pub struct Game<L, R> {
    pub left_score: i32,
    pub right_score: i32,
    pub left_agent: L,
    pub right_agent: R,
    pub previous_left_move: Move,
    pub previous_right_move: Move,
}

impl<L: Agency, R: Agency> Game<L, R> {
    pub fn new(left: L, right: R) -> (r: Game<L, R>)
        ensures
            r.left_score == 0,
            r.right_score == 0,
            r.previous_left_move == Move::Cooperated,
            r.previous_right_move == Move::Cooperated,
    {
        Game {
            left_score: 0,
            right_score: 0,
            left_agent: left,
            right_agent: right,
            previous_left_move: Move::Cooperated,
            previous_right_move: Move::Cooperated,
        }
    }

    pub fn left_score(&self) -> (r: i32)
        ensures
            r == self.left_score,
    {
        self.left_score
    }

    pub fn right_score(&self) -> (r: i32)
        ensures
            r == self.right_score,
    {
        self.right_score
    }

    /// Plays one round: both agents move, the scores change by the payoff
    /// matrix (+2/+2 on mutual trust, +3/-1 for a lone cheat, 0/0 on
    /// mutual cheating), and the moves are remembered for the next round.
    pub fn play_round(&mut self) -> (r: RoundOutcome)
        requires
            old(self).left_score + 3 <= i32::MAX,
            old(self).right_score + 3 <= i32::MAX,
            old(self).left_score - 1 >= i32::MIN,
            old(self).right_score - 1 >= i32::MIN,
        ensures
            final(self).previous_left_move == (if r == RoundOutcome::BothCooperated || r
                == RoundOutcome::RightCheated {
                Move::Cooperated
            } else {
                Move::Cheated
            }),
            final(self).previous_right_move == (if r == RoundOutcome::BothCooperated || r
                == RoundOutcome::LeftCheated {
                Move::Cooperated
            } else {
                Move::Cheated
            }),
            r == RoundOutcome::BothCooperated ==> final(self).left_score == old(self).left_score
                + 2 && final(self).right_score == old(self).right_score + 2,
            r == RoundOutcome::LeftCheated ==> final(self).left_score == old(self).left_score + 3
                && final(self).right_score == old(self).right_score - 1,
            r == RoundOutcome::RightCheated ==> final(self).left_score == old(self).left_score - 1
                && final(self).right_score == old(self).right_score + 3,
            r == RoundOutcome::BothCheated ==> final(self).left_score == old(self).left_score
                && final(self).right_score == old(self).right_score,
    {
        let left_move = self.left_agent.make_turn(self.previous_right_move);
        let right_move = self.right_agent.make_turn(self.previous_left_move);
        self.previous_left_move = left_move;
        self.previous_right_move = right_move;
        match (left_move, right_move) {
            (Move::Cheated, Move::Cheated) => RoundOutcome::BothCheated,
            (Move::Cooperated, Move::Cooperated) => {
                self.left_score = self.left_score + 2;
                self.right_score = self.right_score + 2;
                RoundOutcome::BothCooperated
            },
            (Move::Cheated, Move::Cooperated) => {
                self.left_score = self.left_score + 3;
                self.right_score = self.right_score - 1;
                RoundOutcome::LeftCheated
            },
            (Move::Cooperated, Move::Cheated) => {
                self.left_score = self.left_score - 1;
                self.right_score = self.right_score + 3;
                RoundOutcome::RightCheated
            },
        }
    }
}

/// Always cheats.
#[derive(Default)]
pub struct CheatingAgent {}

impl Agency for CheatingAgent {
    fn make_turn(&mut self, previous_enemy_move: Move) -> Move {
        Move::Cheated
    }
}

/// Always cooperates.
#[derive(Default)]
pub struct CooperatingAgent {}

impl Agency for CooperatingAgent {
    fn make_turn(&mut self, previous_enemy_move: Move) -> Move {
        Move::Cooperated
    }
}

/// Cooperates until cheated once, then cheats forever.
#[derive(Default)]
pub struct GrudgerAgent {
    pub has_betrayed: bool,
}

impl Agency for GrudgerAgent {
    fn make_turn(&mut self, previous_enemy_move: Move) -> Move {
        match (self.has_betrayed, previous_enemy_move) {
            (true, _) | (_, Move::Cheated) => {
                self.has_betrayed = true;
                Move::Cheated
            },
            (_, _) => Move::Cooperated,
        }
    }
}

/// Cooperates first, then repeats the opponent's previous move.
#[derive(Default)]
pub struct CopycatAgent {
    pub turn: i32,
}

impl Agency for CopycatAgent {
    fn make_turn(&mut self, previous_enemy_move: Move) -> Move {
        if self.turn < i32::MAX {
            self.turn = self.turn + 1;
        }
        match self.turn {
            1 => Move::Cooperated,
            _ => previous_enemy_move,
        }
    }
}

/// Probes with a fixed opening, then either exploits a pushover or plays
/// copycat against anyone who hit back.
pub struct DetectiveAgent {
    pub turn: i32,
    pub have_been_cheated: bool,
}

impl Default for DetectiveAgent {
    fn default() -> (r: Self)
        ensures
            r.turn == 0,
            !r.have_been_cheated,
    {
        DetectiveAgent { turn: 0, have_been_cheated: false }
    }
}

impl Agency for DetectiveAgent {
    fn make_turn(&mut self, previous_enemy_move: Move) -> Move {
        if self.turn <= 4 && previous_enemy_move == Move::Cheated {
            self.have_been_cheated = true;
        }
        if self.turn < i32::MAX {
            self.turn = self.turn + 1;
        }
        match (self.turn, self.have_been_cheated) {
            (2, _) => Move::Cheated,
            (0..=4, _) => Move::Cooperated,
            (_, false) => Move::Cheated,
            (_, true) => previous_enemy_move,
        }
    }
}

} // verus!
