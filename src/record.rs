use vstd::prelude::*;

verus! {

/// What a team's record stands for: three counts of games.
pub struct RecordView {
    pub wins: nat,
    pub losses: nat,
    pub draws: nat,
}

impl RecordView {
    /// Three points for a win, one for a draw, none for a loss.
    pub open spec fn points(self) -> nat {
        3 * self.wins + self.draws
    }

    pub open spec fn matches_played(self) -> nat {
        self.wins + self.draws + self.losses
    }
}

/// A team's wins, losses and draws.
#[derive(Clone, Copy, Debug, PartialEq, Eq, Structural)]
pub struct TeamRecord {
    pub wins: usize,
    pub losses: usize,
    pub draws: usize,
}

impl View for TeamRecord {
    type V = RecordView;

    open spec fn view(&self) -> RecordView {
        RecordView { wins: self.wins as nat, losses: self.losses as nat, draws: self.draws as nat }
    }
}

impl TeamRecord {
    /// Points earned; wide enough that no count can make it overflow.
    pub fn points(&self) -> (r: u128)
        ensures
            r == self@.points(),
    {
        self.wins as u128 * 3 + self.draws as u128
    }

    /// Games played, whatever their outcome.
    pub fn matches_played(&self) -> (r: u128)
        ensures
            r == self@.matches_played(),
    {
        self.wins as u128 + self.draws as u128 + self.losses as u128
    }
}

} // verus!
