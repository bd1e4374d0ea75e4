use vstd::prelude::*;

verus! {

/// Points that bring an extra life when first reached, at the start.
pub const FIRST_ONE_UP: u32 = 1000;

/// Points for completing a level.
pub const LEVEL_BONUS: u32 = 1000;

/// Points lost with a life.
pub const LIFE_PENALTY: u32 = 150;

/// The numbers of a game.
pub struct NumbersView {
    pub level: u32,
    pub score: u32,
    pub one_up_score: u32,
    pub lives: u8,
    pub scatter_interval: u128,
    pub vulnerability_length: u32,
    pub vulnerability_timer: u32,
}

/// `a + b`, held at `u32::MAX`.
pub open spec fn sat_add(a: u32, b: u32) -> u32 {
    if a + b > u32::MAX {
        u32::MAX
    } else {
        (a + b) as u32
    }
}

/// The numbers after `points` are scored: the score grows, and reaching the
/// one-up score doubles it and brings a life. Every counter holds at its maximum.
pub open spec fn scored(n: NumbersView, points: u32) -> NumbersView {
    if points == 0 {
        n
    } else {
        let score = sat_add(n.score, points);
        if score >= n.one_up_score {
            NumbersView {
                score,
                one_up_score: sat_add(n.one_up_score, n.one_up_score),
                lives: if n.lives == u8::MAX {
                    u8::MAX
                } else {
                    (n.lives + 1) as u8
                },
                ..n
            }
        } else {
            NumbersView { score, ..n }
        }
    }
}

/// The numbers after `points` are taken off the score, which stops at zero.
pub open spec fn penalized(n: NumbersView, points: u32) -> NumbersView {
    NumbersView {
        score: if n.score < points {
            0
        } else {
            (n.score - points) as u32
        },
        ..n
    }
}

/// The numbers after a life is lost; nothing changes with no life left.
pub open spec fn life_lost(n: NumbersView) -> NumbersView {
    if n.lives == 0 {
        n
    } else {
        penalized(NumbersView { lives: (n.lives - 1) as u8, ..n }, LIFE_PENALTY)
    }
}

/// Manages the numbers of a game: level, score, lives and timers.
pub struct NumberManager {
    level: u32,
    score: u32,
    one_up_score: u32,
    lives: u8,
    scatter_interval: u128,
    vulnerability_length: u32,
    vulernability_timer: u32,
}

impl View for NumberManager {
    type V = NumbersView;

    closed spec fn view(&self) -> NumbersView {
        NumbersView {
            level: self.level,
            score: self.score,
            one_up_score: self.one_up_score,
            lives: self.lives,
            scatter_interval: self.scatter_interval,
            vulnerability_length: self.vulnerability_length,
            vulnerability_timer: self.vulernability_timer,
        }
    }
}

impl NumberManager {
    /// Creates the numbers of a new game.
    pub fn new() -> (r: Self)
        ensures
            r@ == (NumbersView {
                level: 1,
                score: 0,
                one_up_score: FIRST_ONE_UP,
                lives: 3,
                scatter_interval: 40,
                vulnerability_length: 28,
                vulnerability_timer: 0,
            }),
    {
        NumberManager {
            level: 1,
            score: 0,
            one_up_score: FIRST_ONE_UP,
            lives: 3,
            scatter_interval: 40,
            vulnerability_length: 28,
            vulernability_timer: 0,
        }
    }

    /// Retrieves the number of lives.
    pub fn get_lives(&self) -> (r: u8)
        ensures
            r == self@.lives,
    {
        self.lives
    }

    /// Retrieves the current level number.
    pub fn get_level(&self) -> (r: u32)
        ensures
            r == self@.level,
    {
        self.level
    }

    /// Retrieves the current score.
    pub fn get_score(&self) -> (r: u32)
        ensures
            r == self@.score,
    {
        self.score
    }

    /// Retrieves the score that brings the next life.
    pub fn get_one_up_score(&self) -> (r: u32)
        ensures
            r == self@.one_up_score,
    {
        self.one_up_score
    }

    /// Retrieves the number of frames between scatter pulses.
    pub fn get_scatter_interval(&self) -> (r: u128)
        ensures
            r == self@.scatter_interval,
    {
        self.scatter_interval
    }

    /// Adds points to the score. Reaching the one-up score gives a life and
    /// doubles the one-up score.
    pub fn add_score(&mut self, score: u32)
        ensures
            final(self)@ == scored(old(self)@, score),
    {
        if score == 0 {
            return;
        }
        self.score = self.score.saturating_add(score);
        if self.score >= self.one_up_score {
            self.one_up_score = self.one_up_score.saturating_add(self.one_up_score);
            self.lives = self.lives.saturating_add(1);
        }
    }

    /// Takes points off the score, stopping at zero.
    pub fn remove_score(&mut self, score: u32)
        ensures
            final(self)@ == penalized(old(self)@, score),
    {
        if self.score < score {
            self.score = 0;
            return;
        }
        self.score = self.score - score;
    }

    /// Removes a life, with its penalty.
    pub fn lose_life(&mut self)
        ensures
            final(self)@ == life_lost(old(self)@),
    {
        if self.lives == 0 {
            return;
        }
        self.lives = self.lives - 1;
        self.remove_score(LIFE_PENALTY);
    }

    /// Moves the timers on to a new level, with its bonus.
    pub fn level_up(&mut self)
        ensures
            final(self)@ == (NumbersView {
                vulnerability_length: if old(self)@.vulnerability_length >= 12 {
                    (old(self)@.vulnerability_length - 4) as u32
                } else {
                    8
                },
                scatter_interval: if old(self)@.scatter_interval > 60 {
                    120
                } else {
                    (old(self)@.scatter_interval * 2) as u128
                },
                ..scored(old(self)@, LEVEL_BONUS)
            }),
    {
        self.add_score(LEVEL_BONUS);
        self.shorten_vulnerability();
        self.lengthen_scatter_interval();
    }

    /// Shortens the vulnerability window by one second, down to two seconds.
    pub fn shorten_vulnerability(&mut self)
        ensures
            final(self)@ == (NumbersView {
                vulnerability_length: if old(self)@.vulnerability_length >= 12 {
                    (old(self)@.vulnerability_length - 4) as u32
                } else {
                    8
                },
                ..old(self)@
            }),
    {
        if self.vulnerability_length >= 12 {
            self.vulnerability_length = self.vulnerability_length - 4;
        } else {
            self.vulnerability_length = 8;
        }
    }

    /// Sets the vulnerability timer to the vulnerability length.
    pub fn start_vulnerability_timer(&mut self)
        ensures
            final(self)@ == (NumbersView {
                vulnerability_timer: old(self)@.vulnerability_length,
                ..old(self)@
            }),
    {
        self.vulernability_timer = self.vulnerability_length;
    }

    /// Lowers the vulnerability timer by one frame, stopping at zero.
    pub fn tick_vulernability_timer(&mut self)
        ensures
            final(self)@ == (NumbersView {
                vulnerability_timer: if old(self)@.vulnerability_timer == 0 {
                    0
                } else {
                    (old(self)@.vulnerability_timer - 1) as u32
                },
                ..old(self)@
            }),
    {
        if self.vulernability_timer == 0 {
            return;
        }
        self.vulernability_timer = self.vulernability_timer - 1;
    }

    /// Whether the vulnerability timer has run out.
    pub fn is_vulnerability_over(&self) -> (r: bool)
        ensures
            r == (self@.vulnerability_timer == 0),
    {
        self.vulernability_timer == 0
    }

    /// Doubles the scatter interval, up to thirty seconds.
    pub fn lengthen_scatter_interval(&mut self)
        ensures
            final(self)@ == (NumbersView {
                scatter_interval: if old(self)@.scatter_interval > 60 {
                    120
                } else {
                    (old(self)@.scatter_interval * 2) as u128
                },
                ..old(self)@
            }),
    {
        if self.scatter_interval > 60 {
            self.scatter_interval = 120;
        } else {
            self.scatter_interval = self.scatter_interval * 2;
        }
    }
}

} // verus!
