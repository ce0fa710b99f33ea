//! The guessing session: a state machine over a secret value.
//!
//! A session starts `Active` with a secret in `[1, 100]` and a guess
//! count of zero.  Each accepted guess is counted and compared to the
//! secret: equality wins, otherwise the player is told whether the guess
//! was high or low, and the seventh miss exhausts the session.  Lines of
//! raw input can be fed through [`Game::submit_line`], which leaves the
//! session untouched on any rejected line.

use vstd::prelude::*;

use crate::reader::MyError;
use crate::reader::is_u8_literal;
use crate::reader::prompt_parsed;
use crate::reader::trim_of;
use crate::reader::u8_literal_value;

verus! {

/// Number of accepted guesses a session allows.
pub const GUESS_LIMIT: u8 = 7;

/// Where a session stands.
#[derive(Clone, Copy, Debug, PartialEq, Eq, Structural)]
pub enum GameState {
    /// Guesses are still being taken.
    Active,
    /// The secret value was guessed.
    Won,
    /// The guess budget ran out before the secret was guessed.
    Exhausted,
}

/// What a single accepted guess earned.
#[derive(Clone, Copy, Debug, PartialEq, Eq, Structural)]
pub enum Feedback {
    /// The guess was above the secret value.
    TooHigh,
    /// The guess was below the secret value.
    TooLow,
    /// The guess was the secret value.
    Correct,
}

/// What became of one submitted line of input.
#[derive(Debug, PartialEq, Eq)]
pub enum LineOutcome {
    /// The trimmed line did not parse as a number; it is carried here.
    NotParsed(String),
    /// The line parsed, but the value lies outside `[1, 100]`.
    OutOfRange(u8),
    /// The value was accepted and played; here is its feedback.
    Played(Feedback),
}

/// A guessing session: the secret value, the count of accepted guesses,
/// and the state the session is in.
#[derive(Clone, Copy, Debug, PartialEq, Eq, Structural)]
pub struct Game {
    /// The secret value, fixed at construction, in `[1, 100]`.
    pub value: u8,
    /// How many guesses have been accepted so far.
    pub guesses: u8,
    /// Where the session stands.
    pub state: GameState,
}

/// The feedback one accepted guess earns against a session's secret.
pub open spec fn feedback_spec(g: Game, guess: u8) -> Feedback {
    if guess > g.value {
        Feedback::TooHigh
    } else if guess < g.value {
        Feedback::TooLow
    } else {
        Feedback::Correct
    }
}

/// The session after one accepted guess: the count goes up by one; a hit
/// wins, a seventh miss exhausts, any other miss stays active.
pub open spec fn step_spec(g: Game, guess: u8) -> Game {
    let n = (g.guesses + 1) as u8;
    if guess == g.value {
        Game { value: g.value, guesses: n, state: GameState::Won }
    } else if n >= GUESS_LIMIT {
        Game { value: g.value, guesses: n, state: GameState::Exhausted }
    } else {
        Game { value: g.value, guesses: n, state: GameState::Active }
    }
}

/// The session after a whole list of accepted guesses, played in order
/// until the session leaves the `Active` state.
pub open spec fn run_spec(g: Game, gs: Seq<u8>) -> Game
    decreases gs.len(),
{
    if gs.len() == 0 || g.state != GameState::Active {
        g
    } else {
        run_spec(step_spec(g, gs[0]), gs.skip(1))
    }
}

/// A line the session turns away: it does not parse as an unsigned 8-bit
/// decimal literal, or its value lies outside `[1, 100]`.
pub open spec fn rejects_line(line: Seq<char>) -> bool {
    ||| !is_u8_literal(trim_of(line))
    ||| u8_literal_value(trim_of(line)) < 1
    ||| u8_literal_value(trim_of(line)) > 100
}

/// The session after one raw line: unchanged when the line is rejected,
/// one step on the parsed value otherwise.
pub open spec fn submit_spec(g: Game, line: Seq<char>) -> Game {
    if rejects_line(line) {
        g
    } else {
        step_spec(g, u8_literal_value(trim_of(line)) as u8)
    }
}

/// The session after a whole list of raw lines, submitted in order.
pub open spec fn run_lines_spec(g: Game, lines: Seq<Seq<char>>) -> Game
    decreases lines.len(),
{
    if lines.len() == 0 {
        g
    } else {
        run_lines_spec(submit_spec(g, lines[0]), lines.skip(1))
    }
}

impl Game {
    /// A well-formed session: the secret lies in `[1, 100]`, the count
    /// never passes the limit, and an active session still has a guess
    /// left to take.
    pub open spec fn wf(self) -> bool {
        &&& 1 <= self.value <= 100
        &&& self.guesses <= GUESS_LIMIT
        &&& (self.state == GameState::Active ==> self.guesses < GUESS_LIMIT)
    }

    /// Build a session whose secret is derived from one raw byte, as
    /// `raw % 100 + 1`.
    pub fn new(raw: u8) -> (g: Game)
        ensures
            g.value == raw % 100 + 1,
            g.guesses == 0,
            g.state == GameState::Active,
            g.wf(),
    {
        Game { value: raw % 100 + 1, guesses: 0, state: GameState::Active }
    }

    /// Start a session with a freshly drawn random secret.
    pub fn start() -> (g: Game)
        ensures
            g.guesses == 0,
            g.state == GameState::Active,
            g.wf(),
    {
        Game::new(random_byte())
    }

    /// Play one accepted guess: count it, compare it to the secret, and
    /// move the session along as [`step_spec`] says.
    pub fn guess(&mut self, guess: u8) -> (fb: Feedback)
        requires
            old(self).wf(),
            old(self).state == GameState::Active,
            1 <= guess <= 100,
        ensures
            *final(self) == step_spec(*old(self), guess),
            fb == feedback_spec(*old(self), guess),
            final(self).value == old(self).value,
            final(self).guesses == old(self).guesses + 1,
            final(self).wf(),
    {
        self.guesses = self.guesses + 1;
        if guess == self.value {
            self.state = GameState::Won;
            Feedback::Correct
        } else {
            if self.guesses >= GUESS_LIMIT {
                self.state = GameState::Exhausted;
            }
            if guess > self.value {
                Feedback::TooHigh
            } else {
                Feedback::TooLow
            }
        }
    }

    /// Submit one raw line of input.  A line that does not parse, or
    /// whose value is out of range, is rejected and changes nothing; an
    /// accepted value is played as one guess.
    pub fn submit_line(&mut self, line: &str) -> (r: LineOutcome)
        requires
            old(self).wf(),
            old(self).state == GameState::Active,
        ensures
            *final(self) == submit_spec(*old(self), line@),
            final(self).wf(),
            final(self).value == old(self).value,
            !is_u8_literal(trim_of(line@)) ==> (r matches LineOutcome::NotParsed(t) && t@
                == trim_of(line@) && *final(self) == *old(self)),
            (is_u8_literal(trim_of(line@)) && rejects_line(line@)) ==> (r
                == LineOutcome::OutOfRange(u8_literal_value(trim_of(line@)) as u8) && *final(self)
                == *old(self)),
            !rejects_line(line@) ==> (r == LineOutcome::Played(
                feedback_spec(*old(self), u8_literal_value(trim_of(line@)) as u8),
            ) && *final(self) == step_spec(
                *old(self),
                u8_literal_value(trim_of(line@)) as u8,
            )),
    {
        match prompt_parsed(line) {
            Err(MyError::ParseError(t)) => LineOutcome::NotParsed(t),
            Ok(v) => {
                if v < 1 || v > 100 {
                    LineOutcome::OutOfRange(v)
                } else {
                    let fb = self.guess(v);
                    LineOutcome::Played(fb)
                }
            },
        }
    }

    /// Play a prepared list of accepted guesses in order, stopping when
    /// the session leaves the `Active` state.  Returns how many of the
    /// guesses were played.
    pub fn play(&mut self, guesses: &Vec<u8>) -> (played: usize)
        requires
            old(self).wf(),
            forall|i: int| 0 <= i < guesses@.len() ==> 1 <= #[trigger] guesses@[i] <= 100,
        ensures
            *final(self) == run_spec(*old(self), guesses@),
            final(self).wf(),
            final(self).guesses == old(self).guesses + played,
            played <= guesses@.len(),
    {
        let ghost g0 = *self;
        let mut i: usize = 0;
        loop
            invariant
                i <= guesses@.len(),
                g0.wf(),
                forall|j: int| 0 <= j < guesses@.len() ==> 1 <= #[trigger] guesses@[j] <= 100,
                *self == run_spec(g0, guesses@.take(i as int)),
                self.wf(),
                self.guesses == g0.guesses + i,
            ensures
                i <= guesses@.len(),
                *self == run_spec(g0, guesses@),
                self.wf(),
                self.guesses == g0.guesses + i,
            decreases guesses@.len() - i,
        {
            if i == guesses.len() {
                proof {
                    assert(guesses@.take(guesses@.len() as int) =~= guesses@);
                }
                break ;
            }
            if !(self.state == GameState::Active) {
                proof {
                    lemma_run_spec_split(g0, guesses@, i as int);
                }
                break ;
            }
            let g = guesses[i];
            proof {
                lemma_run_spec_split(g0, guesses@.take(i as int + 1), i as int);
                assert(guesses@.take(i as int + 1).take(i as int) =~= guesses@.take(i as int));
                assert(guesses@.take(i as int + 1).skip(i as int) =~= seq![g]);
                let prev = run_spec(g0, guesses@.take(i as int));
                assert(seq![g][0] == g);
                assert(seq![g].skip(1) =~= Seq::<u8>::empty());
                assert(run_spec(step_spec(prev, g), seq![g].skip(1)) == step_spec(prev, g));
                assert(run_spec(prev, seq![g]) == step_spec(prev, g));
                assert(run_spec(g0, guesses@.take(i as int + 1)) == step_spec(prev, g));
            }
            self.guess(g);
            i = i + 1;
        }
        i
    }
}

/// Splitting a guess list anywhere splits the run: playing the whole
/// list is playing the first part, then the rest from where it ended.
pub proof fn lemma_run_spec_split(g: Game, gs: Seq<u8>, i: int)
    requires
        0 <= i <= gs.len(),
    ensures
        run_spec(g, gs) == run_spec(run_spec(g, gs.take(i)), gs.skip(i)),
    decreases i,
{
    if i == 0 {
        assert(gs.take(0) =~= Seq::<u8>::empty());
        assert(gs.skip(0) =~= gs);
    } else if g.state != GameState::Active {
        assert(run_spec(g, gs) == g);
        assert(run_spec(g, gs.take(i)) == g);
    } else {
        let g1 = step_spec(g, gs[0]);
        let rest = gs.skip(1);
        lemma_run_spec_split(g1, rest, i - 1);
        assert(rest.take(i - 1) =~= gs.take(i).skip(1));
        assert(rest.skip(i - 1) =~= gs.skip(i));
        assert(gs.take(i)[0] == gs[0]);
    }
}

proof fn lemma_run_to_win(g: Game, gs: Seq<u8>)
    requires
        g.wf(),
        g.state == GameState::Active,
        1 <= gs.len(),
        g.guesses + gs.len() <= GUESS_LIMIT,
        gs[gs.len() - 1] == g.value,
        forall|i: int| 0 <= i < gs.len() - 1 ==> gs[i] != g.value,
    ensures
        run_spec(g, gs).state == GameState::Won,
        run_spec(g, gs).guesses == g.guesses + gs.len(),
        run_spec(g, gs).value == g.value,
    decreases gs.len(),
{
    let g1 = step_spec(g, gs[0]);
    let rest = gs.skip(1);
    assert(run_spec(g, gs) == run_spec(g1, rest));
    if gs.len() == 1 {
        assert(rest.len() == 0);
        assert(run_spec(g1, rest) == g1);
    } else {
        assert(gs[0] != g.value);
        assert(g1.state == GameState::Active);
        assert(rest[rest.len() - 1] == gs[gs.len() - 1]);
        assert(forall|i: int| 0 <= i < rest.len() - 1 ==> #[trigger] rest[i] == gs[i + 1]);
        lemma_run_to_win(g1, rest);
    }
}

/// A session that takes `k` accepted guesses, the last one equal to the
/// secret and every earlier one different from it, ends in the `Won`
/// state after exactly `k` counted guesses, with the secret unchanged.
pub proof fn lemma_win_after_k_guesses(g: Game, gs: Seq<u8>)
    requires
        g.wf(),
        g.state == GameState::Active,
        g.guesses == 0,
        1 <= gs.len() <= GUESS_LIMIT,
        forall|i: int| 0 <= i < gs.len() ==> 1 <= #[trigger] gs[i] <= 100,
        gs[gs.len() - 1] == g.value,
        forall|i: int| 0 <= i < gs.len() - 1 ==> gs[i] != g.value,
    ensures
        run_spec(g, gs).state == GameState::Won,
        run_spec(g, gs).guesses == gs.len(),
        run_spec(g, gs).value == g.value,
{
    lemma_run_to_win(g, gs);
}

proof fn lemma_run_to_exhaustion(g: Game, gs: Seq<u8>)
    requires
        g.wf(),
        g.state == GameState::Active,
        g.guesses + gs.len() == GUESS_LIMIT,
        forall|i: int| 0 <= i < gs.len() ==> gs[i] != g.value,
    ensures
        run_spec(g, gs).state == GameState::Exhausted,
        run_spec(g, gs).guesses == GUESS_LIMIT,
        run_spec(g, gs).value == g.value,
    decreases gs.len(),
{
    assert(gs.len() >= 1);
    let g1 = step_spec(g, gs[0]);
    let rest = gs.skip(1);
    assert(run_spec(g, gs) == run_spec(g1, rest));
    if gs.len() == 1 {
        assert(rest.len() == 0);
        assert(run_spec(g1, rest) == g1);
    } else {
        assert(g1.state == GameState::Active);
        assert(forall|i: int| 0 <= i < rest.len() ==> #[trigger] rest[i] == gs[i + 1]);
        lemma_run_to_exhaustion(g1, rest);
    }
}

/// A session that takes a full budget of accepted guesses, none of them
/// equal to the secret, ends in the `Exhausted` state with the secret
/// unchanged, ready to be revealed.
pub proof fn lemma_exhaustion_after_limit(g: Game, gs: Seq<u8>)
    requires
        g.wf(),
        g.state == GameState::Active,
        g.guesses == 0,
        gs.len() == GUESS_LIMIT,
        forall|i: int| 0 <= i < gs.len() ==> 1 <= #[trigger] gs[i] <= 100,
        forall|i: int| 0 <= i < gs.len() ==> gs[i] != g.value,
    ensures
        run_spec(g, gs).state == GameState::Exhausted,
        run_spec(g, gs).guesses == GUESS_LIMIT,
        run_spec(g, gs).value == g.value,
{
    lemma_run_to_exhaustion(g, gs);
}

/// Rejected lines change nothing: a run made only of lines that do not
/// parse, or whose values are out of range, leaves the session — its
/// secret value and its guess count — exactly as it was.
pub proof fn lemma_rejected_lines_change_nothing(g: Game, lines: Seq<Seq<char>>)
    requires
        forall|i: int| 0 <= i < lines.len() ==> rejects_line(#[trigger] lines[i]),
    ensures
        run_lines_spec(g, lines) == g,
    decreases lines.len(),
{
    if lines.len() > 0 {
        assert(submit_spec(g, lines[0]) == g);
        lemma_rejected_lines_change_nothing(g, lines.skip(1));
        assert(forall|i: int| 0 <= i < lines.skip(1).len() ==> rejects_line(
            #[trigger] lines.skip(1)[i],
        ));
    }
}

/// Relies on rand::random: one draw of a `u8` from the thread-local
/// generator; no particular value is promised of it.
#[verifier::external_body]
fn random_byte() -> u8 {
    rand::random::<u8>()
}

} // verus!

