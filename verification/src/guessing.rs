//! A number-guessing game: a player keeps a secret number and answers
//! questions about it; a strategy finds the number by asking.
use vstd::prelude::*;

verus! {

/// A question put to the player.
#[derive(Clone, Copy, Debug, PartialEq, Eq, Structural)]
pub enum Question {
    /// "Is it this number?"
    IsEqual(u32),
    /// "How does this number compare with yours?"
    Compare(u32),
}

/// The player who keeps the secret number, and the record of the questions
/// put so far.
pub struct Player {
    the_number: u32,
    asked: Ghost<Seq<Question>>,
}

impl View for Player {
    type V = u32;

    /// The secret number.
    closed spec fn view(&self) -> u32 {
        self.the_number
    }
}

/// The answer to "how does `guess` compare with the secret `n`?": 0 when they
/// are equal, 1 when the secret is larger, -1 when it is smaller.
pub open spec fn compare_answer(n: u32, guess: u32) -> int {
    if guess == n {
        0
    } else if guess < n {
        1
    } else {
        -1
    }
}

impl Player {
    /// The questions put so far, oldest first.
    pub closed spec fn questions(&self) -> Seq<Question> {
        self.asked@
    }

    /// A player whose secret number is `the_number`, asked nothing yet.
    pub fn new(the_number: u32) -> (r: Player)
        ensures
            r@ == the_number,
            r.questions() == Seq::<Question>::empty(),
    {
        Player { the_number, asked: Ghost(Seq::empty()) }
    }

    /// Whether `guess` is the secret number.
    pub fn ask_if_equal(&mut self, guess: u32) -> (r: bool)
        ensures
            final(self)@ == old(self)@,
            final(self).questions() == old(self).questions().push(Question::IsEqual(guess)),
            r == (guess == old(self)@),
    {
        self.asked = Ghost(self.asked@.push(Question::IsEqual(guess)));
        guess == self.the_number
    }

    /// How `guess` compares with the secret number (see [`compare_answer`]).
    pub fn ask_to_compare(&mut self, guess: u32) -> (r: i32)
        ensures
            final(self)@ == old(self)@,
            final(self).questions() == old(self).questions().push(Question::Compare(guess)),
            r == compare_answer(old(self)@, guess),
    {
        self.asked = Ghost(self.asked@.push(Question::Compare(guess)));
        if guess == self.the_number {
            0
        } else if guess < self.the_number {
            1
        } else {
            -1
        }
    }
}

/// A way of finding the secret number between `min` and `max`.
pub trait Strategy {
    /// The bounds on which the strategy ends.
    spec fn accepts(min: u32, max: u32) -> bool;

    /// Finds the secret number by asking the player; the player's number is
    /// left as it was.
    fn guess_the_number(player: &mut Player, min: u32, max: u32) -> (r: u32)
        requires
            Self::accepts(min, max),
        ensures
            final(player)@ == old(player)@,
    ;
}

/// Asks about every number from `min` up, one at a time.
pub struct Part1 {}

/// The questions "is it `from`?", "is it `from + 1`?", ..., up to `to` excluded.
pub open spec fn linear_questions(from: u32, to: int) -> Seq<Question> {
    Seq::new((to - from) as nat, |k: int| Question::IsEqual((from + k) as u32))
}

/// What [`Part1`] asks: every number from `min` up to the secret when it lies
/// in `min..max`, else every number in `min..max`.
pub open spec fn linear_asks(n: u32, min: u32, max: u32) -> Seq<Question> {
    if min <= n < max {
        linear_questions(min, n + 1)
    } else {
        linear_questions(min, max as int)
    }
}

/// What [`Part1`] answers: the secret when it lies in `min..max`, else `min`.
pub open spec fn linear_result(n: u32, min: u32, max: u32) -> u32 {
    if min <= n < max {
        n
    } else {
        min
    }
}

impl Part1 {
    /// The strategy's run (see [`Strategy::guess_the_number`]), with whether
    /// the secret lay in `min..max`: when it did not, the game reports it out
    /// of range.
    pub fn guess_reporting(player: &mut Player, min: u32, max: u32) -> (r: (u32, bool))
        requires
            min < max,
        ensures
            final(player)@ == old(player)@,
            r.1 == (min <= old(player)@ < max),
            r.0 == linear_result(old(player)@, min, max),
            final(player).questions() == old(player).questions() + linear_asks(
                old(player)@,
                min,
                max,
            ),
    {
        let ghost n = player@;
        let ghost q0 = player.questions();
        let mut min_guess = min;
        assert(linear_questions(min, min as int) =~= Seq::<Question>::empty());
        loop
            invariant
                player@ == n,
                n == old(player)@,
                q0 == old(player).questions(),
                min < max,
                min <= min_guess < max,
                !(min <= n < min_guess),
                player.questions() == q0 + linear_questions(min, min_guess as int),
            decreases max - min_guess,
        {
            if min_guess < max {
                let found = player.ask_if_equal(min_guess);
                assert(linear_questions(min, min_guess + 1) =~= linear_questions(
                    min,
                    min_guess as int,
                ).push(Question::IsEqual(min_guess)));
                assert(player.questions() =~= q0 + linear_questions(min, min_guess + 1));
                if found {
                    return (min_guess, true);
                } else {
                    min_guess += 1;
                    if min_guess >= max {
                        return (min, false);
                    }
                }
            }
        }
    }
}

impl Strategy for Part1 {
    open spec fn accepts(min: u32, max: u32) -> bool {
        min < max
    }

    /// Asks whether the secret is `min`, then `min + 1`, and so on below
    /// `max`, stopping at the secret; when no number below `max` is it, the
    /// answer is `min`.
    fn guess_the_number(player: &mut Player, min: u32, max: u32) -> (r: u32)
        ensures
            r == linear_result(old(player)@, min, max),
            final(player).questions() == old(player).questions() + linear_asks(
                old(player)@,
                min,
                max,
            ),
    {
        Self::guess_reporting(player, min, max).0
    }
}

/// Halves the range of possible numbers at each question.
pub struct Part2 {}

/// The whole part of the base-2 logarithm of `n` (0 for `n <= 1`).
pub open spec fn log2_floor(n: int) -> int
    decreases n,
{
    if n <= 1 {
        0
    } else {
        1 + log2_floor(n / 2)
    }
}

/// Every question is a comparison with a number in `min..=max`.
pub open spec fn compares_within(qs: Seq<Question>, min: u32, max: u32) -> bool {
    forall|k: int|
        0 <= k < qs.len() ==> match #[trigger] qs[k] {
            Question::Compare(g) => min <= g <= max,
            Question::IsEqual(_) => false,
        }
}

/// The logarithm is never negative and grows with its argument.
pub proof fn lemma_log2_mono(a: int, b: int)
    requires
        a <= b,
    ensures
        0 <= log2_floor(a) <= log2_floor(b),
    decreases b,
{
    if b > 1 {
        if a > 1 {
            lemma_log2_mono(a / 2, b / 2);
        } else {
            lemma_log2_mono(a, b / 2);
        }
    }
}

/// What [`Part2`] answers: the secret when it lies in `min..=max`, `min` when
/// it is smaller, and `max + 1` when it is larger.
pub open spec fn binary_result(n: u32, min: u32, max: u32) -> int {
    if n < min {
        min as int
    } else if n > max {
        max + 1
    } else {
        n as int
    }
}

impl Part2 {
    /// The strategy's run (see [`Strategy::guess_the_number`]), with whether
    /// the secret lay in `min..=max`: when it did not, the game reports it out
    /// of range.
    pub fn guess_reporting(player: &mut Player, min: u32, max: u32) -> (r: (u32, bool))
        requires
            min <= max,
        ensures
            final(player)@ == old(player)@,
            r.1 == (min <= old(player)@ <= max),
            r.0 == binary_result(old(player)@, min, max),
            ({
                let q0 = old(player).questions();
                let q = final(player).questions();
                &&& q0.len() <= q.len()
                &&& q.subrange(0, q0.len() as int) == q0
                &&& compares_within(q.subrange(q0.len() as int, q.len() as int), min, max)
                &&& q.len() - q0.len() <= log2_floor(max - min + 1) + 1
            }),
    {
        let ghost n = player@;
        let ghost q0 = player.questions();
        let ghost mut here: Seq<Question> = Seq::empty();
        let mut low = min;
        let mut high = max;
        assert(q0 + here =~= q0);
        loop
            invariant
                player@ == n,
                n == old(player)@,
                q0 == old(player).questions(),
                player.questions() == q0 + here,
                compares_within(here, min, max),
                here.len() + log2_floor(high - low + 1) <= log2_floor(max - min + 1),
                min <= max,
                low <= high,
                min <= low,
                high <= max,
                n < min ==> low == min,
                n > max ==> high == max,
                min <= n <= max ==> low <= n <= high,
            decreases high - low,
        {
            let mid = low + (high - low) / 2;
            let ghost size = high - low + 1;
            let answer = player.ask_to_compare(mid);
            proof {
                here = here.push(Question::Compare(mid));
                assert(player.questions() =~= q0 + here);
                assert(player.questions().subrange(0, q0.len() as int) =~= q0);
                assert(player.questions().subrange(q0.len() as int, player.questions().len() as int)
                    =~= here);
                lemma_log2_mono(0, size);
                if size >= 2 {
                    lemma_log2_mono(high - mid, size / 2);
                    lemma_log2_mono(mid - low, size / 2);
                }
            }
            match answer {
                0 => return (mid, true),
                1 => {
                    low = mid + 1;
                },
                _ => {
                    if mid == 0 {
                        return (0, true);
                    }
                    high = mid - 1;
                },
            }
            if low > high {
                return (low, false);
            }
        }
    }
}

impl Strategy for Part2 {
    open spec fn accepts(min: u32, max: u32) -> bool {
        min <= max
    }

    /// Binary search between `low = min` and `high = max`: asks about the
    /// middle and keeps the half that holds the secret; when the range is
    /// empty the answer is `low`.
    /// It asks at most `log2_floor(max - min + 1) + 1` questions, each a
    /// comparison with a number in `min..=max`.
    fn guess_the_number(player: &mut Player, min: u32, max: u32) -> (r: u32)
        ensures
            r == binary_result(old(player)@, min, max),
            ({
                let q0 = old(player).questions();
                let q = final(player).questions();
                &&& q0.len() <= q.len()
                &&& q.subrange(0, q0.len() as int) == q0
                &&& compares_within(q.subrange(q0.len() as int, q.len() as int), min, max)
                &&& q.len() - q0.len() <= log2_floor(max - min + 1) + 1
            }),
    {
        Self::guess_reporting(player, min, max).0
    }
}

/// Both strategies find the secret when it lies in `min..max`, so there they agree.
pub proof fn lemma_strategies_agree(n: u32, min: u32, max: u32)
    requires
        min <= n < max,
    ensures
        linear_result(n, min, max) == n,
        binary_result(n, min, max) == n as int,
{
}

} // verus!
