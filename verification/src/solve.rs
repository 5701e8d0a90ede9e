//! The solve itself: one field of view after the other, until one of them solves,
//! the time is up, or the caller withdraws.

use std::sync::atomic::{AtomicBool, Ordering};

use vstd::prelude::*;

use crate::database::{are_bare, is_sound, Database, StarField};
use crate::duration::DURATION_END;
use crate::error::SolverError;
use crate::request::SolveInputs;
use crate::settings::{are_set_up, is_plain};

verus! {

/// Nanoseconds in a millisecond.
pub const MILLISECOND: u128 = 1_000_000;

/// Why one attempt produced no solution.
#[derive(Clone, Copy, Debug, PartialEq, Eq, Structural)]
pub enum SolveStatus {
    NoMatch,
    Timeout,
    TooFew,
}

/// What to do next.
#[derive(Debug, PartialEq, Eq)]
pub enum Step {
    /// Try the next field of view, for so many milliseconds.
    Attempt { timeout_ms: u64 },
    Stop { error: SolverError },
}

/// What to do before the attempt that `n` others came before.
pub open spec fn step_before(n: nat, canceled: bool, elapsed: u128, timeout: u128) -> Step {
    if canceled {
        Step::Stop { error: SolverError::Canceled }
    } else if timeout <= elapsed {
        Step::Stop { error: SolverError::TimedOutBetweenSeeds { seeds: n as usize } }
    } else {
        Step::Attempt { timeout_ms: ((timeout - elapsed) / MILLISECOND as int % 0x1_0000_0000_0000_0000) as u64 }
    }
}

/// Decides whether the next field of view is tried. A withdrawn request is not;
/// nor is anything once the time is up; and what is left of the time is what the
/// attempt may take.
pub fn before_seed(n: usize, canceled: bool, elapsed: u128, timeout: u128) -> (step: Step)
    ensures
        step == step_before(n as nat, canceled, elapsed, timeout),
{
    if canceled {
        Step::Stop { error: SolverError::Canceled }
    } else if timeout <= elapsed {
        Step::Stop { error: SolverError::TimedOutBetweenSeeds { seeds: n } }
    } else {
        let millis: u128 = (timeout - elapsed) / MILLISECOND;
        Step::Attempt { timeout_ms: (millis % 0x1_0000_0000_0000_0000) as u64 }
    }
}

/// What an attempt's failure means for the solve. That there are too few centroids
/// is a property of the image: other fields of view cannot help. Everything else
/// lets the next one be tried.
pub fn after_failure(status: SolveStatus, centroids: usize) -> (error: Option<SolverError>)
    ensures
        error == (if status is TooFew {
            Some(SolverError::TooFew { centroids })
        } else {
            None
        }),
{
    match status {
        SolveStatus::TooFew => Some(SolverError::TooFew { centroids }),
        SolveStatus::NoMatch => None,
        SolveStatus::Timeout => None,
    }
}

/// What is reported when every field of view has been tried in vain.
pub open spec fn exhausted(last: SolveStatus, elapsed: u128, centroids: usize, seeds: usize) -> SolverError {
    if last is Timeout {
        SolverError::TimedOut { elapsed }
    } else {
        SolverError::NoMatch { centroids, seeds }
    }
}

/// Every field of view has been tried in vain: a timeout, if that is how the last
/// attempt failed.
pub fn when_exhausted(last: SolveStatus, elapsed: u128, centroids: usize, seeds: usize) -> (error: SolverError)
    ensures
        error == exhausted(last, elapsed, centroids, seeds),
{
    match last {
        SolveStatus::Timeout => SolverError::TimedOut { elapsed },
        SolveStatus::NoMatch => SolverError::NoMatch { centroids, seeds },
        SolveStatus::TooFew => SolverError::NoMatch { centroids, seeds },
    }
}

/// What was seen in one round: whether the request had been withdrawn, the time
/// since the start, and how the attempt failed. An attempt that solved has no
/// failure; nor has one that was not made.
pub struct Round {
    pub canceled: bool,
    pub elapsed: u128,
    pub failure: Option<SolveStatus>,
}

/// A round after which the next field of view is tried.
pub open spec fn goes_on(n: nat, round: Round, timeout: u128) -> bool {
    &&& step_before(n, round.canceled, round.elapsed, timeout) is Attempt
    &&& round.failure matches Some(status) && !(status is TooFew)
}

/// The failure of the last round: no match, where there was none.
pub open spec fn last_failure(rounds: Seq<Round>) -> SolveStatus {
    if rounds.len() == 0 {
        SolveStatus::NoMatch
    } else {
        rounds.last().failure->0
    }
}

/// The rounds of a solve end in the result `r`: the place of the field of view that
/// solved, or an error. `end` is the time when it was over.
pub open spec fn ends_in(
    rounds: Seq<Round>,
    end: u128,
    timeout: u128,
    centroids: usize,
    seeds: usize,
    r: Result<nat, SolverError>,
) -> bool {
    let n = (rounds.len() - 1) as nat;
    ||| {
        // Every field of view was tried.
        &&& rounds.len() == seeds
        &&& forall|i: int| 0 <= i < rounds.len() ==> goes_on(i as nat, #[trigger] rounds[i], timeout)
        &&& r == Err::<nat, SolverError>(exhausted(last_failure(rounds), end, centroids, seeds))
    }
    ||| {
        // The last round ended it.
        &&& 0 < rounds.len() <= seeds
        &&& forall|i: int| 0 <= i < n ==> goes_on(i as nat, #[trigger] rounds[i], timeout)
        &&& match step_before(n, rounds[n as int].canceled, rounds[n as int].elapsed, timeout) {
            Step::Stop { error } => r == Err::<nat, SolverError>(error),
            Step::Attempt { .. } => match rounds[n as int].failure {
                None => r == Ok::<nat, SolverError>(n),
                Some(status) => status is TooFew && r == Err::<nat, SolverError>(SolverError::TooFew { centroids }),
            },
        }
    }
}

/// The rounds decide the result.
pub proof fn law_rounds_decide(
    rounds: Seq<Round>,
    end: u128,
    timeout: u128,
    centroids: usize,
    seeds: usize,
    r: Result<nat, SolverError>,
    s: Result<nat, SolverError>,
)
    requires
        ends_in(rounds, end, timeout, centroids, seeds, r),
        ends_in(rounds, end, timeout, centroids, seeds, s),
    ensures
        r == s,
{
    if rounds.len() > 0 {
        let n = rounds.len() - 1;
        assert(rounds[n] == rounds.last());
    }
}

/// A solve without fields of view finds no match.
pub proof fn law_no_seeds_no_match(
    rounds: Seq<Round>,
    end: u128,
    timeout: u128,
    centroids: usize,
    r: Result<nat, SolverError>,
)
    requires
        ends_in(rounds, end, timeout, centroids, 0, r),
    ensures
        r == Err::<nat, SolverError>(SolverError::NoMatch { centroids, seeds: 0 }),
{
}

/// Once a round has seen the request withdrawn, no further field of view is tried,
/// and that is what is reported.
pub proof fn law_cancel_stops(
    rounds: Seq<Round>,
    end: u128,
    timeout: u128,
    centroids: usize,
    seeds: usize,
    r: Result<nat, SolverError>,
    i: int,
)
    requires
        ends_in(rounds, end, timeout, centroids, seeds, r),
        0 <= i < rounds.len(),
        rounds[i].canceled,
    ensures
        i == rounds.len() - 1,
        r == Err::<nat, SolverError>(SolverError::Canceled),
{
}

/// Once the time is up, no further field of view is tried, and the error says how
/// many were.
pub proof fn law_deadline_stops(
    rounds: Seq<Round>,
    end: u128,
    timeout: u128,
    centroids: usize,
    seeds: usize,
    r: Result<nat, SolverError>,
    i: int,
)
    requires
        ends_in(rounds, end, timeout, centroids, seeds, r),
        0 <= i < rounds.len(),
        !rounds[i].canceled,
        timeout <= rounds[i].elapsed,
    ensures
        i == rounds.len() - 1,
        r == Err::<nat, SolverError>(SolverError::TimedOutBetweenSeeds { seeds: i as usize }),
{
}

/// A solve that no field of view solved, that was not withdrawn, and that no round
/// found too late or short of centroids, has tried them all.
pub proof fn law_all_are_tried(
    rounds: Seq<Round>,
    end: u128,
    timeout: u128,
    centroids: usize,
    seeds: usize,
    r: Result<nat, SolverError>,
)
    requires
        ends_in(rounds, end, timeout, centroids, seeds, r),
        r is Err,
        !(r->Err_0 is Canceled),
        !(r->Err_0 is TimedOutBetweenSeeds),
        !(r->Err_0 is TooFew),
    ensures
        rounds.len() == seeds,
        r->Err_0 == exhausted(last_failure(rounds), end, centroids, seeds),
{
}

/// What the solver found.
#[verifier::external_type_specification]
#[verifier::external_body]
pub struct ExSolution(tetra3::Solution);

/// A point in time on the monotonic clock.
#[verifier::external_type_specification]
#[verifier::external_body]
pub struct ExInstant(std::time::Instant);

/// Calls `std::time::Instant::now`.
///
/// Trusted: nothing but that it returns.
#[verifier::external_body]
fn start_clock() -> (now: std::time::Instant)
{
    std::time::Instant::now()
}

/// Calls `std::time::Instant::elapsed`.
///
/// Trusted: what comes back is the length of a `std::time::Duration`. How long it is
/// rests on the clock.
#[verifier::external_body]
fn elapsed_since(started: &std::time::Instant) -> (nanos: u128)
    ensures
        nanos < DURATION_END,
{
    started.elapsed().as_nanos()
}

/// Calls `tetra3::SolverDatabase::solve_from_centroids`, with the time limit and the
/// strictness of the hint set as asked.
///
/// Trusted: a hint that is not strict only ever adds a way to solve. Without one the
/// solver wants five centroids; with one it wants three. So four or fewer centroids
/// either solve by the hint or are too few, and two or fewer always are. Anything
/// else rests on the database, the image and the clock, and is not stated.
#[verifier::external_body]
fn attempt(
    db: &tetra3::SolverDatabase,
    centroids: &Vec<tetra3::Centroid>,
    config: tetra3::SolveConfig,
    timeout_ms: u64,
    strict_hint: bool,
) -> (r: Result<tetra3::Solution, SolveStatus>)
    requires
        is_sound(*db),
        are_bare(centroids@),
        is_plain(config),
    ensures
        !strict_hint && centroids.len() <= 4 ==> (r is Err ==> r->Err_0 is TooFew),
        !strict_hint && centroids.len() <= 2 ==> r is Err,
{
    let mut config = config;
    config.solve_timeout_ms = Some(timeout_ms);
    config.strict_hint = strict_hint;
    match db.solve_from_centroids(centroids, &config) {
        Ok(solution) => Ok(solution),
        Err(failure) => match failure.status {
            tetra3::SolveStatus::NoMatch => Err(SolveStatus::NoMatch),
            tetra3::SolveStatus::Timeout => Err(SolveStatus::Timeout),
            tetra3::SolveStatus::TooFew => Err(SolveStatus::TooFew),
        },
    }
}

/// What the solver may answer when it is asked to find `field` in `db`, told so much
/// about the field of view, within a time in milliseconds. A hint is never strict.
pub closed spec fn is_answer(
    db: Database,
    field: StarField,
    config: tetra3::SolveConfig,
    timeout_ms: u64,
    r: Result<tetra3::Solution, SolveStatus>,
) -> bool {
    call_ensures(attempt, (&db@, &field.list(), config, timeout_ms, false), r)
}

/// Four or fewer centroids are too few, unless a hint solves them; two or fewer
/// always are.
pub proof fn law_few_centroids(
    db: Database,
    field: StarField,
    config: tetra3::SolveConfig,
    timeout_ms: u64,
    r: Result<tetra3::Solution, SolveStatus>,
)
    requires
        is_answer(db, field, config, timeout_ms, r),
    ensures
        field.list().len() <= 4 ==> (r matches Err(status) ==> status is TooFew),
        field.list().len() <= 2 ==> r is Err,
{
}

/// What a relaxed load of the flag may give.
pub open spec fn is_reading(cancel: &AtomicBool, b: bool) -> bool {
    call_ensures(AtomicBool::load, (cancel, Ordering::Relaxed), b)
}

/// Whether the caller has withdrawn the request.
fn is_canceled(cancel: &AtomicBool) -> (b: bool)
    ensures
        is_reading(cancel, b),
{
    cancel.load(Ordering::Relaxed)
}

/// A solution, the place of the field of view that gave it, and when the solve began.
pub struct Solved {
    pub solution: tetra3::Solution,
    pub seed: usize,
    pub started: std::time::Instant,
}

/// What the clock may give for the time since `started`, in nanoseconds.
pub closed spec fn is_time_since(started: &std::time::Instant, nanos: u128) -> bool {
    call_ensures(elapsed_since, (started,), nanos)
}

impl Solved {
    /// How long it has been since the solve began, in nanoseconds.
    pub fn elapsed(&self) -> (nanos: u128)
        ensures
            is_time_since(&self.started, nanos),
            nanos < DURATION_END,
    {
        elapsed_since(&self.started)
    }
}

/// The solve of one image: what is searched, for what, told what of each field of
/// view, within what time in nanoseconds, and how the caller withdraws.
pub struct Task<'a> {
    pub db: &'a Database,
    pub field: &'a StarField,
    pub configs: Seq<tetra3::SolveConfig>,
    pub timeout: u128,
    pub cancel: &'a AtomicBool,
}

impl<'a> Task<'a> {
    pub open spec fn centroids(self) -> usize {
        self.field.list().len()
    }

    /// What round `n` may have seen, when the solve began at `started`: what the flag
    /// and the clock gave, and how the solver failed that was asked for field of view
    /// `n`, in the time that was left.
    pub open spec fn is_possible(self, started: std::time::Instant, n: nat, round: Round) -> bool {
        &&& is_reading(self.cancel, round.canceled)
        &&& is_time_since(&started, round.elapsed)
        &&& round.elapsed < DURATION_END
        &&& match step_before(n, round.canceled, round.elapsed, self.timeout) {
            Step::Stop { .. } => round.failure is None,
            Step::Attempt { timeout_ms } => round.failure matches Some(status) ==> is_answer(
                *self.db,
                *self.field,
                self.configs[n as int],
                timeout_ms,
                Err(status),
            ),
        }
    }

    /// What solved is the solver's answer for field of view `n`, in the time that was
    /// left.
    pub open spec fn solves(self, n: nat, round: Round, solution: tetra3::Solution) -> bool {
        match step_before(n, round.canceled, round.elapsed, self.timeout) {
            Step::Stop { .. } => false,
            Step::Attempt { timeout_ms } => is_answer(
                *self.db,
                *self.field,
                self.configs[n as int],
                timeout_ms,
                Ok(solution),
            ),
        }
    }

    /// The solver was asked for field of view `i`, and failed.
    pub open spec fn fails(self, i: int) -> bool {
        exists|timeout_ms: u64, status: SolveStatus| #[trigger]
            is_answer(*self.db, *self.field, self.configs[i], timeout_ms, Err(status)) && !(status is TooFew)
    }

    /// The rounds of a solve that began at `started` and was over after `end` make for
    /// the result `r`.
    pub open spec fn comes_to(
        self,
        started: std::time::Instant,
        rounds: Seq<Round>,
        end: u128,
        r: Result<Solved, SolverError>,
    ) -> bool {
        &&& ends_in(rounds, end, self.timeout, self.centroids(), self.configs.len() as usize, seed_of(r))
        &&& is_time_since(&started, end)
        &&& end < DURATION_END
        &&& forall|i: int| 0 <= i < rounds.len() ==> self.is_possible(started, i as nat, #[trigger] rounds[i])
        &&& r matches Ok(solved) ==> {
            &&& solved.started == started
            &&& self.solves(solved.seed as nat, rounds[solved.seed as int], solved.solution)
        }
    }

    /// The result of the solve may be `r`.
    pub open spec fn is_outcome(self, r: Result<Solved, SolverError>) -> bool {
        exists|started: std::time::Instant, rounds: Seq<Round>, end: u128| #[trigger]
            self.comes_to(started, rounds, end, r)
    }
}

/// The place of the field of view that solved, or the error.
pub open spec fn seed_of(r: Result<Solved, SolverError>) -> Result<nat, SolverError> {
    match r {
        Ok(solved) => Ok(solved.seed as nat),
        Err(error) => Err(error),
    }
}

/// Runs the solve: one attempt for each of the request's fields of view, in order,
/// until one solves. `field` holds its centroids, and `configs` what the solver is told
/// about each field of view.
///
/// The request can be withdrawn between attempts; an attempt under way runs to its
/// end. A hint is never strict, so that a stale or a wrong one cannot lose an image
/// that would have been solved without it. Nor are solutions held to a field of view:
/// to the solver that would be a filter on what it found, not the width of its search.
pub fn solve_blocking(
    db: &Database,
    inputs: &SolveInputs,
    field: &StarField,
    configs: Vec<tetra3::SolveConfig>,
    cancel: &AtomicBool,
) -> (r: Result<Solved, SolverError>)
    requires
        are_set_up(*inputs, *field, configs@),
    ensures
        (Task { db, field, configs: configs@, timeout: inputs.timeout, cancel }).is_outcome(r),
        r matches Ok(solved) ==> solved.seed < inputs.seeds.len() && inputs.centroids.len() > 2,
        r matches Err(error) ==> error.well_formed(),
{
    let timeout: u128 = inputs.timeout;
    let ghost task = Task { db, field, configs: configs@, timeout, cancel };
    let started: std::time::Instant = start_clock();
    let seeds: usize = configs.len();
    let centroids: usize = field.len();
    let mut rest: Vec<tetra3::SolveConfig> = configs;
    let mut last: SolveStatus = SolveStatus::NoMatch;
    let mut n: usize = 0;
    let ghost mut rounds: Seq<Round> = Seq::empty();
    while n < seeds
        invariant
            n <= seeds,
            task == (Task { db, field, configs: configs@, timeout, cancel }),
            timeout == inputs.timeout,
            are_set_up(*inputs, *field, configs@),
            seeds == task.configs.len(),
            centroids == task.centroids(),
            rest@ == task.configs.skip(n as int),
            rounds.len() == n,
            last == last_failure(rounds),
            forall|i: int| 0 <= i < n ==> goes_on(i as nat, #[trigger] rounds[i], timeout),
            forall|i: int| 0 <= i < n ==> task.is_possible(started, i as nat, #[trigger] rounds[i]),
        decreases seeds - n,
    {
        let canceled: bool = is_canceled(cancel);
        let elapsed: u128 = elapsed_since(&started);
        let ghost ended = rounds.push(Round { canceled, elapsed, failure: None });
        assert(ended[n as int] == (Round { canceled, elapsed, failure: None }));
        let timeout_ms: u64 = match before_seed(n, canceled, elapsed, timeout) {
            Step::Stop { error } => {
                assert(task.comes_to(started, ended, elapsed, Err(error)));
                return Err(error);
            },
            Step::Attempt { timeout_ms } => timeout_ms,
        };
        let config: tetra3::SolveConfig = rest.remove(0);
        assert(config == task.configs[n as int]);
        assert(rest@ == task.configs.skip(n + 1));
        match attempt(db.tables(), field.centroids(), config, timeout_ms, false) {
            Ok(solution) => {
                let solved: Solved = Solved { solution, seed: n, started };
                assert(task.comes_to(started, ended, elapsed, Ok(solved)));
                return Ok(solved);
            },
            Err(status) => {
                let ghost round = Round { canceled, elapsed, failure: Some(status) };
                let ghost ended = rounds.push(round);
                assert(ended[n as int] == round);
                match after_failure(status, centroids) {
                    Some(error) => {
                        assert(task.comes_to(started, ended, elapsed, Err(error)));
                        return Err(error);
                    },
                    None => {
                        last = status;
                        proof {
                            rounds = ended;
                        }
                    },
                }
            },
        }
        n = n + 1;
    }
    let elapsed: u128 = elapsed_since(&started);
    let error: SolverError = when_exhausted(last, elapsed, centroids, seeds);
    assert(task.comes_to(started, rounds, elapsed, Err(error)));
    Err(error)
}

/// What solved is what the solver answered for the field of view that is named, and
/// for every one before it the solver was asked and failed.
pub proof fn law_first_answer_is_taken(
    task: Task,
    started: std::time::Instant,
    rounds: Seq<Round>,
    end: u128,
    solved: Solved,
)
    requires
        task.configs.len() <= usize::MAX,
        task.comes_to(started, rounds, end, Ok(solved)),
    ensures
        rounds.len() == solved.seed + 1,
        exists|timeout_ms: u64| #[trigger]
            is_answer(*task.db, *task.field, task.configs[solved.seed as int], timeout_ms, Ok(solved.solution)),
        forall|i: int| 0 <= i < solved.seed ==> #[trigger] task.fails(i),
{
    assert forall|i: int| 0 <= i < solved.seed implies #[trigger] task.fails(i) by {
        assert(goes_on(i as nat, rounds[i], task.timeout));
        assert(task.is_possible(started, i as nat, rounds[i]));
    }
}

/// When a request is found withdrawn, the solver has been asked for the fields of view
/// before that, in vain, and is asked for none after.
pub proof fn law_cancel_asks_no_more(
    task: Task,
    started: std::time::Instant,
    rounds: Seq<Round>,
    end: u128,
    r: Result<Solved, SolverError>,
    n: int,
)
    requires
        task.configs.len() <= usize::MAX,
        task.comes_to(started, rounds, end, r),
        0 <= n < rounds.len(),
        rounds[n].canceled,
    ensures
        r == Err::<Solved, SolverError>(SolverError::Canceled),
        rounds.len() == n + 1,
        rounds[n].failure is None,
        forall|i: int| 0 <= i < n ==> (#[trigger] rounds[i]).failure is Some,
{
    assert(task.is_possible(started, n as nat, rounds[n]));
    assert forall|i: int| 0 <= i < n implies (#[trigger] rounds[i]).failure is Some by {
        assert(goes_on(i as nat, rounds[i], task.timeout));
    }
}

/// An attempt is never given more time than is left, nor one that starts later more
/// than one that starts earlier, as long as the time left fits in 64 bits.
pub proof fn law_time_left(n: nat, m: nat, earlier: u128, later: u128, timeout: u128)
    requires
        earlier <= later < timeout,
        timeout / MILLISECOND <= u64::MAX,
    ensures
        step_before(n, false, earlier, timeout) is Attempt,
        step_before(m, false, later, timeout) is Attempt,
        step_before(n, false, earlier, timeout)->timeout_ms * MILLISECOND <= timeout - earlier,
        step_before(m, false, later, timeout)->timeout_ms <= step_before(n, false, earlier, timeout)->timeout_ms,
{
    let a = (timeout - earlier) / MILLISECOND as int;
    let b = (timeout - later) / MILLISECOND as int;
    assert(0 <= b <= a <= timeout as int / MILLISECOND as int);
    assert(a * MILLISECOND <= timeout - earlier);
}

/// A solve that is given no time tries nothing: it was withdrawn, or it is late.
pub proof fn law_no_time_no_attempt(task: Task, r: Result<Solved, SolverError>)
    requires
        task.is_outcome(r),
        task.timeout == 0,
        0 < task.configs.len() <= usize::MAX,
    ensures
        r == Err::<Solved, SolverError>(SolverError::Canceled) || r == Err::<Solved, SolverError>(
            SolverError::TimedOutBetweenSeeds { seeds: 0 },
        ),
{
    let (started, rounds, end) = choose|started: std::time::Instant, rounds: Seq<Round>, end: u128| #[trigger]
        task.comes_to(started, rounds, end, r);
    if rounds.len() > 0 {
        assert(!goes_on(0, rounds[0], 0));
    }
}

/// With four or fewer centroids, a solve that had something to try and was neither
/// withdrawn nor late says that there are too few of them.
pub proof fn law_few_centroids_are_reported(task: Task, r: Result<Solved, SolverError>)
    requires
        task.is_outcome(r),
        task.centroids() <= 4,
        0 < task.configs.len() <= usize::MAX,
        r is Err,
        !(r->Err_0 is Canceled),
        !(r->Err_0 is TimedOutBetweenSeeds),
    ensures
        r == Err::<Solved, SolverError>(SolverError::TooFew { centroids: task.centroids() }),
{
    let (started, rounds, end) = choose|started: std::time::Instant, rounds: Seq<Round>, end: u128| #[trigger]
        task.comes_to(started, rounds, end, r);
    if rounds.len() > 0 {
        assert(task.is_possible(started, 0, rounds[0]));
    }
}

/// So many milliseconds, of which 64 bits are told, are what is left of the time.
pub open spec fn is_left(timeout_ms: u64, left: int) -> bool {
    &&& left < 18_446_744_073_709_551_616_000_000 ==> timeout_ms * 1_000_000 <= left < (timeout_ms + 1) * 1_000_000
    &&& (left / 1_000_000 - timeout_ms) % 0x1_0000_0000_0000_0000 == 0
}

proof fn lemma_left(left: int)
    requires
        0 <= left,
    ensures
        is_left((left / MILLISECOND as int % 0x1_0000_0000_0000_0000) as u64, left),
{
    let m = left / 1_000_000;
    let w = 0x1_0000_0000_0000_0000int;
    vstd::arithmetic::div_mod::lemma_fundamental_div_mod(m, w);
    let q = m / w;
    vstd::arithmetic::div_mod::lemma_fundamental_div_mod_converse(m - m % w, w, q, 0);
    if left < 18_446_744_073_709_551_616_000_000 {
        assert(m < w);
        vstd::arithmetic::div_mod::lemma_small_mod(m as nat, w as nat);
    }
}

/// A withdrawn request stops, whatever the time. One whose time is up stops too, and tells
/// how many fields of view were tried. Any other goes on, with the time that is left.
pub proof fn law_next_step(n: usize, canceled: bool, elapsed: u128, timeout: u128, step: Step)
    requires
        call_ensures(before_seed, (n, canceled, elapsed, timeout), step),
    ensures
        canceled ==> step == (Step::Stop { error: SolverError::Canceled }),
        !canceled && elapsed >= timeout ==> step == (Step::Stop {
            error: SolverError::TimedOutBetweenSeeds { seeds: n },
        }),
        !canceled && elapsed < timeout ==> step is Attempt && is_left(step->timeout_ms, timeout - elapsed),
{
    if elapsed < timeout {
        lemma_left(timeout - elapsed);
    }
}

/// Only that there are too few centroids ends a solve; any other failure lets the next
/// field of view be tried.
pub proof fn law_only_too_few_is_final(status: SolveStatus, centroids: usize, error: Option<SolverError>)
    requires
        call_ensures(after_failure, (status, centroids), error),
    ensures
        status is NoMatch || status is Timeout ==> error is None,
        status is TooFew ==> error == Some(SolverError::TooFew { centroids }),
{
}

/// When all have been tried, a last one that ran out of time makes it a timeout, with the
/// time it took; otherwise there was no match.
pub proof fn law_last_failure_decides(
    last: SolveStatus,
    elapsed: u128,
    centroids: usize,
    seeds: usize,
    error: SolverError,
)
    requires
        call_ensures(when_exhausted, (last, elapsed, centroids, seeds), error),
    ensures
        last is Timeout ==> error == (SolverError::TimedOut { elapsed }),
        !(last is Timeout) ==> error == (SolverError::NoMatch { centroids, seeds }),
{
}

/// The solver was asked for one field of view, in the time that was left of a request
/// that was not withdrawn, and answered `r`.
pub open spec fn was_answered(
    db: Database,
    field: StarField,
    config: tetra3::SolveConfig,
    timeout: u128,
    round: Round,
    r: Result<tetra3::Solution, SolveStatus>,
) -> bool {
    &&& !round.canceled
    &&& round.elapsed < timeout
    &&& exists|timeout_ms: u64| #[trigger]
        is_answer(db, field, config, timeout_ms, r) && is_left(timeout_ms, timeout - round.elapsed)
}

/// What was seen makes for the result of a solve, told from the result: how many fields of
/// view were tried, in order, and what came of each.
pub open spec fn explains(
    db: Database,
    inputs: SolveInputs,
    field: StarField,
    configs: Seq<tetra3::SolveConfig>,
    rounds: Seq<Round>,
    end: u128,
    r: Result<Solved, SolverError>,
) -> bool {
    let last = rounds.len() - 1;
    let timeout = inputs.timeout;
    // Before the last round, each field of view was tried in vain.
    &&& rounds.len() <= configs.len()
    &&& forall|i: int|
        0 <= i < last ==> {
            let round = #[trigger] rounds[i];
            &&& round.failure is Some && !(round.failure->0 is TooFew)
            &&& was_answered(db, field, configs[i], timeout, round, Err(round.failure->0))
        }
    &&& match r {
        Ok(solved) => {
            &&& solved.seed == last
            &&& 0 <= last
            &&& was_answered(db, field, configs[last], timeout, rounds[last], Ok(solved.solution))
        },
        Err(SolverError::Canceled) => 0 <= last && rounds[last].canceled,
        Err(SolverError::TimedOutBetweenSeeds { seeds }) => {
            &&& 0 <= last && seeds == last
            &&& !rounds[last].canceled && rounds[last].elapsed >= timeout
        },
        Err(SolverError::TooFew { centroids }) => {
            &&& 0 <= last && centroids == inputs.centroids.len()
            &&& was_answered(db, field, configs[last], timeout, rounds[last], Err(SolveStatus::TooFew))
        },
        Err(SolverError::TimedOut { elapsed }) => {
            &&& 0 <= last && rounds.len() == configs.len() && elapsed == end
            &&& was_answered(db, field, configs[last], timeout, rounds[last], Err(SolveStatus::Timeout))
        },
        Err(SolverError::NoMatch { centroids, seeds }) => {
            &&& rounds.len() == configs.len()
            &&& centroids == inputs.centroids.len() && seeds == configs.len()
            &&& 0 <= last ==> was_answered(db, field, configs[last], timeout, rounds[last], Err(SolveStatus::NoMatch))
        },
        Err(_) => false,
    }
}

/// A solve asks for one field of view after the other, in order, each in the time that is
/// left, until one solves. That one is its result, with the first answer that the solver
/// gave. It ends before that only when the request is withdrawn, when the time is up, or
/// when there are too few centroids; and says so. When all were in vain, it says whether
/// the last ran out of time.
pub proof fn law_solve_is_explained(
    db: Database,
    inputs: SolveInputs,
    field: StarField,
    configs: Vec<tetra3::SolveConfig>,
    cancel: AtomicBool,
    r: Result<Solved, SolverError>,
)
    requires
        call_ensures(solve_blocking, (&db, &inputs, &field, configs, &cancel), r),
        are_set_up(inputs, field, configs@),
    ensures
        exists|rounds: Seq<Round>, end: u128| #[trigger] explains(db, inputs, field, configs@, rounds, end, r),
{
    let task = Task { db: &db, field: &field, configs: configs@, timeout: inputs.timeout, cancel: &cancel };
    let (started, rounds, end) = choose|started: std::time::Instant, rounds: Seq<Round>, end: u128| #[trigger]
        task.comes_to(started, rounds, end, r);
    let last = rounds.len() - 1;
    assert forall|i: int| 0 <= i < rounds.len() && (#[trigger] rounds[i]).failure is Some implies was_answered(
        db,
        field,
        configs@[i],
        inputs.timeout,
        rounds[i],
        Err(rounds[i].failure->0),
    ) by {
        assert(task.is_possible(started, i as nat, rounds[i]));
        lemma_left(inputs.timeout - rounds[i].elapsed);
    }
    if last >= 0 {
        assert(rounds[last] == rounds.last());
        if rounds[last].elapsed < inputs.timeout {
            lemma_left(inputs.timeout - rounds[last].elapsed);
        }
    }
    assert(explains(db, inputs, field, configs@, rounds, end, r));
}

/// An answer is the solver's own: to the database, the centroids and the config that were
/// given, in the time that was given, with a hint that is not strict.
proof fn law_answers_are_the_solvers(
    db: Database,
    field: StarField,
    config: tetra3::SolveConfig,
    timeout_ms: u64,
    r: Result<tetra3::Solution, SolveStatus>,
)
    requires
        is_answer(db, field, config, timeout_ms, r),
    ensures
        call_ensures(attempt, (&db@, &field.list(), config, timeout_ms, false), r),
{
}

/// The time since a solve began is the clock's own.
proof fn law_times_are_the_clocks(solved: Solved, nanos: u128)
    requires
        call_ensures(Solved::elapsed, (&solved,), nanos),
    ensures
        call_ensures(elapsed_since, (&solved.started,), nanos),
{
}

} // verus!
