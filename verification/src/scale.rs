//! How many sentences to give a prover, by how the last attempt ended.
use vstd::prelude::*;

verus! {

/// How an attempt ended.
#[derive(Clone, Copy, Debug, PartialEq, Eq, Structural)]
pub enum ProverStatus {
    Proved,
    Disproved,
    Consistent,
    Inconsistent,
    Timeout,
    InputError,
    Unknown,
}

/// Why an attempt ended without a verdict.
#[derive(Clone, Copy, Debug, PartialEq, Eq, Structural)]
pub enum TerminationReason {
    TimeLimit,
    ResourceOut,
    Saturation,
    GaveUp,
    Other,
}

/// The limits of the search for a budget.
#[derive(Clone, Copy, Debug, PartialEq, Eq, Structural)]
pub struct ScaleConfig {
    /// What the budget is multiplied or divided by.
    pub factor: usize,
    /// How many attempts in a row may ask for more sentences.
    pub max_disproofs: usize,
    /// How many attempts may ask for fewer.
    pub max_time_runs: usize,
    /// The smallest budget.
    pub min_budget: usize,
    /// Seconds for all attempts together; zero for no limit.
    pub total_timeout: u32,
}

/// What to do next.
#[derive(Clone, Copy, Debug, PartialEq, Eq, Structural)]
pub enum ScaleAct {
    /// Give more sentences.
    Widen,
    /// Give fewer.
    Narrow,
    /// Stop.
    Done,
}

/// What the end of an attempt asks for: a refuted or exhausted search more
/// sentences, a search cut short fewer.
pub open spec fn asked_for(status: ProverStatus, term: Option<TerminationReason>) -> ScaleAct {
    match status {
        ProverStatus::Disproved => ScaleAct::Widen,
        ProverStatus::Timeout => ScaleAct::Narrow,
        ProverStatus::Unknown => match term {
            Some(TerminationReason::Saturation) => ScaleAct::Widen,
            Some(TerminationReason::GaveUp) => ScaleAct::Widen,
            Some(TerminationReason::ResourceOut) => ScaleAct::Narrow,
            _ => ScaleAct::Done,
        },
        _ => ScaleAct::Done,
    }
}

/// What the end of an attempt asks for.
pub fn classify(status: ProverStatus, term: Option<TerminationReason>) -> (r: ScaleAct)
    ensures
        r == asked_for(status, term),
{
    match (status, term) {
        (ProverStatus::Proved, _) | (ProverStatus::Inconsistent, _) | (ProverStatus::InputError, _) => ScaleAct::Done,
        (ProverStatus::Disproved, _) => ScaleAct::Widen,
        (ProverStatus::Timeout, _) => ScaleAct::Narrow,
        (ProverStatus::Unknown, Some(TerminationReason::Saturation)) => ScaleAct::Widen,
        (ProverStatus::Unknown, Some(TerminationReason::GaveUp)) => ScaleAct::Widen,
        (ProverStatus::Unknown, Some(TerminationReason::ResourceOut)) => ScaleAct::Narrow,
        _ => ScaleAct::Done,
    }
}

/// Nanoseconds in a second.
pub const SECOND: u64 = 1_000_000_000;

/// The search for a budget.
#[derive(Clone, Copy, Debug, PartialEq, Eq, Structural)]
pub struct PlannerState {
    pub cfg: ScaleConfig,
    pub budget: usize,
    /// The largest budget that was too small.
    pub lo: Option<usize>,
    /// The smallest budget that was too large.
    pub hi: Option<usize>,
    pub consecutive_widens: usize,
    pub time_runs_used: usize,
    /// Nanoseconds left for all attempts together; less than nothing once they
    /// took longer.
    pub time_left: i128,
}

/// The larger of two.
pub open spec fn larger(a: int, b: int) -> int {
    if a > b {
        a
    } else {
        b
    }
}

/// One more, but no more than fits.
pub open spec fn one_more(n: usize) -> usize {
    if n == usize::MAX {
        n
    } else {
        (n + 1) as usize
    }
}

/// The search before the first attempt.
pub open spec fn started(budget: usize, cfg: ScaleConfig) -> PlannerState {
    PlannerState {
        cfg,
        budget: larger(budget as int, cfg.min_budget as int) as usize,
        lo: None,
        hi: None,
        consecutive_widens: 0,
        time_runs_used: 0,
        time_left: (cfg.total_timeout * SECOND) as i128,
    }
}

/// The time for all attempts is over.
pub open spec fn out_of_time(s: PlannerState) -> bool {
    s.cfg.total_timeout != 0 && s.time_left <= 0
}

/// Whole seconds, rounded up.
pub open spec fn ceil_seconds(nanos: int, runs: int) -> int {
    (nanos + runs * SECOND - 1) / (runs * SECOND)
}

/// How many runs that ask for fewer sentences are left, at least one.
pub open spec fn runs_left(s: PlannerState) -> int {
    larger(s.cfg.max_time_runs - s.time_runs_used, 1)
}

/// The seconds for the next attempt: an equal share of what is left, rounded
/// up; zero for no limit or no time.
pub open spec fn share(s: PlannerState) -> int {
    if s.cfg.total_timeout == 0 || s.time_left <= 0 {
        0
    } else {
        ceil_seconds(s.time_left as int, runs_left(s))
    }
}

/// The time left after an attempt, down to the least number that fits.
pub open spec fn spent(s: PlannerState, elapsed: u64) -> PlannerState {
    PlannerState { time_left: larger(s.time_left - elapsed, i128::MIN as int) as i128, ..s }
}

/// The next larger budget: halfway to one that was too large, else so many
/// times as large.
pub open spec fn wider(s: PlannerState) -> int {
    match s.hi {
        Some(h) => (s.budget + h) / 2,
        None => if s.budget * s.cfg.factor > usize::MAX {
            usize::MAX as int
        } else {
            s.budget * s.cfg.factor
        },
    }
}

/// The next smaller budget: halfway to one that was too small, else so many
/// times as small, but no smaller than the smallest.
pub open spec fn narrower(s: PlannerState) -> int {
    match s.lo {
        Some(l) => (l + s.budget) / 2,
        None => larger(s.budget as int / s.cfg.factor as int, s.cfg.min_budget as int),
    }
}

/// The search goes on with the budget divided by the factor.
pub open spec fn divides(s: PlannerState, act: ScaleAct, floor: bool, elapsed: u64) -> bool {
    act == ScaleAct::Narrow && !floor && s.lo is None && s.budget > s.cfg.min_budget && one_more(s.time_runs_used)
        < s.cfg.max_time_runs && !out_of_time(spent(s, elapsed))
}

/// The search after an attempt, and whether it goes on.
pub open spec fn stepped(s: PlannerState, act: ScaleAct, ceiling: bool, floor: bool, elapsed: u64) -> (PlannerState, bool) {
    let t = spent(s, elapsed);
    match act {
        ScaleAct::Done => (t, false),
        ScaleAct::Widen => {
            let w = PlannerState { consecutive_widens: one_more(t.consecutive_widens), ..t };
            let at = PlannerState { lo: Some(w.budget), ..w };
            if ceiling || w.consecutive_widens >= w.cfg.max_disproofs || out_of_time(w) {
                (w, false)
            } else if wider(w) <= w.budget {
                (at, false)
            } else {
                (PlannerState { budget: wider(w) as usize, ..at }, true)
            }
        },
        ScaleAct::Narrow => {
            let n = PlannerState { consecutive_widens: 0, time_runs_used: one_more(t.time_runs_used), ..t };
            let at = PlannerState { hi: Some(n.budget), ..n };
            if floor || n.budget <= n.cfg.min_budget || n.time_runs_used >= n.cfg.max_time_runs || out_of_time(n) {
                (n, false)
            } else if narrower(n) >= n.budget {
                (at, false)
            } else {
                (PlannerState { budget: narrower(n) as usize, ..at }, true)
            }
        },
    }
}

/// The search for a budget.
#[derive(Debug)]
pub struct ScalePlanner {
    state: PlannerState,
}

impl View for ScalePlanner {
    type V = PlannerState;

    closed spec fn view(&self) -> PlannerState {
        self.state
    }
}

fn midway(a: usize, b: usize) -> (m: usize)
    ensures
        m == (a + b) / 2,
{
    a / 2 + b / 2 + (a % 2 + b % 2) / 2
}

fn time_after(left: i128, elapsed: u64) -> (r: i128)
    ensures
        r == larger(left - elapsed, i128::MIN as int),
{
    let e: i128 = elapsed as i128;
    if left < i128::MIN + e {
        i128::MIN
    } else {
        left - e
    }
}

fn bumped(n: usize) -> (r: usize)
    ensures
        r == one_more(n),
{
    if n == usize::MAX {
        n
    } else {
        n + 1
    }
}

impl ScalePlanner {
    /// No more time is left than there was.
    pub closed spec fn wf(&self) -> bool {
        self.state.time_left <= self.state.cfg.total_timeout * SECOND
    }

    /// The search before the first attempt.
    pub fn new(start_budget: usize, cfg: ScaleConfig) -> (p: ScalePlanner)
        ensures
            p.wf(),
            p@ == started(start_budget, cfg),
    {
        ScalePlanner {
            state: PlannerState {
                cfg,
                budget: if start_budget > cfg.min_budget {
                    start_budget
                } else {
                    cfg.min_budget
                },
                lo: None,
                hi: None,
                consecutive_widens: 0,
                time_runs_used: 0,
                time_left: (cfg.total_timeout as u64 * SECOND) as i128,
            },
        }
    }

    /// The budget of the next attempt.
    pub fn budget(&self) -> (b: usize)
        ensures
            b == self@.budget,
    {
        self.state.budget
    }

    /// Nanoseconds left for all attempts together; less than nothing once they
    /// took longer.
    pub fn time_left(&self) -> (t: i128)
        ensures
            t == self@.time_left,
    {
        self.state.time_left
    }

    /// The time for all attempts is over.
    pub fn deadline_exceeded(&self) -> (r: bool)
        ensures
            r == out_of_time(self@),
    {
        self.state.cfg.total_timeout != 0 && self.state.time_left <= 0
    }

    /// The seconds for the next attempt; zero for no limit or no time.
    pub fn slice(&self) -> (s: u32)
        requires
            self.wf(),
        ensures
            s == share(self@),
    {
        if self.state.cfg.total_timeout == 0 || self.state.time_left <= 0 {
            return 0;
        }
        let used = self.state.time_runs_used;
        let max = self.state.cfg.max_time_runs;
        let runs: usize = if max > used && max - used > 1 {
            max - used
        } else {
            1
        };
        let left: u128 = self.state.time_left as u128;
        assert(1 <= runs * SECOND <= 0xffff_ffff_ffff_ffff * SECOND) by (nonlinear_arith)
            requires
                1 <= runs <= 0xffff_ffff_ffff_ffff,
                SECOND == 1_000_000_000,
        ;
        let unit: u128 = runs as u128 * SECOND as u128;
        let out: u128 = (left + unit - 1) / unit;
        proof {
            let total = self.state.cfg.total_timeout as int;
            assert(out <= total) by (nonlinear_arith)
                requires
                    out == (left + unit - 1) / unit as int,
                    left <= total * 1_000_000_000,
                    unit == runs * 1_000_000_000,
                    runs >= 1,
                    total >= 0,
            {
                assert(total * unit >= total * 1_000_000_000) by (nonlinear_arith)
                    requires
                        unit == runs * 1_000_000_000,
                        runs >= 1,
                        total >= 0,
                ;
                assert(left + unit - 1 < (total + 1) * unit);
            }
        }
        out as u32
    }

    /// Takes in how an attempt ended: what it asks for, whether all sentences
    /// were in or none could be left out, and the nanoseconds it took. Says
    /// whether to go on.
    pub fn step(&mut self, act: ScaleAct, reached_ceiling: bool, reached_floor: bool, elapsed: u64) -> (go: bool)
        requires
            old(self).wf(),
            divides(old(self)@, act, reached_floor, elapsed) ==> old(self)@.cfg.factor > 0,
        ensures
            final(self).wf(),
            (final(self)@, go) == stepped(old(self)@, act, reached_ceiling, reached_floor, elapsed),
    {
        self.state.time_left = time_after(self.state.time_left, elapsed);
        let timed_out = self.deadline_exceeded();
        match act {
            ScaleAct::Done => false,
            ScaleAct::Widen => {
                self.state.consecutive_widens = bumped(self.state.consecutive_widens);
                if reached_ceiling || self.state.consecutive_widens >= self.state.cfg.max_disproofs || timed_out {
                    return false;
                }
                let next: usize = match self.state.hi {
                    Some(h) => midway(self.state.budget, h),
                    None => match self.state.budget.checked_mul(self.state.cfg.factor) {
                        Some(n) => n,
                        None => usize::MAX,
                    },
                };
                self.state.lo = Some(self.state.budget);
                if next <= self.state.budget {
                    return false;
                }
                self.state.budget = next;
                true
            },
            ScaleAct::Narrow => {
                self.state.consecutive_widens = 0;
                self.state.time_runs_used = bumped(self.state.time_runs_used);
                if reached_floor || self.state.budget <= self.state.cfg.min_budget || self.state.time_runs_used
                    >= self.state.cfg.max_time_runs || timed_out {
                    return false;
                }
                let next: usize = match self.state.lo {
                    Some(l) => midway(l, self.state.budget),
                    None => {
                        let n = self.state.budget / self.state.cfg.factor;
                        if n > self.state.cfg.min_budget {
                            n
                        } else {
                            self.state.cfg.min_budget
                        }
                    },
                };
                self.state.hi = Some(self.state.budget);
                if next >= self.state.budget {
                    return false;
                }
                self.state.budget = next;
                true
            },
        }
    }
}

/// What comes after an attempt.
#[derive(Clone, Copy, Debug, PartialEq, Eq, Structural)]
pub enum Verdict {
    /// The attempt's own result is the answer.
    Settled,
    /// The attempt's result is the best there is, and the search is over.
    Best,
    /// The attempt's result is the best so far; another attempt may follow.
    Again,
}

/// The attempts of a search, one after another.
#[derive(Debug)]
pub struct ScaleDriver {
    pub planner: ScalePlanner,
    pub rounds_left: usize,
}

/// How many attempts there are at most.
pub open spec fn round_limit(cfg: ScaleConfig) -> int {
    let n = cfg.max_disproofs + cfg.max_time_runs + 8;
    if n > usize::MAX {
        usize::MAX as int
    } else {
        n
    }
}

impl ScaleDriver {
    /// Before the first attempt.
    pub fn new(start_budget: usize, cfg: ScaleConfig) -> (d: ScaleDriver)
        ensures
            d.planner.wf(),
            d.planner@ == started(start_budget, cfg),
            d.rounds_left == round_limit(cfg),
    {
        let rounds: usize = cfg.max_disproofs.saturating_add(cfg.max_time_runs).saturating_add(8);
        ScaleDriver { planner: ScalePlanner::new(start_budget, cfg), rounds_left: rounds }
    }

    /// The budget and the seconds of the next attempt: none once the rounds or
    /// the time are used up.
    pub fn next(&mut self) -> (r: Option<(usize, u32)>)
        requires
            old(self).planner.wf(),
        ensures
            final(self).planner == old(self).planner,
            r is None <==> old(self).rounds_left == 0 || out_of_time(old(self).planner@),
            r matches Some(p) ==> p.0 == old(self).planner@.budget && p.1 == share(old(self).planner@)
                && final(self).rounds_left == old(self).rounds_left - 1,
            r is None ==> final(self).rounds_left == old(self).rounds_left,
    {
        if self.rounds_left == 0 || self.planner.deadline_exceeded() {
            return None;
        }
        self.rounds_left = self.rounds_left - 1;
        Some((self.planner.budget(), self.planner.slice()))
    }

    /// Says whether the search would go on from such an attempt with the budget
    /// divided by the factor, which must then not be zero.
    pub fn divides_budget(
        &self,
        status: ProverStatus,
        term: Option<TerminationReason>,
        selected: usize,
        elapsed: u64,
    ) -> (r: bool)
        ensures
            r == divides(self.planner@, asked_for(status, term), selected > self.planner@.budget, elapsed),
    {
        let s = &self.planner.state;
        let over = s.cfg.total_timeout != 0 && time_after(s.time_left, elapsed) <= 0;
        classify(status, term) == ScaleAct::Narrow && selected <= s.budget && s.lo.is_none() && s.budget > s.cfg.min_budget
            && bumped(s.time_runs_used) < s.cfg.max_time_runs && !over
    }

    /// Takes in how the attempt at the budget ended: fewer sentences selected
    /// than the budget means that there are no more, and more that none can be
    /// left out.
    pub fn record(&mut self, status: ProverStatus, term: Option<TerminationReason>, selected: usize, elapsed: u64) -> (v: Verdict)
        requires
            old(self).planner.wf(),
            divides(old(self).planner@, asked_for(status, term), selected > old(self).planner@.budget, elapsed)
                ==> old(self).planner@.cfg.factor > 0,
        ensures
            final(self).planner.wf(),
            final(self).rounds_left == old(self).rounds_left,
            v == Verdict::Settled <==> asked_for(status, term) == ScaleAct::Done,
            v == Verdict::Settled ==> final(self).planner == old(self).planner,
            v != Verdict::Settled ==> (final(self).planner@, v == Verdict::Again) == stepped(
                old(self).planner@,
                asked_for(status, term),
                selected < old(self).planner@.budget,
                selected > old(self).planner@.budget,
                elapsed,
            ),
    {
        let act = classify(status, term);
        if act == ScaleAct::Done {
            return Verdict::Settled;
        }
        let budget = self.planner.budget();
        if self.planner.step(act, selected < budget, selected > budget, elapsed) {
            Verdict::Again
        } else {
            Verdict::Best
        }
    }
}

/// The bracket around the budget: what was too small is smaller, what was
/// too large is larger.
pub open spec fn bracketed(s: PlannerState) -> bool {
    (s.lo matches Some(l) ==> l <= s.budget) && (s.hi matches Some(h) ==> s.budget <= h)
}

/// A search that goes on changes the budget in the direction asked for, and
/// stays within its bracket.
pub proof fn law_search_stays_bracketed(s: PlannerState, act: ScaleAct, ceiling: bool, floor: bool, elapsed: u64)
    requires
        bracketed(s),
        divides(s, act, floor, elapsed) ==> s.cfg.factor > 0,
    ensures
        bracketed(stepped(s, act, ceiling, floor, elapsed).0),
        stepped(s, act, ceiling, floor, elapsed).1 ==> match act {
            ScaleAct::Widen => stepped(s, act, ceiling, floor, elapsed).0.budget > s.budget,
            ScaleAct::Narrow => stepped(s, act, ceiling, floor, elapsed).0.budget < s.budget,
            ScaleAct::Done => false,
        },
{
    let n = s.cfg.factor as int;
    let b = s.budget as int;
    if n > 0 {
        assert(b / n <= b) by (nonlinear_arith)
            requires
                n > 0,
                b >= 0,
        ;
    }
}

/// A search never goes on once the time for it is over.
pub proof fn law_no_attempt_after_the_deadline(s: PlannerState, act: ScaleAct, ceiling: bool, floor: bool, elapsed: u64)
    requires
        s.cfg.total_timeout != 0,
        s.time_left <= elapsed,
    ensures
        !stepped(s, act, ceiling, floor, elapsed).1,
        out_of_time(stepped(s, act, ceiling, floor, elapsed).0),
{
}

/// The shares of an equal number of runs cover the time that is left, and
/// none is larger than that time rounded up.
pub proof fn law_shares_cover_the_time(s: PlannerState)
    requires
        s.cfg.total_timeout != 0,
    ensures
        share(s) * runs_left(s) * SECOND >= s.time_left,
        s.time_left > 0 ==> 1 <= share(s) <= ceil_seconds(s.time_left as int, 1),
{
    let r = runs_left(s);
    let t = s.time_left as int;
    let u = r * SECOND;
    assert(u >= SECOND) by (nonlinear_arith)
        requires
            r >= 1,
            u == r * SECOND,
            SECOND == 1_000_000_000,
    ;
    if t > 0 {
        let q = (t + u - 1) / u;
        assert(q * u >= t) by (nonlinear_arith)
            requires
                q == (t + u - 1) / u,
                u > 0,
        ;
        assert(q * r * SECOND == q * u) by (nonlinear_arith)
            requires
                u == r * SECOND,
        ;
        assert(q >= 1) by (nonlinear_arith)
            requires
                q == (t + u - 1) / u,
                u > 0,
                t > 0,
        ;
        let p = (t + SECOND - 1) / SECOND as int;
        assert(p * SECOND >= t) by (nonlinear_arith)
            requires
                p == (t + SECOND - 1) / SECOND as int,
                SECOND == 1_000_000_000,
        ;
        assert(q <= p) by (nonlinear_arith)
            requires
                q == (t + u - 1) / u,
                p * SECOND >= t,
                u >= SECOND,
                SECOND == 1_000_000_000,
                t > 0,
                u > 0,
        {
            assert(p >= 1);
            assert(p * u >= p * SECOND);
            assert(t + u - 1 < (p + 1) * u);
        }
    }
}

/// One attempt of a search: what its end asked for, whether all sentences or too
/// few were given, and how long it took.
pub struct Attempt {
    pub act: ScaleAct,
    pub ceiling: bool,
    pub floor: bool,
    pub elapsed: u64,
}

/// The search after the attempts.
pub open spec fn after_attempts(s: PlannerState, h: Seq<Attempt>) -> PlannerState
    decreases h.len(),
{
    if h.len() == 0 {
        s
    } else {
        let a = h.last();
        stepped(after_attempts(s, h.drop_last()), a.act, a.ceiling, a.floor, a.elapsed).0
    }
}

/// The search goes on after each of the attempts, and the factor is not zero where
/// it divides.
pub open spec fn kept_going(s: PlannerState, h: Seq<Attempt>) -> bool
    decreases h.len(),
{
    h.len() > 0 ==> {
        let a = h.last();
        let t = after_attempts(s, h.drop_last());
        &&& kept_going(s, h.drop_last())
        &&& divides(t, a.act, a.floor, a.elapsed) ==> t.cfg.factor > 0
        &&& stepped(t, a.act, a.ceiling, a.floor, a.elapsed).1
    }
}

/// The budget of attempt `i`.
pub open spec fn tried(s: PlannerState, h: Seq<Attempt>, i: int) -> usize {
    after_attempts(s, h.take(i)).budget
}

/// How many of the attempts asked for fewer sentences.
pub open spec fn narrow_count(h: Seq<Attempt>) -> nat
    decreases h.len(),
{
    if h.len() == 0 {
        0
    } else {
        narrow_count(h.drop_last()) + if h.last().act == ScaleAct::Narrow {
            1nat
        } else {
            0
        }
    }
}

/// How many of the last attempts, one after another, asked for more sentences.
pub open spec fn widen_streak(h: Seq<Attempt>) -> nat
    decreases h.len(),
{
    if h.len() == 0 || h.last().act != ScaleAct::Widen {
        0
    } else {
        widen_streak(h.drop_last()) + 1
    }
}

/// How long the attempts took together.
pub open spec fn time_taken(h: Seq<Attempt>) -> int
    decreases h.len(),
{
    if h.len() == 0 {
        0
    } else {
        time_taken(h.drop_last()) + h.last().elapsed
    }
}

/// The budget lies inside the bracket: below what was too large, and above what was
/// too small, unless nothing lies between the two and the lower end is tried again.
pub open spec fn inside(s: PlannerState) -> bool {
    (s.hi matches Some(h) ==> s.budget < h) && (s.lo matches Some(l) ==> l < s.budget || (l == s.budget && s.hi == Some(
        (l + 1) as usize,
    )))
}

/// A step that goes on marks the budget just tried as an end of the bracket, on
/// the side that the attempt showed, leaves the other end alone, and puts the
/// next budget inside.
pub proof fn law_a_step_marks_the_budget_tried(s: PlannerState, act: ScaleAct, ceiling: bool, floor: bool, elapsed: u64)
    requires
        inside(s),
        divides(s, act, floor, elapsed) ==> s.cfg.factor > 0,
    ensures
        ({
            let (t, go) = stepped(s, act, ceiling, floor, elapsed);
            &&& t.cfg == s.cfg
            &&& !go ==> t.budget == s.budget
            &&& go && act == ScaleAct::Widen ==> t.lo == Some(s.budget) && t.hi == s.hi && s.budget < t.budget
            &&& go && act == ScaleAct::Narrow ==> t.hi == Some(s.budget) && t.lo == s.lo && t.budget < s.budget
            &&& go ==> inside(t)
            &&& go && t.lo is Some && t.lo->0 == t.budget ==> act == ScaleAct::Narrow && s.budget == t.budget + 1
        }),
{
    let n = s.cfg.factor as int;
    let b = s.budget as int;
    if n > 0 {
        assert(b / n <= b) by (nonlinear_arith)
            requires
                n > 0,
                b >= 0,
        ;
    }
}

/// With both ends known the next budget halves the bracket; with one end known
/// it is the last budget multiplied by the factor, as far as that fits, or divided
/// by it, but no smaller than the smallest.
pub proof fn law_the_next_budget(s: PlannerState, act: ScaleAct, ceiling: bool, floor: bool, elapsed: u64)
    requires
        stepped(s, act, ceiling, floor, elapsed).1,
        divides(s, act, floor, elapsed) ==> s.cfg.factor > 0,
    ensures
        ({
            let t = stepped(s, act, ceiling, floor, elapsed).0;
            &&& t.lo is Some && t.hi is Some ==> 0 <= (t.hi->0 - t.budget) - (t.budget - t.lo->0) <= 1
            &&& act == ScaleAct::Widen && s.hi is None ==> t.budget == s.budget * s.cfg.factor || (t.budget == usize::MAX
                && s.budget * s.cfg.factor > usize::MAX)
            &&& act == ScaleAct::Narrow && s.lo is None ==> t.budget >= s.cfg.min_budget && t.budget >= s.budget as int
                / s.cfg.factor as int && (t.budget > s.cfg.min_budget ==> t.budget * s.cfg.factor <= s.budget)
        }),
{
    let n = s.cfg.factor as int;
    let b = s.budget as int;
    if n > 0 {
        let q = b / n;
        assert(q * n <= b) by (nonlinear_arith)
            requires
                n > 0,
                q == b / n,
        ;
    }
}

proof fn lemma_attempts(start: usize, cfg: ScaleConfig, h: Seq<Attempt>)
    requires
        kept_going(started(start, cfg), h),
    ensures
        ({
            let t = after_attempts(started(start, cfg), h);
            &&& t.cfg == cfg
            &&& inside(t)
            &&& t.time_runs_used == narrow_count(h)
            &&& t.consecutive_widens == widen_streak(h)
        }),
    decreases h.len(),
{
    let s = started(start, cfg);
    if h.len() > 0 {
        let a = h.last();
        lemma_attempts(start, cfg, h.drop_last());
        law_a_step_marks_the_budget_tried(after_attempts(s, h.drop_last()), a.act, a.ceiling, a.floor, a.elapsed);
    }
}

proof fn lemma_ends(start: usize, cfg: ScaleConfig, h: Seq<Attempt>, i: int)
    requires
        kept_going(started(start, cfg), h),
        0 <= i < h.len(),
    ensures
        ({
            let s = started(start, cfg);
            let t = after_attempts(s, h);
            &&& h[i].act == ScaleAct::Widen ==> t.lo is Some && tried(s, h, i) <= t.lo->0
            &&& h[i].act == ScaleAct::Narrow ==> t.hi is Some && t.hi->0 <= tried(s, h, i)
            &&& h[i].act != ScaleAct::Done
        }),
    decreases h.len(),
{
    let s = started(start, cfg);
    let d = h.drop_last();
    let a = h.last();
    let t = after_attempts(s, d);
    lemma_attempts(start, cfg, d);
    law_a_step_marks_the_budget_tried(t, a.act, a.ceiling, a.floor, a.elapsed);
    if i < d.len() {
        lemma_ends(start, cfg, d, i);
        assert(d[i] == h[i]);
        assert(h.take(i) =~= d.take(i));
    } else {
        assert(h.take(i) =~= d);
    }
}

/// Every later budget is larger than each one that asked for more sentences, and
/// smaller than each one that asked for fewer: nothing that was found too small or
/// too large is tried again.  Only where one that was too large follows directly on
/// one that was too small is that one tried once more.
pub proof fn law_later_budgets_stay_inside(start: usize, cfg: ScaleConfig, h: Seq<Attempt>, i: int)
    requires
        kept_going(started(start, cfg), h),
        0 <= i < h.len(),
    ensures
        ({
            let s = started(start, cfg);
            let now = after_attempts(s, h).budget;
            &&& h[i].act == ScaleAct::Narrow ==> now < tried(s, h, i)
            &&& h[i].act == ScaleAct::Widen ==> tried(s, h, i) < now || (tried(s, h, i) == now && h.last().act
                == ScaleAct::Narrow && tried(s, h, h.len() - 1) == now + 1)
            &&& h[i].act != ScaleAct::Done
        }),
{
    let s = started(start, cfg);
    let d = h.drop_last();
    let a = h.last();
    lemma_attempts(start, cfg, h);
    lemma_attempts(start, cfg, d);
    lemma_ends(start, cfg, h, i);
    law_a_step_marks_the_budget_tried(after_attempts(s, d), a.act, a.ceiling, a.floor, a.elapsed);
    assert(h.take(h.len() - 1) =~= d);
}

proof fn lemma_clock(s: PlannerState, h: Seq<Attempt>)
    requires
        s.time_left - time_taken(h) >= i128::MIN,
    ensures
        after_attempts(s, h).time_left == s.time_left - time_taken(h),
    decreases h.len(),
{
    if h.len() > 0 {
        lemma_clock(s, h.drop_last());
    }
}

/// A search goes on after an attempt that asks for more sentences exactly where
/// more can be given, fewer than so many attempts in a row asked for that, time is
/// left, and a larger budget is at hand; and after one that asks for fewer where
/// fewer can be given, the budget is above the smallest and above what was too
/// small, fewer than so many attempts asked for that in all, and time is left.
pub proof fn law_when_a_search_goes_on(start: usize, cfg: ScaleConfig, h: Seq<Attempt>, a: Attempt)
    requires
        kept_going(started(start, cfg), h),
        time_taken(h) + a.elapsed <= i128::MAX,
    ensures
        ({
            let s = after_attempts(started(start, cfg), h);
            let go = stepped(s, a.act, a.ceiling, a.floor, a.elapsed).1;
            let in_time = cfg.total_timeout == 0 || time_taken(h) + a.elapsed < cfg.total_timeout * SECOND;
            match a.act {
                ScaleAct::Done => !go,
                ScaleAct::Widen => go <==> !a.ceiling && widen_streak(h) + 1 < cfg.max_disproofs && in_time && match s.hi {
                    Some(u) => s.budget + 1 < u,
                    None => s.budget < usize::MAX && s.budget < s.budget * cfg.factor,
                },
                ScaleAct::Narrow => (s.lo is None ==> cfg.factor > 1) ==> (go <==> !a.floor && cfg.min_budget < s.budget
                    && narrow_count(h) + 1 < cfg.max_time_runs && in_time && (s.lo matches Some(l) ==> l < s.budget)),
            }
        }),
{
    let s = after_attempts(started(start, cfg), h);
    lemma_attempts(start, cfg, h);
    lemma_clock(started(start, cfg), h);
    let n = cfg.factor as int;
    let b = s.budget as int;
    if n > 1 && b > 0 {
        assert(b / n < b) by (nonlinear_arith)
            requires
                n > 1,
                b > 0,
        ;
    }
}

/// A definite verdict and a rejected input settle the search; a search that ran
/// dry asks for more sentences, one that was cut short for fewer; nothing is asked
/// for without a reason.
pub proof fn law_what_an_end_asks_for(status: ProverStatus, term: Option<TerminationReason>)
    ensures
        status == ProverStatus::Proved || status == ProverStatus::Inconsistent || status == ProverStatus::Consistent || status
            == ProverStatus::InputError ==> asked_for(status, term) == ScaleAct::Done,
        asked_for(status, term) == ScaleAct::Widen <==> status == ProverStatus::Disproved || (status
            == ProverStatus::Unknown && (term == Some(TerminationReason::Saturation) || term == Some(
            TerminationReason::GaveUp,
        ))),
        asked_for(status, term) == ScaleAct::Narrow <==> status == ProverStatus::Timeout || (status
            == ProverStatus::Unknown && term == Some(TerminationReason::ResourceOut)),
{
}

/// A search starts with the budget asked for, or the smallest if that is larger,
/// with all its time and with neither end of the bracket known.
pub proof fn law_a_search_starts_afresh(start: usize, cfg: ScaleConfig)
    ensures
        ({
            let s = started(start, cfg);
            &&& s.budget >= start && s.budget >= cfg.min_budget && (s.budget == start || s.budget == cfg.min_budget)
            &&& s.lo is None && s.hi is None && s.cfg == cfg
            &&& s.time_left == cfg.total_timeout * 1_000_000_000
            &&& out_of_time(s) == false
        }),
{
}

/// A search gets eight rounds beyond those that widening and running out of time allow
/// together, as far as the count goes.
pub proof fn law_rounds_leave_room(cfg: ScaleConfig)
    ensures
        round_limit(cfg) <= usize::MAX,
        round_limit(cfg) < usize::MAX ==> round_limit(cfg) - cfg.max_disproofs - cfg.max_time_runs == 8,
        cfg.max_disproofs + cfg.max_time_runs + 8 >= usize::MAX ==> round_limit(cfg) == usize::MAX,
{
}

/// A run gets its even share of the time that is left, in whole seconds and rounded up, by
/// the runs that are still to come; the last run, and any beyond it, gets all.  Without a
/// limit, or without time, there is no share.
pub proof fn law_shares_are_even(s: PlannerState, runs: int)
    requires
        runs >= 1,
        s.time_runs_used < s.cfg.max_time_runs ==> s.time_runs_used + runs == s.cfg.max_time_runs,
        s.time_runs_used >= s.cfg.max_time_runs ==> runs == 1,
    ensures
        s.cfg.total_timeout == 0 || s.time_left <= 0 ==> share(s) == 0,
        s.cfg.total_timeout != 0 && s.time_left > 0 ==> (share(s) - 1) * (runs * SECOND) < s.time_left <= share(s) * (runs
            * SECOND),
{
    let t = s.time_left as int;
    let u = runs * SECOND;
    assert(runs == runs_left(s));
    assert(u >= SECOND) by (nonlinear_arith)
        requires
            runs >= 1,
            u == runs * SECOND,
            SECOND == 1_000_000_000,
    ;
    if s.cfg.total_timeout != 0 && t > 0 {
        let q = (t + u - 1) / u;
        assert(share(s) == q);
        assert((q - 1) * u < t && t <= q * u) by (nonlinear_arith)
            requires
                q == (t + u - 1) / u,
                u > 0,
        ;
    }
}

} // verus!
