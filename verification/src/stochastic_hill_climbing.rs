//! Stochastic local search: reversals drawn at random, the first cheaper one
//! taken; now and then a reversal taken whatever it costs; and fresh starts,
//! over all of which the cheapest tour seen is kept.

use crate::moves::{count_moves, move_at};
use crate::random::{random_index, random_rank, shuffle};
use crate::tour::{
    identity_path, is_local_optimum, is_move, is_permutation, lemma_reordered_permutation,
    lemma_two_opt_permutation, move_cost, neighbor_cost, reverse_segment, tour_cost, tour_len,
    two_opt, SearchError, Tour,
};
use crate::tsp::{Point, TSP};
use vstd::prelude::*;

verus! {

/// The unit of `StochConfig::shake_prob`: a shake probability is counted in
/// parts of this many.
pub const SHAKE_SCALE: u32 = 1_000_000;

/// How long and how widely a stochastic search looks.
#[derive(Clone, Copy, Debug)]
pub struct StochConfig {
    /// The most steps that one trial takes.
    pub steps: usize,
    /// The most reversals that one step draws before it gives up.
    pub neighbor_samples: usize,
    /// The number of trials, each from a fresh tour.
    pub restarts: usize,
    /// The probability, in parts of `SHAKE_SCALE`, that a step which found
    /// no cheaper tour takes a reversal drawn at random all the same.
    pub shake_prob: u32,
}

impl Default for StochConfig {
    fn default() -> (cfg: Self)
        ensures
            cfg.steps == 10000,
            cfg.neighbor_samples == 64,
            cfg.restarts == 5,
            cfg.shake_prob == 20_000,
    {
        StochConfig { steps: 10000, neighbor_samples: 64, restarts: 5, shake_prob: 20_000 }
    }
}

/// How a step of a trial ended.
#[derive(Clone, Copy, Debug, PartialEq, Eq, Structural)]
pub enum Step {
    /// A reversal that was drawn led to a cheaper tour and was taken.
    Improved,
    /// No reversal that was drawn led to a cheaper tour, and one more was
    /// taken whatever it costs.
    Shaken,
    /// No reversal that was drawn led to a cheaper tour, and the tour stays.
    Stuck,
}

/// What a trial in progress needs next from chance.
#[derive(Clone, Copy, Debug, PartialEq, Eq, Structural)]
pub enum Request {
    /// A reversal to try: the next candidate of the step in progress.
    Candidate,
    /// A number from `0..SHAKE_SCALE`, which decides whether the step in
    /// progress, whose candidates all failed, shakes or ends the trial.
    ShakeChance,
    /// A reversal to take whatever it costs.
    ShakeMove,
    /// Nothing: the trial has ended.
    Done,
}

/// How the first step of a trial begins when `taken` steps are done, and
/// how each later one does: with a candidate, or with the chance to shake
/// where a step tries no candidates; with nothing once all steps are done
/// or where the tour has fewer than four cities, which no reversal changes.
pub open spec fn step_begins(n: nat, steps: usize, neighbor_samples: usize, taken: int) -> Request {
    if n < 4 || taken >= steps {
        Request::Done
    } else if neighbor_samples == 0 {
        Request::ShakeChance
    } else {
        Request::Candidate
    }
}

/// The progress of one trial: what it was asked to do, how far it has come,
/// and what it needs next.
#[derive(Clone, Copy, Debug)]
pub struct Trial {
    /// The most steps that the trial takes.
    pub steps: usize,
    /// The most candidates that one step tries.
    pub neighbor_samples: usize,
    /// The probability, in parts of `SHAKE_SCALE`, that a step whose
    /// candidates all failed shakes.
    pub shake_prob: u32,
    /// The number of steps done: each has taken one reversal.
    pub taken: usize,
    /// The number of candidates that the step in progress has tried, all
    /// of them in vain.
    pub drawn: usize,
    /// What the trial needs next.
    pub request: Request,
}

impl Trial {
    /// The progress is one that a trial on a tour of `n` cities can have.
    pub open spec fn fits(&self, n: nat) -> bool {
        &&& self.taken <= self.steps
        &&& self.drawn <= self.neighbor_samples
        &&& self.request != Request::Done ==> self.taken < self.steps && n >= 4
        &&& self.request == Request::Candidate ==> self.drawn < self.neighbor_samples
        &&& self.request == Request::ShakeChance ==> self.drawn == self.neighbor_samples
        &&& self.request == Request::ShakeMove ==> self.drawn == self.neighbor_samples
            && self.shake_prob > 0
    }

    /// The progress after a reversal was taken: the step is done, and the
    /// next begins.
    pub open spec fn after_move(self, n: nat) -> Trial {
        Trial {
            taken: (self.taken + 1) as usize,
            drawn: 0,
            request: step_begins(n, self.steps, self.neighbor_samples, self.taken + 1),
            ..self
        }
    }

    /// The progress after a candidate failed: the step tries the next, or
    /// asks for the chance to shake when it has tried them all.
    pub open spec fn after_miss(self) -> Trial {
        Trial {
            drawn: (self.drawn + 1) as usize,
            request: if self.drawn + 1 == self.neighbor_samples {
                Request::ShakeChance
            } else {
                Request::Candidate
            },
            ..self
        }
    }

    /// The progress after the chance to shake was drawn: the step shakes if
    /// the number drawn is below `shake_prob`, and else the trial ends.
    pub open spec fn after_chance(self, draw: usize) -> Trial {
        Trial {
            request: if draw < self.shake_prob {
                Request::ShakeMove
            } else {
                Request::Done
            },
            ..self
        }
    }

    /// How far the trial is from its end within a step.
    pub open spec fn rank(&self) -> nat {
        match self.request {
            Request::Candidate => 3,
            Request::ShakeChance => 2,
            Request::ShakeMove => 1,
            Request::Done => 0,
        }
    }

    /// Whether the trial has ended.
    pub fn is_done(&self) -> (done: bool)
        ensures
            done == (self.request == Request::Done),
    {
        match self.request {
            Request::Done => true,
            _ => false,
        }
    }

    /// Takes the number drawn for the chance to shake. A step whose
    /// candidates all failed shakes if the number is below `shake_prob`;
    /// else the trial ends there. With a `shake_prob` of zero it always
    /// ends there.
    pub fn on_shake_chance(&mut self, draw: usize)
        requires
            old(self).request == Request::ShakeChance,
        ensures
            *final(self) == old(self).after_chance(draw),
            old(self).shake_prob == 0 ==> final(self).request == Request::Done,
            draw < SHAKE_SCALE <= old(self).shake_prob ==> final(self).request
                == Request::ShakeMove,
    {
        if draw < self.shake_prob as usize {
            self.request = Request::ShakeMove;
        } else {
            self.request = Request::Done;
        }
    }

    /// Notes that a reversal was taken: the step is done, and the next
    /// begins.
    fn next_step(&mut self, n: usize)
        requires
            old(self).taken < old(self).steps,
        ensures
            *final(self) == old(self).after_move(n as nat),
    {
        self.taken = self.taken + 1;
        self.drawn = 0;
        self.request = if n < 4 || self.taken >= self.steps {
            Request::Done
        } else if self.neighbor_samples == 0 {
            Request::ShakeChance
        } else {
            Request::Candidate
        };
    }
}

/// The lower of a best cost so far, if there is one, and a new cost.
pub open spec fn lower(best: Option<u128>, cost: u128) -> Option<u128> {
    match best {
        Some(b) => if b <= cost {
            Some(b)
        } else {
            Some(cost)
        },
        None => Some(cost),
    }
}

/// The tour `q` is the tour `p` after one reversal that changes it.
pub open spec fn is_neighbor(p: Seq<usize>, q: Seq<usize>) -> bool {
    exists|i: int, j: int| is_move(p.len(), i, j) && q == #[trigger] two_opt(p, i, j)
}

/// The cheapest tour seen once the search stands at the tour `q`, where
/// before it was `route` at the cost `best`: `q` if it is cheaper, and
/// `route` if it is not.
pub open spec fn kept_route(
    points: Seq<Point>,
    best: Option<u128>,
    route: Seq<usize>,
    q: Seq<usize>,
) -> Seq<usize> {
    if lower(best, tour_cost(points, q) as u128) == best {
        route
    } else {
        q
    }
}

/// `k` reversals, each of which changes the tour, lead from the tour `p` to
/// the tour `q`. Where the cheapest tour seen before them was `r0` at the
/// cost `b0`, the cheapest seen after them is `r1` at the cost `b1`: the
/// first of the cheapest among `r0` and the tours that the reversals led to.
pub open spec fn is_trail(
    points: Seq<Point>,
    p: Seq<usize>,
    q: Seq<usize>,
    k: nat,
    b0: Option<u128>,
    r0: Seq<usize>,
    b1: Option<u128>,
    r1: Seq<usize>,
) -> bool
    decreases k,
{
    if k == 0 {
        p == q && b1 == b0 && r1 == r0
    } else {
        exists|m: Seq<usize>, bm: Option<u128>, rm: Seq<usize>|
            #![trigger is_neighbor(m, q), kept_route(points, bm, rm, q)]
            is_trail(points, p, m, (k - 1) as nat, b0, r0, bm, rm) && is_neighbor(m, q) && b1
                == lower(bm, tour_cost(points, q) as u128) && r1 == kept_route(points, bm, rm, q)
    }
}

/// A search of `restarts` trials of at most `steps` steps each, every trial
/// from a tour of its own. Where the cheapest tour seen before the search
/// was `r0` at the cost `b0`, the cheapest seen after it is `r1` at the cost
/// `b1`: the first of the cheapest among `r0` and all the tours at which the
/// trials stood.
pub open spec fn is_run(
    points: Seq<Point>,
    restarts: nat,
    steps: nat,
    b0: Option<u128>,
    r0: Seq<usize>,
    b1: Option<u128>,
    r1: Seq<usize>,
) -> bool
    decreases restarts,
{
    if restarts == 0 {
        b1 == b0 && r1 == r0
    } else {
        exists|bm: Option<u128>, rm: Seq<usize>, initial: Seq<usize>, end: Seq<usize>, k: nat|
            #![trigger is_trail(points, initial, end, k, lower(bm, tour_cost(points, initial) as u128),
                    kept_route(points, bm, rm, initial), b1, r1)]
            is_run(points, (restarts - 1) as nat, steps, b0, r0, bm, rm) && is_permutation(
                initial,
                points.len(),
            ) && k <= steps && is_trail(
                points,
                initial,
                end,
                k,
                lower(bm, tour_cost(points, initial) as u128),
                kept_route(points, bm, rm, initial),
                b1,
                r1,
            )
    }
}

/// A trail goes on by one reversal.
pub proof fn lemma_trail_step(
    points: Seq<Point>,
    p: Seq<usize>,
    m: Seq<usize>,
    q: Seq<usize>,
    j: nat,
    b0: Option<u128>,
    r0: Seq<usize>,
    bm: Option<u128>,
    rm: Seq<usize>,
)
    requires
        is_trail(points, p, m, j, b0, r0, bm, rm),
        is_neighbor(m, q),
    ensures
        is_trail(
            points,
            p,
            q,
            j + 1,
            b0,
            r0,
            lower(bm, tour_cost(points, q) as u128),
            kept_route(points, bm, rm, q),
        ),
{
    assert((j + 1 - 1) as nat == j);
}

/// A run goes on by one trial from a tour of its own.
pub proof fn lemma_run_step(
    points: Seq<Point>,
    before: nat,
    steps: nat,
    b0: Option<u128>,
    r0: Seq<usize>,
    bm: Option<u128>,
    rm: Seq<usize>,
    initial: Seq<usize>,
    end: Seq<usize>,
    k: nat,
    b1: Option<u128>,
    r1: Seq<usize>,
)
    requires
        is_run(points, before, steps, b0, r0, bm, rm),
        is_permutation(initial, points.len()),
        k <= steps,
        is_trail(
            points,
            initial,
            end,
            k,
            lower(bm, tour_cost(points, initial) as u128),
            kept_route(points, bm, rm, initial),
            b1,
            r1,
        ),
    ensures
        is_run(points, before + 1, steps, b0, r0, b1, r1),
{
    assert((before + 1 - 1) as nat == before);
}

/// The cheapest tour seen, with the instance that it is a tour of.
struct Incumbent<'a> {
    tsp: &'a TSP,
    path: Vec<usize>,
    cost: Option<u128>,
}

impl<'a> Incumbent<'a> {
    #[verifier::type_invariant]
    spec fn is_tour(&self) -> bool {
        self.cost matches Some(c) ==> is_permutation(self.path@, self.tsp@.len()) && c
            == tour_cost(self.tsp@, self.path@)
    }
}

/// Stochastic search over the tours that reversals reach.
pub struct StochasticHillClimbing<'a> {
    best: Incumbent<'a>,
    path: Vec<usize>,
    cost: u128,
}

impl<'a> StochasticHillClimbing<'a> {
    /// The points of the instance that is searched.
    pub closed spec fn instance(&self) -> Seq<Point> {
        self.best.tsp@
    }

    /// The tour at which the search stands.
    pub closed spec fn route(&self) -> Seq<usize> {
        self.path@
    }

    /// The cost that the search holds for the tour at which it stands.
    pub closed spec fn cost(&self) -> u128 {
        self.cost
    }

    /// The cost of the cheapest tour seen, if any was seen.
    pub closed spec fn best_cost(&self) -> Option<u128> {
        self.best.cost
    }

    /// The cheapest tour seen.
    pub closed spec fn best_route(&self) -> Seq<usize> {
        self.best.path@
    }

    /// The search stands at a tour of its instance and holds its cost, and
    /// the cheapest tour seen costs no more.
    pub open spec fn wf(&self) -> bool {
        &&& is_permutation(self.route(), self.instance().len())
        &&& self.cost() == tour_cost(self.instance(), self.route())
        &&& self.best_cost() matches Some(b) && b <= self.cost()
    }

    /// The cheapest tour seen costs no more than the one that `before` had
    /// seen.
    pub open spec fn no_worse(&self, before: &Self) -> bool {
        before.best_cost() matches Some(b) ==> self.best_cost() matches Some(c) && c <= b
    }

    /// The cheapest tour seen is the one that `before` had seen where its
    /// cost is the same, and else the tour at which the search stands.
    pub open spec fn keeps_or_takes(&self, before: &Self) -> bool {
        &&& self.best_cost() != before.best_cost() ==> self.best_route() == self.route()
        &&& self.best_cost() == before.best_cost() ==> self.best_route() == before.best_route()
    }

    /// A search of `tsp` that has seen no tour yet.
    pub fn new(tsp: &'a TSP) -> (solver: Self)
        ensures
            solver.instance() == tsp@,
            solver.best_cost() is None,
    {
        StochasticHillClimbing {
            best: Incumbent { tsp, path: Vec::new(), cost: None },
            path: Vec::new(),
            cost: 0,
        }
    }

    /// The tour at which the search stands.
    pub fn path(&self) -> (path: &Vec<usize>)
        ensures
            path@ == self.route(),
    {
        &self.path
    }

    /// The cost of the tour at which the search stands.
    pub fn current_cost(&self) -> (cost: u128)
        ensures
            cost == self.cost(),
    {
        self.cost
    }

    /// The cheapest tour seen, if any was seen.
    pub fn best(&self) -> (found: Option<Tour>)
        ensures
            found is Some <==> self.best_cost() is Some,
            found matches Some(tour) ==> {
                &&& tour.is_tour_of(self.instance())
                &&& tour.path@ == self.best_route()
                &&& Some(tour.cost) == self.best_cost()
            },
    {
        proof {
            use_type_invariant(&self.best);
        }
        match self.best.cost {
            Some(cost) => {
                let path = self.best.path.clone();
                assert(path@ =~= self.best.path@);
                Some(Tour { path, cost })
            },
            None => None,
        }
    }

    /// Keeps the tour at which the search stands if it is cheaper than the
    /// cheapest seen.
    fn update_best(&mut self)
        requires
            is_permutation(old(self).path@, old(self).best.tsp@.len()),
            old(self).cost == tour_cost(old(self).best.tsp@, old(self).path@),
        ensures
            final(self).best.tsp == old(self).best.tsp,
            final(self).path == old(self).path,
            final(self).cost == old(self).cost,
            final(self).best.cost == lower(old(self).best.cost, old(self).cost),
            final(self).best.cost != old(self).best.cost ==> final(self).best.path@ == old(
                self,
            ).path@,
            final(self).best.cost == old(self).best.cost ==> final(self).best.path@ == old(
                self,
            ).best.path@,
    {
        let better = match self.best.cost {
            Some(b) => self.cost < b,
            None => true,
        };
        if better {
            let path = self.path.clone();
            assert(path@ =~= self.path@);
            self.best = Incumbent { tsp: self.best.tsp, path, cost: Some(self.cost) };
        }
    }

    /// Begins a trial at the tour `initial`, and keeps it if it is cheaper
    /// than the cheapest tour seen.
    pub fn restart_from(&mut self, initial: Vec<usize>)
        requires
            is_permutation(initial@, old(self).instance().len()),
        ensures
            final(self).instance() == old(self).instance(),
            final(self).wf(),
            final(self).route() == initial@,
            final(self).best_cost() == lower(old(self).best_cost(), final(self).cost()),
            final(self).keeps_or_takes(old(self)),
    {
        self.cost = tour_len(self.best.tsp, &initial);
        self.path = initial;
        self.update_best();
    }

    /// Begins a trial at a tour drawn at random, and keeps it if it is
    /// cheaper than the cheapest tour seen.
    fn random_init(&mut self)
        ensures
            final(self).instance() == old(self).instance(),
            final(self).wf(),
            final(self).no_worse(old(self)),
            final(self).best_cost() == lower(old(self).best_cost(), final(self).cost()),
            final(self).keeps_or_takes(old(self)),
    {
        let n = self.best.tsp.len();
        let mut path = identity_path(n);
        let ghost ordered = path@;
        shuffle(&mut path);
        proof {
            lemma_reordered_permutation(ordered, path@, n as nat);
        }
        self.restart_from(path);
    }

    /// Draws one of the reversals that change a tour of `n` cities, each
    /// with the same chance: the draw is of its number.
    fn sample_move(n: usize) -> (pair: (usize, usize))
        requires
            n >= 4,
        ensures
            is_move(n as nat, pair.0 as int, pair.1 as int),
    {
        let rank = random_rank(count_moves(n));
        move_at(n, rank)
    }

    /// Takes the reversal `(i, j)` if it leads to a cheaper tour, and says
    /// whether it did.
    pub fn accept_if_better(&mut self, i: usize, j: usize) -> (accepted: bool)
        requires
            old(self).wf(),
            i < j < old(self).route().len(),
        ensures
            final(self).instance() == old(self).instance(),
            final(self).wf(),
            accepted <==> move_cost(old(self).instance(), old(self).route(), i as int, j as int)
                < old(self).cost(),
            accepted ==> final(self).route() == two_opt(old(self).route(), i as int, j as int)
                && final(self).cost() == move_cost(
                old(self).instance(),
                old(self).route(),
                i as int,
                j as int,
            ),
            !accepted ==> final(self).route() == old(self).route() && final(self).cost() == old(
                self,
            ).cost(),
            final(self).best_cost() == lower(old(self).best_cost(), final(self).cost()),
            final(self).keeps_or_takes(old(self)),
    {
        let cand_cost = neighbor_cost(self.best.tsp, &self.path, i, j);
        if cand_cost < self.cost {
            proof {
                lemma_two_opt_permutation(self.path@, self.best.tsp@.len(), i as int, j as int);
            }
            reverse_segment(&mut self.path, i, j);
            self.cost = cand_cost;
            self.update_best();
            true
        } else {
            false
        }
    }

    /// Takes the reversal `(i, j)` whatever it costs.
    pub fn shake(&mut self, i: usize, j: usize)
        requires
            old(self).wf(),
            i < j < old(self).route().len(),
        ensures
            final(self).instance() == old(self).instance(),
            final(self).wf(),
            final(self).route() == two_opt(old(self).route(), i as int, j as int),
            final(self).cost() == move_cost(
                old(self).instance(),
                old(self).route(),
                i as int,
                j as int,
            ),
            final(self).best_cost() == lower(old(self).best_cost(), final(self).cost()),
            final(self).keeps_or_takes(old(self)),
    {
        proof {
            lemma_two_opt_permutation(self.path@, self.best.tsp@.len(), i as int, j as int);
        }
        reverse_segment(&mut self.path, i, j);
        self.cost = tour_len(self.best.tsp, &self.path);
        self.update_best();
    }

    /// Begins a trial of at most `steps` steps from the tour at which the
    /// search stands, and says what it needs first.
    pub fn begin_trial(&self, steps: usize, neighbor_samples: usize, shake_prob: u32) -> (t: Trial)
        ensures
            t == (Trial {
                steps,
                neighbor_samples,
                shake_prob,
                taken: 0,
                drawn: 0,
                request: step_begins(self.route().len(), steps, neighbor_samples, 0),
            }),
            t.fits(self.route().len()),
    {
        let request = if self.path.len() < 4 || steps == 0 {
            Request::Done
        } else if neighbor_samples == 0 {
            Request::ShakeChance
        } else {
            Request::Candidate
        };
        Trial { steps, neighbor_samples, shake_prob, taken: 0, drawn: 0, request }
    }

    /// Tries the candidate `(i, j)` that the trial `t` asked for. If it
    /// leads to a cheaper tour it is taken, and the step is done; else the
    /// tour stays and the step goes on.
    pub fn on_candidate(&mut self, t: &mut Trial, i: usize, j: usize) -> (accepted: bool)
        requires
            old(self).wf(),
            old(t).fits(old(self).route().len()),
            old(t).request == Request::Candidate,
            is_move(old(self).route().len(), i as int, j as int),
        ensures
            final(self).instance() == old(self).instance(),
            final(self).wf(),
            accepted <==> move_cost(old(self).instance(), old(self).route(), i as int, j as int)
                < old(self).cost(),
            accepted ==> final(self).route() == two_opt(old(self).route(), i as int, j as int)
                && final(self).cost() == move_cost(
                old(self).instance(),
                old(self).route(),
                i as int,
                j as int,
            ) && *final(t) == old(t).after_move(old(self).route().len()),
            !accepted ==> final(self).route() == old(self).route() && final(self).cost() == old(
                self,
            ).cost() && *final(t) == old(t).after_miss(),
            final(self).best_cost() == lower(old(self).best_cost(), final(self).cost()),
            final(self).keeps_or_takes(old(self)),
            final(t).fits(final(self).route().len()),
    {
        let n = self.path.len();
        if self.accept_if_better(i, j) {
            t.next_step(n);
            true
        } else {
            t.drawn = t.drawn + 1;
            if t.drawn == t.neighbor_samples {
                t.request = Request::ShakeChance;
            }
            false
        }
    }

    /// Takes the reversal `(i, j)` that the trial `t` asked for to shake
    /// the tour, whatever it costs. The step is done.
    pub fn on_shake_move(&mut self, t: &mut Trial, i: usize, j: usize)
        requires
            old(self).wf(),
            old(t).fits(old(self).route().len()),
            old(t).request == Request::ShakeMove,
            is_move(old(self).route().len(), i as int, j as int),
        ensures
            final(self).instance() == old(self).instance(),
            final(self).wf(),
            final(self).route() == two_opt(old(self).route(), i as int, j as int),
            final(self).cost() == move_cost(
                old(self).instance(),
                old(self).route(),
                i as int,
                j as int,
            ),
            final(self).best_cost() == lower(old(self).best_cost(), final(self).cost()),
            final(self).keeps_or_takes(old(self)),
            *final(t) == old(t).after_move(old(self).route().len()),
            final(t).fits(final(self).route().len()),
    {
        let n = self.path.len();
        self.shake(i, j);
        t.next_step(n);
    }

    /// One step of a trial. Up to `neighbor_samples` reversals are drawn and
    /// the first that leads to a cheaper tour is taken. If none does, then
    /// with probability `shake_prob` in `SHAKE_SCALE` one more is drawn and
    /// taken whatever it costs; else the tour stays. With a `shake_prob` of
    /// zero no reversal is ever taken that does not lead to a cheaper tour;
    /// with one of `SHAKE_SCALE` or more a tour of four or more cities never
    /// stays. On fewer than four cities no reversal changes a tour, and the
    /// tour stays.
    pub fn step(&mut self, neighbor_samples: usize, shake_prob: u32) -> (end: Step)
        requires
            old(self).wf(),
        ensures
            final(self).instance() == old(self).instance(),
            final(self).wf(),
            final(self).no_worse(old(self)),
            final(self).best_cost() == lower(old(self).best_cost(), final(self).cost()),
            final(self).keeps_or_takes(old(self)),
            end == Step::Improved ==> final(self).cost() < old(self).cost(),
            end == Step::Shaken ==> shake_prob > 0,
            end != Step::Stuck ==> is_neighbor(old(self).route(), final(self).route()),
            end == Step::Stuck ==> final(self).route() == old(self).route() && final(self).cost()
                == old(self).cost() && final(self).best_cost() == old(self).best_cost()
                && final(self).best_route() == old(self).best_route(),
            old(self).route().len() < 4 ==> end == Step::Stuck,
            old(self).route().len() >= 4 && shake_prob >= SHAKE_SCALE ==> end != Step::Stuck,
            old(self).route().len() >= 4 && shake_prob >= SHAKE_SCALE && neighbor_samples == 0
                ==> end == Step::Shaken,
            neighbor_samples == 0 ==> end != Step::Improved,
            is_local_optimum(old(self).instance(), old(self).route()) ==> end != Step::Improved,
    {
        let n = self.path.len();
        let mut t = self.begin_trial(1, neighbor_samples, shake_prob);
        let mut end = Step::Stuck;
        while !t.is_done()
            invariant
                self.wf(),
                old(self).wf(),
                n == old(self).route().len(),
                self.instance() == old(self).instance(),
                t.fits(n as nat),
                t.steps == 1,
                t.neighbor_samples == neighbor_samples,
                t.shake_prob == shake_prob,
                t.taken == 0 ==> {
                    &&& end == Step::Stuck
                    &&& self.route() == old(self).route()
                    &&& self.cost() == old(self).cost()
                    &&& self.best_cost() == old(self).best_cost()
                    &&& self.best_route() == old(self).best_route()
                },
                t.taken == 0 && t.request == Request::Done ==> n < 4 || shake_prob < SHAKE_SCALE,
                t.taken != 0 ==> {
                    &&& end != Step::Stuck
                    &&& is_neighbor(old(self).route(), self.route())
                    &&& self.best_cost() == lower(old(self).best_cost(), self.cost())
                    &&& self.keeps_or_takes(old(self))
                },
                end == Step::Improved ==> neighbor_samples > 0 && self.cost() < old(self).cost()
                    && !is_local_optimum(old(self).instance(), old(self).route()),
                end == Step::Shaken ==> shake_prob > 0,
            decreases 1 - t.taken, neighbor_samples - t.drawn, t.rank(),
        {
            match t.request {
                Request::Candidate => {
                    let (i, j) = Self::sample_move(n);
                    if self.on_candidate(&mut t, i, j) {
                        assert(self.route() == two_opt(old(self).route(), i as int, j as int));
                        end = Step::Improved;
                    }
                },
                Request::ShakeChance => {
                    let draw = random_index(0, SHAKE_SCALE as usize);
                    t.on_shake_chance(draw);
                },
                _ => {
                    let (i, j) = Self::sample_move(n);
                    self.on_shake_move(&mut t, i, j);
                    assert(self.route() == two_opt(old(self).route(), i as int, j as int));
                    end = Step::Shaken;
                },
            }
        }
        end
    }

    /// One trial from the tour at which the search stands: up to `steps`
    /// steps, ended early by the first step that leaves the tour as it is.
    /// Returns the number of reversals taken, which lead from the tour at
    /// which the trial began to the one at which it ends. With a
    /// `shake_prob` of zero each of them made the tour cheaper; with one of
    /// `SHAKE_SCALE` or more, on four or more cities, every step takes one.
    /// On fewer than four cities none is taken.
    pub fn trial(&mut self, steps: usize, neighbor_samples: usize, shake_prob: u32) -> (taken: usize)
        requires
            old(self).wf(),
        ensures
            final(self).instance() == old(self).instance(),
            final(self).wf(),
            final(self).no_worse(old(self)),
            taken <= steps,
            is_trail(
                old(self).instance(),
                old(self).route(),
                final(self).route(),
                taken as nat,
                old(self).best_cost(),
                old(self).best_route(),
                final(self).best_cost(),
                final(self).best_route(),
            ),
            taken == 0 ==> final(self).route() == old(self).route() && final(self).cost() == old(
                self,
            ).cost() && final(self).best_cost() == old(self).best_cost(),
            final(self).best_cost() == old(self).best_cost() ==> final(self).best_route() == old(
                self,
            ).best_route(),
            shake_prob == 0 ==> final(self).cost() + taken <= old(self).cost(),
            old(self).route().len() < 4 ==> taken == 0,
            old(self).route().len() >= 4 && shake_prob >= SHAKE_SCALE ==> taken == steps,
    {
        let n = self.path.len();
        let mut t = self.begin_trial(steps, neighbor_samples, shake_prob);
        while !t.is_done()
            invariant
                self.wf(),
                old(self).wf(),
                n == old(self).route().len(),
                self.instance() == old(self).instance(),
                self.no_worse(old(self)),
                t.fits(n as nat),
                t.steps == steps,
                t.neighbor_samples == neighbor_samples,
                t.shake_prob == shake_prob,
                is_trail(
                    self.instance(),
                    old(self).route(),
                    self.route(),
                    t.taken as nat,
                    old(self).best_cost(),
                    old(self).best_route(),
                    self.best_cost(),
                    self.best_route(),
                ),
                t.taken == 0 ==> self.route() == old(self).route() && self.cost() == old(
                    self,
                ).cost() && self.best_cost() == old(self).best_cost(),
                self.best_cost() == old(self).best_cost() ==> self.best_route() == old(
                    self,
                ).best_route(),
                shake_prob == 0 ==> self.cost() + t.taken <= old(self).cost(),
                n < 4 ==> t.taken == 0,
                n >= 4 && shake_prob >= SHAKE_SCALE && t.request == Request::Done ==> t.taken
                    == steps,
            decreases steps - t.taken, neighbor_samples - t.drawn, t.rank(),
        {
            let ghost before = *self;
            let ghost taken = t.taken;
            match t.request {
                Request::Candidate => {
                    let (i, j) = Self::sample_move(n);
                    if self.on_candidate(&mut t, i, j) {
                        assert(self.route() == two_opt(before.route(), i as int, j as int));
                        proof {
                            self.lemma_trail_goes_on(old(self), &before, taken as nat);
                        }
                    }
                },
                Request::ShakeChance => {
                    let draw = random_index(0, SHAKE_SCALE as usize);
                    t.on_shake_chance(draw);
                },
                _ => {
                    let (i, j) = Self::sample_move(n);
                    self.on_shake_move(&mut t, i, j);
                    assert(self.route() == two_opt(before.route(), i as int, j as int));
                    proof {
                        self.lemma_trail_goes_on(old(self), &before, taken as nat);
                    }
                },
            }
        }
        t.taken
    }

    /// Where a trail led from the state `first` to the state `before`, and
    /// one reversal from there to this state, a trail leads from `first` to
    /// this state.
    proof fn lemma_trail_goes_on(&self, first: &Self, before: &Self, taken: nat)
        requires
            self.wf(),
            self.instance() == before.instance(),
            is_trail(
                self.instance(),
                first.route(),
                before.route(),
                taken,
                first.best_cost(),
                first.best_route(),
                before.best_cost(),
                before.best_route(),
            ),
            is_neighbor(before.route(), self.route()),
            self.best_cost() == lower(before.best_cost(), self.cost()),
            self.keeps_or_takes(before),
        ensures
            is_trail(
                self.instance(),
                first.route(),
                self.route(),
                taken + 1,
                first.best_cost(),
                first.best_route(),
                self.best_cost(),
                self.best_route(),
            ),
    {
        lemma_trail_step(
            self.instance(),
            first.route(),
            before.route(),
            self.route(),
            taken,
            first.best_cost(),
            first.best_route(),
            before.best_cost(),
            before.best_route(),
        );
    }

    /// Runs `cfg.restarts` trials, each from a tour drawn at random, and
    /// returns the cheapest tour seen in these and in earlier searches.
    /// Fails on an instance without cities, and where there is no trial to
    /// run and no tour from an earlier search.
    pub fn search(&mut self, cfg: StochConfig) -> (found: Result<Tour, SearchError>)
        ensures
            final(self).instance() == old(self).instance(),
            final(self).no_worse(old(self)),
            old(self).instance().len() == 0 ==> found == Err::<Tour, SearchError>(
                SearchError::EmptyInstance,
            ),
            old(self).instance().len() > 0 && cfg.restarts == 0 && old(self).best_cost() is None
                ==> found == Err::<Tour, SearchError>(SearchError::NoTrial),
            old(self).instance().len() > 0 && (cfg.restarts > 0 || old(self).best_cost() is Some)
                ==> found is Ok,
            found matches Ok(tour) ==> {
                &&& tour.is_tour_of(old(self).instance())
                &&& tour.path@ == final(self).best_route()
                &&& Some(tour.cost) == final(self).best_cost()
            },
            old(self).instance().len() == 0 ==> final(self).route() == old(self).route()
                && final(self).best_cost() == old(self).best_cost() && final(self).best_route()
                == old(self).best_route(),
            cfg.restarts == 0 ==> final(self).route() == old(self).route(),
            old(self).instance().len() > 0 && cfg.restarts > 0 ==> final(self).wf(),
            old(self).instance().len() > 0 ==> is_run(
                old(self).instance(),
                cfg.restarts as nat,
                cfg.steps as nat,
                old(self).best_cost(),
                old(self).best_route(),
                final(self).best_cost(),
                final(self).best_route(),
            ),
    {
        if self.best.tsp.len() == 0 {
            return Err(SearchError::EmptyInstance);
        }
        let mut trials: usize = 0;
        while trials < cfg.restarts
            invariant
                trials <= cfg.restarts,
                self.instance() == old(self).instance(),
                self.no_worse(old(self)),
                trials > 0 ==> self.best_cost() is Some,
                trials == 0 ==> self.best_cost() == old(self).best_cost(),
                trials == 0 ==> self.route() == old(self).route(),
                trials > 0 ==> self.wf(),
                is_run(
                    self.instance(),
                    trials as nat,
                    cfg.steps as nat,
                    old(self).best_cost(),
                    old(self).best_route(),
                    self.best_cost(),
                    self.best_route(),
                ),
            decreases cfg.restarts - trials,
        {
            let ghost before = *self;
            self.random_init();
            let ghost begun = *self;
            let taken = self.trial(cfg.steps, cfg.neighbor_samples, cfg.shake_prob);
            proof {
                let points = self.instance();
                assert(begun.best_cost() == lower(
                    before.best_cost(),
                    tour_cost(points, begun.route()) as u128,
                ));
                assert(begun.best_route() == kept_route(
                    points,
                    before.best_cost(),
                    before.best_route(),
                    begun.route(),
                ));
                assert(is_run(
                    points,
                    trials as nat,
                    cfg.steps as nat,
                    old(self).best_cost(),
                    old(self).best_route(),
                    before.best_cost(),
                    before.best_route(),
                ));
                assert(is_trail(
                    points,
                    begun.route(),
                    self.route(),
                    taken as nat,
                    lower(before.best_cost(), tour_cost(points, begun.route()) as u128),
                    kept_route(points, before.best_cost(), before.best_route(), begun.route()),
                    self.best_cost(),
                    self.best_route(),
                ));
                lemma_run_step(
                    points,
                    trials as nat,
                    cfg.steps as nat,
                    old(self).best_cost(),
                    old(self).best_route(),
                    before.best_cost(),
                    before.best_route(),
                    begun.route(),
                    self.route(),
                    taken as nat,
                    self.best_cost(),
                    self.best_route(),
                );
            }
            trials += 1;
        }
        match self.best() {
            Some(tour) => Ok(tour),
            None => Err(SearchError::NoTrial),
        }
    }
}

} // verus!
