use vstd::prelude::*;

verus! {

/// The counts of an SIR model: susceptible, infected, recovered.
pub type SirCounts = (usize, usize, usize);

/// The counts one step later, when `new_infected` susceptible agents fall ill and
/// `new_recovered` infected agents recover: the susceptible count drops (never below zero),
/// the infected and recovered counts are clamped to the population, and if the three then
/// exceed the population the susceptible count is lowered to make up the difference.
pub open spec fn sir_next(c: SirCounts, population: nat, new_infected: nat, new_recovered: nat) -> (int, int, int) {
    let s1: int = if new_infected <= c.0 { c.0 - new_infected } else { 0 };
    let i1: int = c.1 + new_infected - new_recovered;
    let r1: int = c.2 + new_recovered;
    let i2: int = if i1 < population { i1 } else { population as int };
    let r2: int = if r1 < population { r1 } else { population as int };
    let s2: int = if s1 + i2 + r2 > population { population - i2 - r2 } else { s1 };
    (s2, i2, r2)
}

/// The counts of a fresh model: everyone susceptible except the initially infected.
pub fn sir_start(population: usize, initial_infected: usize) -> (r: SirCounts)
    requires
        initial_infected <= population,
    ensures
        r == ((population - initial_infected) as usize, initial_infected, 0usize),
{
    (population - initial_infected, initial_infected, 0)
}

/// Advances the counts by one step (see `sir_next`).
pub fn sir_advance(c: SirCounts, population: usize, new_infected: usize, new_recovered: usize) -> (r: SirCounts)
    requires
        c.1 + new_infected <= usize::MAX,
        new_recovered <= c.1 + new_infected,
        c.2 + new_recovered <= usize::MAX,
        sir_next(c, population as nat, new_infected as nat, new_recovered as nat).1
            + sir_next(c, population as nat, new_infected as nat, new_recovered as nat).2
            + (if new_infected <= c.0 { c.0 - new_infected } else { 0 }) <= usize::MAX,
        (if new_infected <= c.0 { c.0 - new_infected } else { 0 })
            + sir_next(c, population as nat, new_infected as nat, new_recovered as nat).1
            + sir_next(c, population as nat, new_infected as nat, new_recovered as nat).2 > population
            ==> sir_next(c, population as nat, new_infected as nat, new_recovered as nat).1
                + sir_next(c, population as nat, new_infected as nat, new_recovered as nat).2 <= population,
    ensures
        r.0 == sir_next(c, population as nat, new_infected as nat, new_recovered as nat).0,
        r.1 == sir_next(c, population as nat, new_infected as nat, new_recovered as nat).1,
        r.2 == sir_next(c, population as nat, new_infected as nat, new_recovered as nat).2,
{
    let mut s = c.0.saturating_sub(new_infected);
    let mut i = c.1 + new_infected;
    i = i - new_recovered;
    let mut r = c.2 + new_recovered;
    if i > population {
        i = population;
    }
    if r > population {
        r = population;
    }
    if s + i + r > population {
        s = population - i - r;
    }
    (s, i, r)
}

/// The population is conserved: when the counts add up to the population, at most every
/// susceptible agent falls ill and at most every infected agent recovers, the next counts
/// add up to the population again, and the step can be taken.
pub proof fn law_sir_conserves(c: SirCounts, population: nat, new_infected: nat, new_recovered: nat)
    requires
        c.0 + c.1 + c.2 == population,
        new_infected <= c.0,
        new_recovered <= c.1 + new_infected,
    ensures
        ({
            let n = sir_next(c, population, new_infected, new_recovered);
            &&& n.0 + n.1 + n.2 == population
            &&& n.0 >= 0 && n.1 >= 0 && n.2 >= 0
            &&& n.0 == c.0 - new_infected
            &&& n.1 == c.1 + new_infected - new_recovered
            &&& n.2 == c.2 + new_recovered
        }),
{
}

/// Every step that can be taken conserves the population: when the counts add up to the
/// population and the step neither lets more agents recover than are infected nor leaves the
/// infected and recovered counts above the population (where `sir_advance` would fail), the
/// next counts, all of them non-negative, add up to the population again.
pub proof fn law_sir_step_conserves(c: SirCounts, population: nat, new_infected: nat, new_recovered: nat)
    requires
        c.0 + c.1 + c.2 == population,
        new_recovered <= c.1 + new_infected,
        (if new_infected <= c.0 { c.0 - new_infected } else { 0 })
            + sir_next(c, population, new_infected, new_recovered).1
            + sir_next(c, population, new_infected, new_recovered).2 > population
            ==> sir_next(c, population, new_infected, new_recovered).1
                + sir_next(c, population, new_infected, new_recovered).2 <= population,
    ensures
        ({
            let n = sir_next(c, population, new_infected, new_recovered);
            &&& n.0 + n.1 + n.2 == population
            &&& n.0 >= 0 && n.1 >= 0 && n.2 >= 0
        }),
{
}

/// The largest infected count in a history, zero if it is empty.
pub open spec fn peak_upto(history: Seq<SirCounts>, k: int) -> nat
    decreases k,
{
    if k <= 0 {
        0
    } else {
        let p = peak_upto(history, k - 1);
        if history[k - 1].1 > p { history[k - 1].1 as nat } else { p }
    }
}

/// The peak bounds every infected count up to `k` and, unless `k` is zero, is one of them.
proof fn lemma_peak_upto(history: Seq<SirCounts>, k: int)
    requires
        0 <= k <= history.len(),
    ensures
        forall|j: int| 0 <= j < k ==> #[trigger] history[j].1 <= peak_upto(history, k),
        k > 0 ==> exists|j: int| 0 <= j < k && #[trigger] history[j].1 == peak_upto(history, k),
    decreases k,
{
    if k > 0 {
        lemma_peak_upto(history, k - 1);
        if k > 1 && history[k - 1].1 <= peak_upto(history, k - 1) {
            let j = choose|j: int| 0 <= j < k - 1 && #[trigger] history[j].1 == peak_upto(history, k - 1);
            assert(history[j].1 == peak_upto(history, k));
        } else {
            assert(history[k - 1].1 == peak_upto(history, k));
        }
    }
}

/// The largest infected count in a history of counts, zero if it is empty: no count in the
/// history exceeds it, and a non-empty history holds it.
pub fn peak_infection(history: &Vec<SirCounts>) -> (r: usize)
    ensures
        r == peak_upto(history@, history@.len() as int),
        forall|j: int| 0 <= j < history@.len() ==> #[trigger] history@[j].1 <= r,
        history@.len() > 0 ==> exists|j: int| 0 <= j < history@.len() && #[trigger] history@[j].1 == r,
        history@.len() == 0 ==> r == 0,
{
    proof {
        lemma_peak_upto(history@, history@.len() as int);
    }
    let mut best: usize = 0;
    let mut k: usize = 0;
    while k < history.len()
        invariant
            k <= history.len(),
            best == peak_upto(history@, k as int),
        decreases history.len() - k,
    {
        if history[k].1 > best {
            best = history[k].1;
        }
        k = k + 1;
    }
    best
}

} // verus!
