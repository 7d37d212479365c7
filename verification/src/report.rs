//! Statistics over a batch of runs: how many subjects were assessed, how
//! many programs they stand for, how each run ended, and the reigning
//! champions by score and by step count.

use vstd::prelude::*;

use crate::machine::{Assessment, Details};

verus! {

/// The tallies a report keeps, as unbounded numbers: the spec-level face of
/// a `Report`.
#[verifier::ext_equal]
pub ghost struct Counters {
    /// How many runs were absorbed.
    pub subjects: int,
    /// How many concrete programs they stand for.
    pub total: int,
    /// The multiplicity of the runs that halted.
    pub halted: int,
    /// The multiplicity of the runs that ran out of budget.
    pub indeterminate: int,
    /// The multiplicity of the runs that could not progress.
    pub stuck: int,
}

/// A champion as the spec sees it.
#[verifier::ext_equal]
pub ghost struct ChampionModel {
    /// The run details that made it champion.
    pub details: Details,
    /// The tally of runs that matched the reigning record.
    pub count: int,
}

/// How one assessment changes the tallies: every run counts once as a
/// subject and with its multiplicity towards the total; the multiplicity
/// also lands in the bucket for how the run ended.
pub open spec fn absorb(c: Counters, a: Assessment) -> Counters {
    match a {
        Assessment::HaltedIn(d) => Counters {
            subjects: c.subjects + 1,
            total: c.total + d.multiplicity,
            halted: c.halted + d.multiplicity,
            ..c
        },
        Assessment::NotHalted(d) => Counters {
            subjects: c.subjects + 1,
            total: c.total + d.multiplicity,
            indeterminate: c.indeterminate + d.multiplicity,
            ..c
        },
        Assessment::NoProgress(_, d) => Counters {
            subjects: c.subjects + 1,
            total: c.total + d.multiplicity,
            stuck: c.stuck + d.multiplicity,
            ..c
        },
    }
}

/// The tallies do not depend on the order runs are absorbed in: absorbing
/// two assessments in either order leaves the same counters. Partial
/// tallies can therefore be merged in any order.
pub proof fn lemma_absorb_commutes(c: Counters, a1: Assessment, a2: Assessment)
    ensures
        absorb(absorb(c, a1), a2) == absorb(absorb(c, a2), a1),
{
}

/// How a halted run's details challenge a reigning champion, given the
/// record the champion is measured by: a strictly better record replaces
/// the champion with a fresh tally of one, a record equal to the reigning
/// one adds to its tally, and a worse record changes nothing.
pub open spec fn champion_after(
    reigning: Option<ChampionModel>,
    d: Details,
    record_of: spec_fn(Details) -> int,
) -> Option<ChampionModel> {
    match reigning {
        None => Some(ChampionModel { details: d, count: 1 }),
        Some(c) => {
            if record_of(d) > record_of(c.details) {
                Some(ChampionModel { details: d, count: 1 })
            } else if record_of(d) == record_of(c.details) {
                Some(ChampionModel { details: c.details, count: c.count + 1 })
            } else {
                Some(c)
            }
        },
    }
}

/// The reigning champion after a whole sequence of halted runs.
pub open spec fn champion_of(
    ds: Seq<Details>,
    record_of: spec_fn(Details) -> int,
) -> Option<ChampionModel>
    decreases ds.len(),
{
    if ds.len() == 0 {
        None
    } else {
        champion_after(champion_of(ds.drop_last(), record_of), ds.last(), record_of)
    }
}

/// The best record among a sequence of halted runs.
pub open spec fn best_record(ds: Seq<Details>, record_of: spec_fn(Details) -> int) -> int
    decreases ds.len(),
{
    if ds.len() <= 1 {
        record_of(ds[0])
    } else if record_of(ds.last()) > best_record(ds.drop_last(), record_of) {
        record_of(ds.last())
    } else {
        best_record(ds.drop_last(), record_of)
    }
}

/// How many of a sequence of halted runs attain a record.
pub open spec fn count_attaining(
    ds: Seq<Details>,
    record_of: spec_fn(Details) -> int,
    record: int,
) -> int
    decreases ds.len(),
{
    if ds.len() == 0 {
        0
    } else {
        count_attaining(ds.drop_last(), record_of, record) + if record_of(ds.last()) == record {
            1int
        } else {
            0int
        }
    }
}

/// The champion tally is an order-independent aggregate: after absorbing
/// any sequence of halted runs, the champion holds the best record among
/// them and its tally counts exactly the runs that attain that record —
/// both are functions of what was absorbed, not of the order. (Which of
/// several record-tying runs' details the champion carries does follow the
/// order: the earliest record holder is kept.)
pub proof fn lemma_champion_counts_attainers(ds: Seq<Details>, record_of: spec_fn(Details) -> int)
    requires
        ds.len() > 0,
    ensures
        champion_of(ds, record_of) matches Some(c) && record_of(c.details) == best_record(
            ds,
            record_of,
        ) && c.count == count_attaining(ds, record_of, best_record(ds, record_of)),
    decreases ds.len(),
{
    if ds.len() == 1 {
        assert(count_attaining(ds.drop_last(), record_of, record_of(ds[0])) == 0);
    } else {
        lemma_champion_counts_attainers(ds.drop_last(), record_of);
        let prev_best = best_record(ds.drop_last(), record_of);
        let best = best_record(ds, record_of);
        if record_of(ds.last()) > prev_best {
            lemma_none_attain_above(ds.drop_last(), record_of, best);
        }
    }
}

/// No run of a sequence attains a record strictly above the best one.
proof fn lemma_none_attain_above(ds: Seq<Details>, record_of: spec_fn(Details) -> int, record: int)
    requires
        ds.len() > 0,
        record > best_record(ds, record_of),
    ensures
        count_attaining(ds, record_of, record) == 0,
    decreases ds.len(),
{
    if ds.len() == 1 {
        assert(ds.last() == ds[0]);
        assert(record_of(ds.last()) != record);
        assert(count_attaining(ds.drop_last(), record_of, record) == 0);
    } else {
        assert(best_record(ds, record_of) >= best_record(ds.drop_last(), record_of));
        assert(best_record(ds, record_of) >= record_of(ds.last()));
        lemma_none_attain_above(ds.drop_last(), record_of, record);
        assert(record_of(ds.last()) != record);
        assert(count_attaining(ds, record_of, record) == count_attaining(
            ds.drop_last(),
            record_of,
            record,
        ));
    }
}

/// The record the sigma champion is measured by: the score.
pub open spec fn sigma_record() -> spec_fn(Details) -> int {
    |d: Details| d.score as int
}

/// The record the s champion is measured by: the step count.
pub open spec fn s_record() -> spec_fn(Details) -> int {
    |d: Details| d.steps as int
}

/// A champion: the machine that outdoes the others in one category, with a
/// tally of how often its record was met.
#[derive(Debug, PartialEq, Eq, Structural, Copy, Clone)]
pub struct Champion {
    details: Details,
    count: usize,
}

impl Champion {
    /// The spec-level view of this champion.
    pub closed spec fn model(&self) -> ChampionModel {
        ChampionModel { details: self.details, count: self.count as int }
    }

    /// Crown a new champion for a run's details.
    pub fn new(details: Details) -> (r: Self)
        ensures
            r.model() == (ChampionModel { details, count: 1 }),
    {
        Self { details, count: 1 }
    }

    /// Replace the record.
    fn update(&mut self, details: Details)
        ensures
            final(self).model() == (ChampionModel { details, count: 1 }),
    {
        self.details = details;
        self.count = 1;
    }

    /// The run details holding the record.
    pub fn record_details(&self) -> (r: Details)
        ensures
            r == self.model().details,
    {
        self.details
    }

    /// How many absorbed runs attained the record.
    pub fn record_count(&self) -> (r: usize)
        ensures
            r == self.model().count,
    {
        self.count
    }

    /// Count one more run that met the record.
    fn tally(&mut self)
        requires
            old(self).model().count < usize::MAX,
        ensures
            final(self).model() == (ChampionModel {
                details: old(self).model().details,
                count: old(self).model().count + 1,
            }),
    {
        self.count = self.count + 1;
    }
}

/// Summary of the Turing machines assessed so far.
#[derive(Debug)]
pub struct Report {
    subjects: usize,
    total: usize,
    halted: usize,
    indeterminate: usize,
    stuck: usize,
    sigma_champion: Option<Champion>,
    s_champion: Option<Champion>,
}

impl Report {
    /// The spec-level tallies.
    pub closed spec fn counters(&self) -> Counters {
        Counters {
            subjects: self.subjects as int,
            total: self.total as int,
            halted: self.halted as int,
            indeterminate: self.indeterminate as int,
            stuck: self.stuck as int,
        }
    }

    /// The reigning champion by score, if any run halted yet.
    pub closed spec fn sigma(&self) -> Option<ChampionModel> {
        match self.sigma_champion {
            Some(c) => Some(c.model()),
            None => None,
        }
    }

    /// The reigning champion by step count, if any run halted yet.
    pub closed spec fn s(&self) -> Option<ChampionModel> {
        match self.s_champion {
            Some(c) => Some(c.model()),
            None => None,
        }
    }

    /// The report's invariant: the buckets add up to the total, and the
    /// champion tallies never outrun the subjects seen.
    pub open spec fn wf(&self) -> bool {
        &&& self.counters().halted + self.counters().indeterminate + self.counters().stuck
            == self.counters().total
        &&& self.counters().subjects >= 0
        &&& self.counters().halted >= 0
        &&& self.counters().indeterminate >= 0
        &&& self.counters().stuck >= 0
        &&& self.counters().total >= 0
        &&& (self.sigma() matches Some(c) ==> 1 <= c.count <= self.counters().subjects)
        &&& (self.s() matches Some(c) ==> 1 <= c.count <= self.counters().subjects)
    }

    /// Whether one more assessment with these details still fits the
    /// machine words the tallies are kept in.
    pub open spec fn can_absorb(&self, d: Details) -> bool {
        &&& self.counters().subjects + 1 <= usize::MAX
        &&& self.counters().total + d.multiplicity <= usize::MAX
        &&& self.counters().halted + d.multiplicity <= usize::MAX
        &&& self.counters().indeterminate + d.multiplicity <= usize::MAX
        &&& self.counters().stuck + d.multiplicity <= usize::MAX
    }

    /// The reigning champion by score, if any run halted yet.
    pub fn sigma_champion(&self) -> (r: Option<Champion>)
        ensures
            r matches Some(c) <==> self.sigma() matches Some(_),
            r matches Some(c) ==> self.sigma() == Some(c.model()),
    {
        self.sigma_champion
    }

    /// The reigning champion by step count, if any run halted yet.
    pub fn s_champion(&self) -> (r: Option<Champion>)
        ensures
            r matches Some(c) <==> self.s() matches Some(_),
            r matches Some(c) ==> self.s() == Some(c.model()),
    {
        self.s_champion
    }

    /// How many runs were absorbed.
    pub fn subjects(&self) -> (r: usize)
        ensures
            r == self.counters().subjects,
    {
        self.subjects
    }

    /// How many concrete programs the absorbed runs stand for.
    pub fn total(&self) -> (r: usize)
        ensures
            r == self.counters().total,
    {
        self.total
    }

    /// The multiplicity of the runs that halted.
    pub fn halted_total(&self) -> (r: usize)
        ensures
            r == self.counters().halted,
    {
        self.halted
    }

    /// The multiplicity of the runs that ran out of budget.
    pub fn indeterminate_total(&self) -> (r: usize)
        ensures
            r == self.counters().indeterminate,
    {
        self.indeterminate
    }

    /// The multiplicity of the runs that could not progress.
    pub fn stuck_total(&self) -> (r: usize)
        ensures
            r == self.counters().stuck,
    {
        self.stuck
    }

    /// Create an empty report.
    pub fn new() -> (r: Self)
        ensures
            r.wf(),
            r.counters() == (Counters {
                subjects: 0,
                total: 0,
                halted: 0,
                indeterminate: 0,
                stuck: 0,
            }),
            r.sigma() is None,
            r.s() is None,
    {
        Self {
            subjects: 0,
            total: 0,
            halted: 0,
            indeterminate: 0,
            stuck: 0,
            s_champion: None,
            sigma_champion: None,
        }
    }

    /// Absorb the assessment of one run, whichever way it ended.
    pub fn update_with(&mut self, assessment: &Assessment)
        requires
            old(self).wf(),
            assessment matches Assessment::HaltedIn(d) ==> old(self).can_absorb(*d),
            assessment matches Assessment::NotHalted(d) ==> old(self).can_absorb(*d),
            assessment matches Assessment::NoProgress(_, d) ==> old(self).can_absorb(*d),
        ensures
            final(self).wf(),
            final(self).counters() == absorb(old(self).counters(), *assessment),
            assessment matches Assessment::HaltedIn(d) ==> final(self).sigma() == champion_after(
                old(self).sigma(),
                *d,
                sigma_record(),
            ) && final(self).s() == champion_after(old(self).s(), *d, s_record()),
            !(assessment is HaltedIn) ==> final(self).sigma() == old(self).sigma() && final(self).s() == old(self).s(),
    {
        match assessment {
            Assessment::HaltedIn(details) => {
                self.halted(*details);
            },
            Assessment::NoProgress(_reason, details) => {
                self.stuck(*details);
            },
            Assessment::NotHalted(details) => {
                self.indeterminated(*details);
            },
        }
    }

    /// Absorb the details of a run that halted: it scores, and may take a
    /// championship.
    pub fn halted(&mut self, details: Details)
        requires
            old(self).wf(),
            old(self).can_absorb(details),
        ensures
            final(self).wf(),
            final(self).counters() == absorb(
                old(self).counters(),
                Assessment::HaltedIn(details),
            ),
            final(self).sigma() == champion_after(old(self).sigma(), details, sigma_record()),
            final(self).s() == champion_after(old(self).s(), details, s_record()),
    {
        self.subjects = self.subjects + 1;
        self.total = self.total + details.multiplicity;
        self.halted = self.halted + details.multiplicity;
        self.update_champion(details);
    }

    /// Absorb the details of a run whose behaviour is still undecided: the
    /// budget ran out first.
    pub fn indeterminated(&mut self, details: Details)
        requires
            old(self).wf(),
            old(self).can_absorb(details),
        ensures
            final(self).wf(),
            final(self).counters() == absorb(
                old(self).counters(),
                Assessment::NotHalted(details),
            ),
            final(self).sigma() == old(self).sigma(),
            final(self).s() == old(self).s(),
    {
        self.subjects = self.subjects + 1;
        self.total = self.total + details.multiplicity;
        self.indeterminate = self.indeterminate + details.multiplicity;
    }

    /// Absorb the details of a run that could not progress.
    pub fn stuck(&mut self, details: Details)
        requires
            old(self).wf(),
            old(self).can_absorb(details),
        ensures
            final(self).wf(),
            final(self).counters() == absorb(
                old(self).counters(),
                Assessment::NoProgress(crate::machine::Progress::Stuck, details),
            ),
            final(self).sigma() == old(self).sigma(),
            final(self).s() == old(self).s(),
    {
        self.subjects = self.subjects + 1;
        self.total = self.total + details.multiplicity;
        self.stuck = self.stuck + details.multiplicity;
    }

    /// Let a halted run challenge both championships.
    fn update_champion(&mut self, details: Details)
        requires
            1 <= old(self).counters().subjects <= usize::MAX,
            old(self).counters().halted + old(self).counters().indeterminate + old(
                self,
            ).counters().stuck == old(self).counters().total,
            old(self).sigma() matches Some(c) ==> 1 <= c.count <= old(self).counters().subjects
                - 1,
            old(self).s() matches Some(c) ==> 1 <= c.count <= old(self).counters().subjects - 1,
        ensures
            final(self).counters() == old(self).counters(),
            final(self).sigma() == champion_after(old(self).sigma(), details, sigma_record()),
            final(self).s() == champion_after(old(self).s(), details, s_record()),
            final(self).wf(),
    {
        self.sigma_champion = match self.sigma_champion {
            Some(mut reigning) => {
                if details.score > reigning.details.score {
                    reigning.update(details);
                } else if details.score == reigning.details.score {
                    reigning.tally();
                }
                Some(reigning)
            },
            None => Some(Champion::new(details)),
        };
        self.s_champion = match self.s_champion {
            Some(mut reigning) => {
                if details.steps > reigning.details.steps {
                    reigning.update(details);
                } else if details.steps == reigning.details.steps {
                    reigning.tally();
                }
                Some(reigning)
            },
            None => Some(Champion::new(details)),
        };
    }
}

impl Default for Report {
    /// An empty report, as `Report::new` makes it.
    fn default() -> (r: Self)
        ensures
            r.wf(),
            r.counters() == (Counters {
                subjects: 0,
                total: 0,
                halted: 0,
                indeterminate: 0,
                stuck: 0,
            }),
            r.sigma() is None,
            r.s() is None,
    {
        Report::new()
    }
}

} // verus!
