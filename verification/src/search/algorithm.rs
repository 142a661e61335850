//! Repeated random generation and evaluation against an objective.
//!
//! Workers need share nothing mutable: each candidate is generated from
//! the read-only availability mapping and measured on its own, so a host
//! may run `candidate` from as many threads as it likes and combine the
//! results with `find_expression`'s fold. The drivers here are the
//! sequential forms of that same logic.

use vstd::prelude::*;

use crate::model::expr::{
    constants_exhausted, distinct_tokens, drawn_from, eval_tokens, no_double_neg, well_formed,
    within_budget, Expression, GenerationError, Token,
};
use crate::model::number::Number;

verus! {

/// Why a search gave no expression back.
#[derive(Clone, Copy, PartialEq, Eq, Structural, Debug)]
pub enum SearchError {
    /// A generation attempt found no eligible token: the availability
    /// mapping is malformed, and the whole search aborts.
    MalformedBudget,
    /// Every attempt the caller allowed was made and none met the
    /// threshold: the objective may be unreachable for this vocabulary.
    Unfulfilled,
}

/// Everything the generator promises of one produced expression.
pub open spec fn good_candidate<T: Number>(
    tokens: Seq<Token<T>>,
    choices: Seq<(Token<T>, i64)>,
) -> bool {
    &&& well_formed(tokens)
    &&& within_budget(tokens, choices)
    &&& constants_exhausted(tokens, choices)
    &&& drawn_from(tokens, choices)
    &&& no_double_neg(tokens)
}

/// The distance of a candidate's value to the objective.
pub open spec fn candidate_distance<T: Number>(tokens: Seq<Token<T>>, objective: T) -> T::Dist {
    eval_tokens(tokens).spec_distance(objective)
}

/// Generates one candidate and measures it: the pair holds the
/// expression and the distance of its value to the objective.
pub fn candidate<T: Number>(choices: &Vec<(Token<T>, i64)>, objective: T) -> (r: Result<
    (Expression<T>, T::Dist),
    GenerationError,
>)
    requires
        distinct_tokens(choices@),
    ensures
        r matches Ok(p) ==> good_candidate(p.0@, choices@) && p.1 == candidate_distance(
            p.0@,
            objective,
        ),
{
    match Expression::random(choices) {
        Ok(e) => {
            let value = e.calculate();
            let d = value.distance(&objective);
            Ok((e, d))
        },
        Err(err) => Err(err),
    }
}

/// The record a left-to-right scan of the distances keeps, seeded with
/// the domain's worst distance: a distance enters the record only by
/// strictly improving on it, so one that improves on nothing — a
/// not-a-number — never displaces anything, and ties keep the earlier
/// entry. `None` means nothing in the sequence ever improved on the
/// seed.
pub open spec fn scan_record<T: Number>(dists: Seq<T::Dist>) -> Option<T::Dist>
    decreases dists.len(),
{
    if dists.len() == 0 {
        Option::None
    } else {
        let prev = scan_record::<T>(dists.drop_last());
        let cur = dists.last();
        match prev {
            Option::None => if T::spec_dist_lt(cur, T::spec_worst_dist()) {
                Option::Some(cur)
            } else {
                Option::None
            },
            Option::Some(b) => if T::spec_dist_lt(cur, b) {
                Option::Some(cur)
            } else {
                Option::Some(b)
            },
        }
    }
}

/// Best-of-N search: generates a batch of candidates and returns the one
/// whose value lies closest to the objective, ties broken by generation
/// order (the first minimum is kept). The ghost sequence records the
/// distance of every candidate in the batch, in generation order: the
/// returned distance is exactly the scan's record over it — so a
/// distance that improves on nothing, a not-a-number, is never selected
/// over one that does — and it is the returned expression's own
/// distance. Only when no candidate in the batch improves on the
/// domain's worst distance does the first candidate come back as the
/// best effort. The first failed generation attempt aborts the whole
/// search.
pub fn find_expression<T: Number>(
    choices: &Vec<(Token<T>, i64)>,
    objective: T,
    batch: usize,
) -> (r: Result<(Expression<T>, T::Dist, Ghost<Seq<T::Dist>>), GenerationError>)
    requires
        distinct_tokens(choices@),
        batch >= 1,
    ensures
        r matches Ok(p) ==> {
            &&& good_candidate(p.0@, choices@)
            &&& p.1 == candidate_distance(p.0@, objective)
            &&& p.2@.len() == batch
            &&& (match scan_record::<T>(p.2@) {
                Option::Some(b) => p.1 == b,
                Option::None => p.1 == p.2@[0],
            })
        },
{
    let worst = T::worst_dist();
    let first = match candidate(choices, objective) {
        Ok(c) => c,
        Err(err) => {
            return Err(err);
        },
    };
    let mut best_expr = first.0;
    let mut best_dist = first.1;
    let mut has_record = T::dist_lt(first.1, worst);
    let ghost mut dists: Seq<T::Dist> = seq![first.1];
    proof {
        assert(dists.drop_last() =~= Seq::<T::Dist>::empty());
        assert(scan_record::<T>(Seq::<T::Dist>::empty()) is None);
        assert(dists.last() == first.1);
    }
    let mut i: usize = 1;
    while i < batch
        invariant
            distinct_tokens(choices@),
            worst == T::spec_worst_dist(),
            1 <= i <= batch,
            dists.len() == i,
            match scan_record::<T>(dists) {
                Option::Some(b) => has_record && best_dist == b,
                Option::None => !has_record && best_dist == dists[0],
            },
            good_candidate(best_expr@, choices@),
            best_dist == candidate_distance(best_expr@, objective),
        decreases batch - i,
    {
        let c = match candidate(choices, objective) {
            Ok(c) => c,
            Err(err) => {
                return Err(err);
            },
        };
        proof {
            let grown = dists.push(c.1);
            assert(grown.drop_last() =~= dists);
            dists = grown;
        }
        let improves = if has_record {
            T::dist_lt(c.1, best_dist)
        } else {
            T::dist_lt(c.1, worst)
        };
        if improves {
            best_expr = c.0;
            best_dist = c.1;
            has_record = true;
        }
        i = i + 1;
    }
    Ok((best_expr, best_dist, Ghost(dists)))
}

/// First-acceptable search: draws candidates until one's distance to the
/// objective is strictly below the threshold, and returns it. Whether
/// any candidate ever meets the threshold is up to chance, so the caller
/// bounds the attempts; exhausting them answers `Unfulfilled` — with no
/// attempts allowed, at once — and a failed generation attempt aborts
/// the search.
pub fn find_acceptable<T: Number>(
    choices: &Vec<(Token<T>, i64)>,
    objective: T,
    threshold: T::Dist,
    max_attempts: usize,
) -> (r: Result<Expression<T>, SearchError>)
    requires
        distinct_tokens(choices@),
    ensures
        r matches Ok(e) ==> good_candidate(e@, choices@) && T::spec_dist_lt(
            candidate_distance(e@, objective),
            threshold,
        ),
        max_attempts == 0 ==> r == Err::<Expression<T>, SearchError>(SearchError::Unfulfilled),
{
    let mut attempts: usize = max_attempts;
    loop
        invariant
            distinct_tokens(choices@),
            max_attempts == 0 ==> attempts == 0,
        decreases attempts,
    {
        if attempts == 0 {
            return Err(SearchError::Unfulfilled);
        }
        attempts = attempts - 1;
        let c = match candidate(choices, objective) {
            Ok(c) => c,
            Err(_) => {
                return Err(SearchError::MalformedBudget);
            },
        };
        if T::dist_lt(c.1, threshold) {
            return Ok(c.0);
        }
    }
}

/// The record a streaming search keeps between candidates: the best
/// distance seen so far, seeded with the domain's worst distance so that
/// a distance improving on nothing — a not-a-number — is never the
/// first report.
pub struct ImprovementTracker<T: Number> {
    best: T::Dist,
}

impl<T: Number> ImprovementTracker<T> {
    /// The best distance observed so far.
    pub closed spec fn spec_best(self) -> T::Dist {
        self.best
    }

    /// A fresh record, holding the domain's worst distance.
    pub fn new() -> (r: Self)
        ensures
            r.spec_best() == T::spec_worst_dist(),
    {
        ImprovementTracker { best: T::worst_dist() }
    }

    /// Takes one candidate's distance and answers whether it strictly
    /// improves on the record; only then does the record move, so a host
    /// reports a candidate exactly when this answers true — never for
    /// one that improves on nothing.
    pub fn observe(&mut self, d: T::Dist) -> (improved: bool)
        ensures
            improved == T::spec_dist_lt(d, old(self).spec_best()),
            final(self).spec_best() == if improved {
                d
            } else {
                old(self).spec_best()
            },
    {
        let improved = T::dist_lt(d, self.best);
        if improved {
            self.best = d;
        }
        improved
    }

    /// The whole per-candidate decision of a streaming search: record
    /// the distance, report exactly on strict improvement, and stop once
    /// an improvement lands strictly below the threshold or the
    /// wall-clock budget has elapsed — the budget alone ends a run that
    /// never improves.
    pub fn step(&mut self, d: T::Dist, threshold: T::Dist, budget_elapsed: bool) -> (r: (
        bool,
        bool,
    ))
        ensures
            r.0 == T::spec_dist_lt(d, old(self).spec_best()),
            final(self).spec_best() == if r.0 {
                d
            } else {
                old(self).spec_best()
            },
            r.1 == (budget_elapsed || (r.0 && T::spec_dist_lt(d, threshold))),
    {
        let report = self.observe(d);
        let stop = budget_elapsed || (report && T::dist_lt(d, threshold));
        (report, stop)
    }
}

} // verus!
