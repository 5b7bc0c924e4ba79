//! k-anonymity and l-diversity guards: a query that returns fewer than `k`
//! survivors, or survivors whose sensitive attribute has fewer than `l`
//! distinct values, is rejected.

use vstd::prelude::*;
use vstd::std_specs::hash::*;

verus! {

/// Privacy guard policy.
#[derive(Debug, Clone, Copy)]
pub struct AnonymityGuard {
    /// Reject if the survivor set has fewer than `k` records.
    pub k: usize,
    /// Reject if the survivors carry fewer than `l` distinct values of the
    /// sensitive attribute. `None` disables l-diversity.
    pub l: Option<usize>,
}

/// Outcome of evaluating a guard.
#[derive(Debug, Clone)]
pub enum GuardOutcome {
    /// All checks passed; query may be answered exactly.
    Allow,
    /// Number of survivors is below `k`.
    DenyTooFewRecords {
        /// How many records actually survived.
        n: usize,
        /// Required k.
        k: usize,
    },
    /// Survivors have too few distinct sensitive values.
    DenyTooLowDiversity {
        /// How many distinct sensitive values were present.
        distinct: usize,
        /// Required l.
        l: usize,
    },
}

/// What a guard says of `n` survivors with `distinct` sensitive values.
pub open spec fn judge_spec(g: AnonymityGuard, n: usize, distinct: usize) -> GuardOutcome {
    if n < g.k {
        GuardOutcome::DenyTooFewRecords { n, k: g.k }
    } else {
        match g.l {
            Some(l) => if distinct < l {
                GuardOutcome::DenyTooLowDiversity { distinct, l }
            } else {
                GuardOutcome::Allow
            },
            None => GuardOutcome::Allow,
        }
    }
}

impl GuardOutcome {
    /// True iff `Allow`.
    pub fn allow(&self) -> (r: bool)
        ensures
            r == (self is Allow),
    {
        matches!(self, GuardOutcome::Allow)
    }
}

/// Collecting references into an `ahash::AHashSet` and taking its length:
/// the number of distinct values, for types whose `Eq` and `Hash` agree
/// with equality; at most the number of values in any case.
#[verifier::external_body]
fn count_distinct<S: Eq + std::hash::Hash>(values: &[S]) -> (n: usize)
    ensures
        n <= values@.len(),
        obeys_key_model::<S>() ==> n == values@.to_set().len(),
{
    values.iter().collect::<ahash::AHashSet<&S>>().len()
}

impl AnonymityGuard {
    /// k-anonymity only.
    pub fn k_anonymity(k: usize) -> (r: Self)
        ensures
            r == (AnonymityGuard { k, l: None }),
    {
        AnonymityGuard { k, l: None }
    }

    /// k-anonymity + l-diversity.
    pub fn k_and_l(k: usize, l: usize) -> (r: Self)
        ensures
            r == (AnonymityGuard { k, l: Some(l) }),
    {
        AnonymityGuard { k, l: Some(l) }
    }

    /// Judges `n` survivors that carry `distinct` sensitive values.
    pub fn judge(&self, n: usize, distinct: usize) -> (r: GuardOutcome)
        ensures
            r == judge_spec(*self, n, distinct),
    {
        if n < self.k {
            return GuardOutcome::DenyTooFewRecords { n, k: self.k };
        }
        if let Some(l) = self.l {
            if distinct < l {
                return GuardOutcome::DenyTooLowDiversity { distinct, l };
            }
        }
        GuardOutcome::Allow
    }

    /// Evaluate the guard against the sensitive-attribute value of each
    /// survivor (the values matter only when l-diversity is enabled).
    pub fn evaluate<S>(&self, survivors: &[S]) -> (r: GuardOutcome) where S: Eq + std::hash::Hash
        ensures
            survivors@.len() < self.k || self.l is None ==> r == judge_spec(
                *self,
                survivors@.len() as usize,
                0,
            ),
            obeys_key_model::<S>() ==> r == judge_spec(
                *self,
                survivors@.len() as usize,
                survivors@.to_set().len() as usize,
            ),
            exists|distinct: usize|
                distinct <= survivors@.len() && r == #[trigger] judge_spec(
                    *self,
                    survivors@.len() as usize,
                    distinct,
                ),
    {
        let n: usize = survivors.len();
        let distinct: usize = count_distinct(survivors);
        self.judge(n, distinct)
    }
}

/// A guard that allows a survivor set allows every larger one with at least
/// as many distinct values.
pub proof fn more_records_stay_allowed(
    g: AnonymityGuard,
    n: usize,
    distinct: usize,
    n2: usize,
    distinct2: usize,
)
    requires
        judge_spec(g, n, distinct) is Allow,
        n <= n2,
        distinct <= distinct2,
    ensures
        judge_spec(g, n2, distinct2) is Allow,
{
}

/// Whatever is allowed has at least `k` survivors and, where diversity is
/// asked for, at least `l` distinct values.
pub proof fn allowed_means_anonymous(g: AnonymityGuard, n: usize, distinct: usize)
    ensures
        judge_spec(g, n, distinct) is Allow <==> n >= g.k && (g.l matches Some(l) ==> distinct >= l),
{
}

/// A denial says what was found and what was asked for: too few records
/// where there are fewer than `k`, and only otherwise too low a diversity.
pub proof fn denial_says_what_was_missing(g: AnonymityGuard, n: usize, distinct: usize)
    ensures
        judge_spec(g, n, distinct) is DenyTooFewRecords <==> n < g.k,
        judge_spec(g, n, distinct) matches GuardOutcome::DenyTooFewRecords { n: found, k } ==> found
            == n && k == g.k && found < k,
        judge_spec(g, n, distinct) matches GuardOutcome::DenyTooLowDiversity { distinct: found, l }
            ==> found == distinct && g.l == Some(l) && found < l && n >= g.k,
{
}

} // verus!
