use vstd::prelude::*;

verus! {

/// Number of `true` entries in a sequence of outcomes.
pub open spec fn count_accepted(outcomes: Seq<bool>) -> nat
    decreases outcomes.len(),
{
    if outcomes.len() == 0 {
        0
    } else {
        count_accepted(outcomes.drop_last()) + if outcomes.last() {
            1nat
        } else {
            0nat
        }
    }
}

/// Number of `false` entries in a sequence of outcomes.
pub open spec fn count_rejected(outcomes: Seq<bool>) -> nat
    decreases outcomes.len(),
{
    if outcomes.len() == 0 {
        0
    } else {
        count_rejected(outcomes.drop_last()) + if outcomes.last() {
            0nat
        } else {
            1nat
        }
    }
}

/// Every outcome is an acceptance or a rejection.
pub proof fn lemma_count_accepted_bound(outcomes: Seq<bool>)
    ensures
        count_accepted(outcomes) <= outcomes.len(),
        count_accepted(outcomes) + count_rejected(outcomes) == outcomes.len(),
    decreases outcomes.len(),
{
    if outcomes.len() > 0 {
        lemma_count_accepted_bound(outcomes.drop_last());
    }
}

/// Counts proposed samples and the subset of them that were accepted.
pub struct SampleCounter {
    generated: usize,
    accepted: usize,
    outcomes: Ghost<Seq<bool>>,
}

impl SampleCounter {
    /// Number of proposals recorded so far.
    pub closed spec fn generated_spec(&self) -> nat {
        self.generated as nat
    }

    /// Number of accepted proposals recorded so far.
    pub closed spec fn accepted_spec(&self) -> nat {
        self.accepted as nat
    }

    /// Every outcome recorded so far, in order: `true` for an acceptance.
    pub closed spec fn history(&self) -> Seq<bool> {
        self.outcomes@
    }

    /// The counters agree with the recorded history.
    pub closed spec fn wf(&self) -> bool {
        &&& self.generated == self.outcomes@.len()
        &&& self.accepted == count_accepted(self.outcomes@)
    }

    /// Whatever the interleaving of `a` acceptances and `r` rejections
    /// recorded since `new`, the counter holds `generated == a + r` and
    /// `accepted == a`.
    pub proof fn lemma_counts(&self)
        requires
            self.wf(),
        ensures
            self.generated_spec() == self.history().len(),
            self.generated_spec() == count_accepted(self.history()) + count_rejected(
                self.history(),
            ),
            self.accepted_spec() == count_accepted(self.history()),
            self.accepted_spec() <= self.generated_spec(),
    {
        lemma_count_accepted_bound(self.outcomes@);
    }

    pub fn new() -> (r: Self)
        ensures
            r.wf(),
            r.history() == Seq::<bool>::empty(),
            r.generated_spec() == 0,
            r.accepted_spec() == 0,
    {
        SampleCounter { generated: 0, accepted: 0, outcomes: Ghost(Seq::empty()) }
    }

    /// Records an accepted proposal.
    pub fn accept(&mut self)
        requires
            old(self).wf(),
            old(self).generated_spec() < usize::MAX,
        ensures
            final(self).wf(),
            final(self).generated_spec() == old(self).generated_spec() + 1,
            final(self).accepted_spec() == old(self).accepted_spec() + 1,
            final(self).history() == old(self).history().push(true),
    {
        proof {
            lemma_count_accepted_bound(self.outcomes@);
            assert(self.outcomes@.push(true).drop_last() =~= self.outcomes@);
        }
        self.generated = self.generated + 1;
        self.accepted = self.accepted + 1;
        self.outcomes = Ghost(self.outcomes@.push(true));
    }

    /// Records a rejected proposal.
    pub fn reject(&mut self)
        requires
            old(self).wf(),
            old(self).generated_spec() < usize::MAX,
        ensures
            final(self).wf(),
            final(self).generated_spec() == old(self).generated_spec() + 1,
            final(self).accepted_spec() == old(self).accepted_spec(),
            final(self).history() == old(self).history().push(false),
    {
        proof {
            assert(self.outcomes@.push(false).drop_last() =~= self.outcomes@);
        }
        self.generated = self.generated + 1;
        self.outcomes = Ghost(self.outcomes@.push(false));
    }

    pub fn get_generated(&self) -> (r: usize)
        ensures
            r == self.generated_spec(),
    {
        self.generated
    }

    pub fn get_accepted(&self) -> (r: usize)
        ensures
            r == self.accepted_spec(),
    {
        self.accepted
    }
}

} // verus!
