//! What is known of the status of each issue, and when the remote service is
//! to be asked.
//!
//! The resolver makes no remote call itself. It says when one is due, for
//! which issue, and takes the outcome back. It never asks for a second lookup
//! while one is in flight, and never for an issue twice: a failed lookup is
//! kept as an empty status.

use std::collections::HashMap;
use vstd::prelude::*;

verus! {

broadcast use vstd::std_specs::hash::group_hash_axioms;

/// Where an issue stands.
pub enum IssueState {
    /// Never asked for.
    Unseen,
    /// Asked for; the remote call has not come back.
    Pending,
    /// Known, with its status; the status is empty where the call failed.
    Resolved(Seq<char>),
}

/// What the caller of `request` is to do.
#[derive(Debug, PartialEq, Eq)]
pub enum Step {
    /// The status is known: make no call.
    Done(String),
    /// Make one remote call for this issue, then hand its outcome to
    /// `complete`.
    Fetch(u64),
    /// Another lookup is in flight: make no call.
    Busy,
}

/// A `Step` with its status as the sequence of its characters.
pub enum StepView {
    Done(Seq<char>),
    Fetch(u64),
    Busy,
}

impl View for Step {
    type V = StepView;

    open spec fn view(&self) -> StepView {
        match *self {
            Step::Done(status) => StepView::Done(status@),
            Step::Fetch(id) => StepView::Fetch(id),
            Step::Busy => StepView::Busy,
        }
    }
}

/// The resolver as a mathematical value: the statuses that are known, and
/// the issue whose lookup is in flight.
pub struct ResolverView {
    pub known: Map<u64, Seq<char>>,
    pub pending: Option<u64>,
}

impl ResolverView {
    /// Nothing known, nothing in flight.
    pub open spec fn empty() -> ResolverView {
        ResolverView { known: Map::empty(), pending: None }
    }

    /// Where the issue `id` stands.
    pub open spec fn state(self, id: u64) -> IssueState {
        if self.known.contains_key(id) {
            IssueState::Resolved(self.known[id])
        } else if self.pending == Some(id) {
            IssueState::Pending
        } else {
            IssueState::Unseen
        }
    }

    /// What `request` answers for `id`: the known status; else `Busy` while
    /// a lookup is in flight; else the order to fetch.
    pub open spec fn answer(self, id: u64) -> StepView {
        if self.known.contains_key(id) {
            StepView::Done(self.known[id])
        } else if self.pending is Some {
            StepView::Busy
        } else {
            StepView::Fetch(id)
        }
    }

    /// The resolver after `request` for `id`: the lookup is in flight where
    /// the answer was to fetch, and nothing else has changed.
    pub open spec fn requested(self, id: u64) -> ResolverView {
        if self.answer(id) is Fetch {
            ResolverView { known: self.known, pending: Some(id) }
        } else {
            self
        }
    }

    /// The status that an outcome is kept as: empty where the call failed.
    pub open spec fn status_of(outcome: Option<Seq<char>>) -> Seq<char> {
        match outcome {
            Some(status) => status,
            None => Seq::empty(),
        }
    }

    /// The resolver after `complete` with `outcome`: the issue in flight is
    /// known, and nothing is in flight. With nothing in flight nothing
    /// changes.
    pub open spec fn completed(self, outcome: Option<Seq<char>>) -> ResolverView {
        match self.pending {
            Some(id) => ResolverView {
                known: self.known.insert(id, Self::status_of(outcome)),
                pending: None,
            },
            None => self,
        }
    }
}

/// The view of an outcome handed to `complete`.
pub open spec fn outcome_view(outcome: Option<String>) -> Option<Seq<char>> {
    match outcome {
        Some(status) => Some(status@),
        None => None,
    }
}

/// The status of issues, kept for as long as the resolver lives.
pub struct IssueResolver {
    cache: HashMap<u64, String>,
    pending: Option<u64>,
}

impl View for IssueResolver {
    type V = ResolverView;

    closed spec fn view(&self) -> ResolverView {
        ResolverView {
            known: self.cache@.map_values(|status: String| status@),
            pending: self.pending,
        }
    }
}

impl IssueResolver {
    /// A resolver that knows nothing yet.
    pub fn new() -> (resolver: IssueResolver)
        ensures
            resolver@ == ResolverView::empty(),
    {
        let resolver = IssueResolver { cache: HashMap::new(), pending: None };
        assert(resolver@.known =~= Map::empty());
        resolver
    }

    /// Says what is to be done to learn the status of `id`. A known status
    /// is handed out, with no call to make. Else, with no lookup in flight,
    /// the lookup for `id` is marked as in flight and the caller is told to
    /// fetch. While a lookup is in flight nothing is started.
    pub fn request(&mut self, id: u64) -> (step: Step)
        ensures
            step@ == old(self)@.answer(id),
            final(self)@ == old(self)@.requested(id),
    {
        match self.cache.get(&id) {
            Some(status) => Step::Done(status.clone()),
            None => {
                if self.pending.is_some() {
                    Step::Busy
                } else {
                    self.pending = Some(id);
                    Step::Fetch(id)
                }
            },
        }
    }

    /// Takes the outcome of the lookup in flight: `Some` with the status, or
    /// `None` where the call failed, which is kept as an empty status and
    /// never asked for again. Returns the status as it is now known; `None`
    /// where no lookup was in flight.
    pub fn complete(&mut self, outcome: Option<String>) -> (status: Option<String>)
        ensures
            final(self)@ == old(self)@.completed(outcome_view(outcome)),
            outcome_view(status) == match old(self)@.pending {
                Some(id) => Some(ResolverView::status_of(outcome_view(outcome))),
                None => None,
            },
    {
        match self.pending {
            Some(id) => {
                let status = match outcome {
                    Some(status) => status,
                    None => String::new(),
                };
                let kept = status.clone();
                self.cache.insert(id, status);
                self.pending = None;
                assert(self@.known =~= old(self)@.known.insert(id, kept@));
                Some(kept)
            },
            None => None,
        }
    }
}

/// Asking twice costs one call at most. Take a resolver with nothing in
/// flight, ask for `id`, and where the answer is to fetch, complete the
/// lookup with any outcome. A second request for `id` is then answered from
/// what is known, with the status that the first request led to, and leaves
/// the resolver as it is.
pub proof fn lemma_second_request_is_answered(
    resolver: ResolverView,
    id: u64,
    outcome: Option<Seq<char>>,
)
    requires
        resolver.pending is None,
    ensures
        ({
            let first = resolver.answer(id);
            let after = if first is Fetch {
                resolver.requested(id).completed(outcome)
            } else {
                resolver.requested(id)
            };
            &&& first is Fetch ==> after.answer(id) == StepView::Done(
                ResolverView::status_of(outcome),
            )
            &&& first is Done ==> after.answer(id) == first
            &&& !(after.answer(id) is Fetch)
            &&& after.requested(id) == after
        }),
{
}

/// A failed lookup is kept and never repeated: once the lookup for `id` has
/// come back without a status, the issue is resolved with an empty status,
/// and every later request for it is answered with that.
pub proof fn lemma_failure_is_kept(resolver: ResolverView, id: u64)
    requires
        resolver.pending is None,
        resolver.answer(id) is Fetch,
    ensures
        ({
            let after = resolver.requested(id).completed(None);
            &&& after.state(id) == IssueState::Resolved(Seq::<char>::empty())
            &&& after.answer(id) == StepView::Done(Seq::<char>::empty())
        }),
{
}

/// A failed lookup touches no other issue. Once the lookup for `failed` has
/// come back without a status, every `other` issue stands where it stood, a
/// request for it is answered as it would have been before, and nothing is in
/// flight: an issue not yet seen is still fetched.
pub proof fn lemma_failure_is_isolated(resolver: ResolverView, failed: u64, other: u64)
    requires
        resolver.pending is None,
        resolver.answer(failed) is Fetch,
        failed != other,
    ensures
        ({
            let after = resolver.requested(failed).completed(None);
            &&& after.pending is None
            &&& after.state(other) == resolver.state(other)
            &&& after.answer(other) == resolver.answer(other)
            &&& resolver.state(other) is Unseen ==> after.answer(other) == StepView::Fetch(other)
        }),
{
}

/// Lookups are made one at a time: while one is in flight no request is
/// answered with the order to fetch, and an order to fetch names the issue
/// that was asked for.
pub proof fn lemma_one_lookup_at_a_time(resolver: ResolverView, id: u64)
    ensures
        resolver.pending is Some ==> !(resolver.answer(id) is Fetch),
        resolver.answer(id) is Fetch ==> resolver.answer(id) == StepView::Fetch(id)
            && resolver.state(id) is Unseen && resolver.requested(id).state(id) is Pending,
{
}

} // verus!
