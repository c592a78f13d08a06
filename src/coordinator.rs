//! Bookkeeping of the optimization coordinator: which request is current,
//! and which finished result may be handed to the animation.
//!
//! The coordinator is generic over the point set it carries. The caller owns
//! the queue and the worker; it asks the coordinator before it starts a solve
//! (`is_current`) and hands the finished result back (`store_result`).
use vstd::prelude::*;

verus! {

/// A request for, or the result of, one optimization.
pub struct OptimizationData<P> {
    pub request_id: u64,
    pub points: P,
}

/// The state shared by the requester and the worker.
pub struct OptimizationRunner<P> {
    latest_request_id: u64,
    result: Option<OptimizationData<P>>,
}

/// The abstract state: the latest issued id and the stored result.
pub struct RunnerView<P> {
    pub latest: nat,
    pub result: Option<(nat, P)>,
}

/// The state after a new request has been issued.
pub open spec fn after_request<P>(v: RunnerView<P>) -> RunnerView<P> {
    RunnerView { latest: v.latest + 1, result: v.result }
}

/// The state after the worker stored a finished result, whatever was there before.
pub open spec fn after_store<P>(v: RunnerView<P>, id: nat, points: P) -> RunnerView<P> {
    RunnerView { latest: v.latest, result: Some((id, points)) }
}

/// What a poll returns: the stored points, only if they belong to the latest request.
pub open spec fn poll_output<P>(v: RunnerView<P>) -> Option<P> {
    match v.result {
        Some((id, points)) => if id == v.latest {
            Some(points)
        } else {
            None
        },
        None => None,
    }
}

/// The state after a poll: the stored result is consumed or dropped.
pub open spec fn after_poll<P>(v: RunnerView<P>) -> RunnerView<P> {
    RunnerView { latest: v.latest, result: None }
}

/// Whether a request with the given id should still be solved.
pub open spec fn is_current_spec<P>(v: RunnerView<P>, id: nat) -> bool {
    id == v.latest
}

impl<P> OptimizationRunner<P> {
    pub closed spec fn view(&self) -> RunnerView<P> {
        RunnerView {
            latest: self.latest_request_id as nat,
            result: match self.result {
                Some(d) => Some((d.request_id as nat, d.points)),
                None => None,
            },
        }
    }

    /// A coordinator with no request issued and no result stored.
    pub fn new() -> (r: Self)
        ensures
            r.view() == (RunnerView::<P> { latest: 0, result: None }),
    {
        OptimizationRunner { latest_request_id: 0, result: None }
    }

    /// Issues a new request for `points`: the latest id goes up by one, and the
    /// request to enqueue for the worker carries that id.
    pub fn request_optimization(&mut self, points: P) -> (r: OptimizationData<P>)
        requires
            old(self).view().latest < u64::MAX,
        ensures
            final(self).view() == after_request(old(self).view()),
            r.request_id == final(self).view().latest,
            r.points == points,
    {
        self.latest_request_id = self.latest_request_id + 1;
        OptimizationData { request_id: self.latest_request_id, points }
    }

    /// The id of the latest issued request.
    pub fn latest_request_id(&self) -> (r: u64)
        ensures
            r == self.view().latest,
    {
        self.latest_request_id
    }

    /// Whether the request with this id is still the latest one; a request that
    /// is not is skipped without solving.
    pub fn is_current(&self, request_id: u64) -> (r: bool)
        ensures
            r == is_current_spec(self.view(), request_id as nat),
    {
        request_id == self.latest_request_id
    }

    /// Stores a finished result, replacing whatever was stored before. The
    /// result belongs to a request that was issued.
    pub fn store_result(&mut self, data: OptimizationData<P>)
        requires
            data.request_id <= old(self).view().latest,
        ensures
            final(self).view() == after_store(old(self).view(), data.request_id as nat, data.points),
    {
        self.result = Some(data);
    }

    /// Takes the stored result if it belongs to the latest request; a result of
    /// an older request is never returned and is dropped.
    pub fn get_latest_result(&mut self) -> (r: Option<P>)
        ensures
            r == poll_output(old(self).view()),
            final(self).view() == after_poll(old(self).view()),
    {
        let stored = self.result.take();
        match stored {
            Some(data) => {
                if data.request_id == self.latest_request_id {
                    Some(data.points)
                } else {
                    None
                }
            },
            None => None,
        }
    }
}

/// A request that was followed by a newer one before the worker took it is
/// never solved: issuing ids one after the other leaves only the last current.
pub proof fn lemma_superseded_before_start<P>(v: RunnerView<P>)
    ensures
        !is_current_spec(after_request(after_request(v)), v.latest + 1),
        is_current_spec(after_request(after_request(v)), v.latest + 2),
{
}

/// A solve that was current when it started but finished after a newer request
/// was issued writes its result, yet a poll never returns those points, and the
/// stored result is gone after the poll.
pub proof fn lemma_superseded_after_finish<P>(v: RunnerView<P>, points: P)
    ensures
        ({
            let started = after_request(v);
            let finished = after_store(after_request(started), started.latest, points);
            poll_output(finished) == None::<P> && after_poll(finished).result == None::<(nat, P)>
        }),
{
}

/// Every poll returns only points of the latest issued request.
pub proof fn lemma_poll_only_latest<P>(v: RunnerView<P>)
    ensures
        poll_output(v) is Some ==> v.result is Some && v.result.unwrap().0 == v.latest
            && poll_output(v) == Some(v.result.unwrap().1),
{
}

} // verus!
