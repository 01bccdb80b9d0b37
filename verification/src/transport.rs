//! Caller-driven pull replication. Transport never runs on the commit path.
use crate::error::WalError;
use crate::ingest;
use crate::ingest::{IngestError, IngestView, JournalIo, JournaledFollower};
use crate::ingest_laws;
use crate::ingest_laws::Ingestion;
use crate::plan::DecodedRun;
use crate::range;
use crate::range::{WalFrameRange, WalRangeLimits};
use crate::segment;
use crate::segment::SegmentImage;
use crate::wal::Wal;
use vstd::prelude::*;

verus! {

/// Detached source response. Adapters must bind `history` to the configured
/// authoritative source; this identifier is not authentication or a session.
#[derive(Clone, Debug, PartialEq, Eq)]
pub struct FetchResponse {
    pub history: [u8; 16],
    pub range: WalFrameRange,
}

#[derive(Clone, Debug, PartialEq, Eq)]
pub enum TransportError {
    Lost,
    Down,
    RejoinRequired,
    Source(WalError),
}

impl TransportError {
    /// Whether the same applied position may be asked for again.
    pub open spec fn retryable(self) -> bool {
        self is Lost || self is Down
    }
}

/// A client bound to one configured source. Fetch reports an exclusive applied
/// prefix and asks for the next range; it must not invent follower progress.
/// Implementations release source locks before delaying or sending a response.
/// Network adapters must bound incoming allocations before constructing it.
pub trait Fetch {
    /// One call asking for `(from_seq, limits)` took the client from `self` to
    /// `after` and was answered with `r`. A client that does not say more may
    /// answer anything.
    open spec fn answered(
        &self,
        from_seq: u64,
        limits: WalRangeLimits,
        after: &Self,
        r: Result<FetchResponse, TransportError>,
    ) -> bool {
        true
    }

    fn fetch(&mut self, from_seq: u64, limits: WalRangeLimits) -> (r: Result<
        FetchResponse,
        TransportError,
    >)
        ensures
            old(self).answered(from_seq, limits, final(self), r),
    ;
}

/// Local adapter over the same durable reader a source server would call.
pub struct LoopbackFetch<'a> {
    source: &'a Wal,
    images: &'a Vec<SegmentImage>,
    history: [u8; 16],
}

impl<'a> LoopbackFetch<'a> {
    #[verifier::type_invariant]
    spec fn wf(self) -> bool {
        segment::images_wf(self.images@)
    }

    /// What a request gives.
    pub closed spec fn served(&self, from_seq: u64, limits: WalRangeLimits) -> Result<
        range::RangeView,
        WalError,
    > {
        range::range_read(self.source@, from_seq, limits, self.images@)
    }

    pub closed spec fn spec_history(&self) -> Seq<u8> {
        self.history@
    }

    /// `images` are the source's segment files. `history` must remain stable
    /// for this source history, including restart; replacing the log requires
    /// a new identity and rejoin.
    pub fn new(source: &'a Wal, images: &'a Vec<SegmentImage>, history: [u8; 16]) -> (fetch:
        LoopbackFetch<'a>)
        requires
            segment::images_wf(images@),
        ensures
            fetch.spec_history() == history@,
            forall|from_seq: u64, limits: WalRangeLimits|
                #[trigger] fetch.served(from_seq, limits) == range::range_read(
                    source@,
                    from_seq,
                    limits,
                    images@,
                ),
    {
        LoopbackFetch { source, images, history }
    }
}

impl<'a> Fetch for LoopbackFetch<'a> {
    /// The source's own reply, under its history. Nothing changes.
    open spec fn answered(
        &self,
        from_seq: u64,
        limits: WalRangeLimits,
        after: &Self,
        r: Result<FetchResponse, TransportError>,
    ) -> bool {
        &&& *after == *self
        &&& match self.served(from_seq, limits) {
            Ok(range) => r matches Ok(response) && response.range@ == range
                && response.history@ == self.spec_history(),
            Err(e) => r == Err::<FetchResponse, TransportError>(TransportError::Source(e)),
        }
    }

    fn fetch(&mut self, from_seq: u64, limits: WalRangeLimits) -> (r: Result<
        FetchResponse,
        TransportError,
    >) {
        proof {
            use_type_invariant(&*self);
        }
        match self.source.records_from(from_seq, limits, self.images) {
            Ok(range) => Ok(FetchResponse { history: self.history, range }),
            Err(e) => Err(TransportError::Source(e)),
        }
    }
}

#[derive(Clone, Copy, Debug, PartialEq, Eq)]
pub struct FetchRequest {
    pub from_seq: u64,
    pub limits: WalRangeLimits,
}

/// Request transcript for tests and diagnostics, including failed requests.
/// Call `take_requests` to drain it during long-running use.
pub struct RecordingFetch<F> {
    inner: F,
    requests: Vec<FetchRequest>,
}

impl<F> RecordingFetch<F> {
    /// The requests recorded and not drained, in order.
    pub closed spec fn log(&self) -> Seq<FetchRequest> {
        self.requests@
    }

    pub closed spec fn inner(&self) -> F {
        self.inner
    }

    pub fn new(inner: F) -> (fetch: RecordingFetch<F>)
        ensures
            fetch.inner() == inner,
            fetch.log() == Seq::<FetchRequest>::empty(),
    {
        RecordingFetch { inner, requests: Vec::new() }
    }

    pub fn requests(&self) -> (requests: &[FetchRequest])
        ensures
            requests@ == self.log(),
    {
        self.requests.as_slice()
    }

    pub fn take_requests(&mut self) -> (requests: Vec<FetchRequest>)
        ensures
            requests@ == old(self).log(),
            final(self).log() == Seq::<FetchRequest>::empty(),
            final(self).inner() == old(self).inner(),
    {
        let mut requests: Vec<FetchRequest> = Vec::new();
        std::mem::swap(&mut requests, &mut self.requests);
        requests
    }
}

impl<F: Fetch> Fetch for RecordingFetch<F> {
    /// The request is recorded, and the inner client's answer handed on.
    open spec fn answered(
        &self,
        from_seq: u64,
        limits: WalRangeLimits,
        after: &Self,
        r: Result<FetchResponse, TransportError>,
    ) -> bool {
        &&& after.log() == self.log().push(FetchRequest { from_seq, limits })
        &&& self.inner().answered(from_seq, limits, &after.inner(), r)
    }

    fn fetch(&mut self, from_seq: u64, limits: WalRangeLimits) -> (r: Result<
        FetchResponse,
        TransportError,
    >) {
        self.requests.push(FetchRequest { from_seq, limits });
        self.inner.fetch(from_seq, limits)
    }
}

#[derive(Clone, Debug, PartialEq, Eq)]
pub enum PumpError {
    Stopped,
    Transport(TransportError),
    Ingest(IngestError),
}

/// How the host decoded, journaled and applied a response; see
/// `JournaledFollower::ingest_frames`.
pub struct RangeWork {
    pub decoded: Vec<DecodedRun>,
    pub payload: Result<Vec<u8>, WalError>,
    pub io: JournalIo,
    pub outcomes: Vec<Result<(), WalError>>,
}

/// The follower's side of `work` is done as far as `response` gets.
pub open spec fn work_done(follower: IngestView, response: FetchResponse, work: RangeWork) -> bool {
    &&& follower.decoded_for(response.range, work.decoded@)
    &&& IngestView::journal_error(ingest::payload_view(work.payload), work.io) is None
        ==> follower.outcomes_for(
        response.history@,
        response.range,
        work.decoded@,
        work.outcomes@,
    )
}

/// A pump as mathematical values.
#[verifier::ext_equal]
pub struct PumpView {
    pub follower: IngestView,
    pub stopped: bool,
}

impl PumpView {
    /// The request that reports the applied prefix, unless the pump stopped.
    pub open spec fn asked(self) -> Result<FetchRequest, PumpError> {
        if self.stopped || self.follower.follower.poisoned {
            Err(PumpError::Stopped)
        } else {
            Ok(
                FetchRequest {
                    from_seq: self.follower.follower.applied,
                    limits: self.follower.limits,
                },
            )
        }
    }

    /// What one round comes to, when the request was answered by `fetched`.
    pub open spec fn pumped(
        self,
        fetched: Result<FetchResponse, TransportError>,
        work: RangeWork,
    ) -> (PumpView, Result<u64, PumpError>) {
        if self.stopped || self.follower.follower.poisoned {
            (self, Err(PumpError::Stopped))
        } else {
            match fetched {
                Err(e) => (
                    PumpView { stopped: !e.retryable(), ..self },
                    Err(PumpError::Transport(e)),
                ),
                Ok(response) => {
                    let (follower, r) = self.follower.ingested(
                        response.history@,
                        response.range,
                        work.decoded@,
                        ingest::payload_view(work.payload),
                        work.io,
                        work.outcomes@,
                    );
                    match r {
                        Err(e) => (
                            PumpView { follower, stopped: true },
                            Err(PumpError::Ingest(e)),
                        ),
                        Ok(applied) => (PumpView { follower, ..self }, Ok(applied)),
                    }
                },
            }
        }
    }
}

/// Owns one journaled follower and one fetch client. `&mut self` serializes
/// requests; there is no worker thread, timer, or independently advancing
/// cursor. The caller handles backoff and reconnect for `Lost` and `Down`.
pub struct ReplicationPump<F> {
    follower: JournaledFollower,
    fetch: F,
    stopped: bool,
}

impl<F> View for ReplicationPump<F> {
    type V = PumpView;

    closed spec fn view(&self) -> PumpView {
        PumpView { follower: self.follower.state(), stopped: self.stopped }
    }
}

impl<F> ReplicationPump<F> {
    pub closed spec fn client(&self) -> F {
        self.fetch
    }

    /// Open the follower from its journal before construction when restarting.
    pub fn new(follower: JournaledFollower, fetch: F) -> (pump: ReplicationPump<F>)
        ensures
            pump@ == (PumpView { follower: follower.state(), stopped: false }),
            pump.client() == fetch,
    {
        ReplicationPump { follower, fetch, stopped: false }
    }

    /// The request of the next round: the applied prefix and the limits.
    pub fn request(&self) -> (r: Result<FetchRequest, PumpError>)
        ensures
            r == self@.asked(),
    {
        if self.stopped || self.follower.is_poisoned() {
            return Err(PumpError::Stopped);
        }
        Ok(
            FetchRequest {
                from_seq: self.follower.applied_seq(),
                limits: self.follower.range_limits(),
            },
        )
    }

    /// Completes one round: `fetched` answers the request, and `work` is what
    /// the host did with the response. Returns the exclusive applied prefix; an
    /// unchanged result does not prove catch-up (the response may be a
    /// duplicate). The next call reports it, also when that next response
    /// contains only control context. Terminal errors stop all further rounds,
    /// also after a partial apply.
    pub fn pump_once(
        &mut self,
        fetched: Result<FetchResponse, TransportError>,
        work: RangeWork,
    ) -> (r: Result<u64, PumpError>)
        requires
            old(self)@.asked() is Ok ==> (fetched matches Ok(response) ==> work_done(
                old(self)@.follower,
                response,
                work,
            )),
        ensures
            (final(self)@, r) == old(self)@.pumped(fetched, work),
            final(self).client() == old(self).client(),
    {
        if self.stopped || self.follower.is_poisoned() {
            return Err(PumpError::Stopped);
        }
        let response = match fetched {
            Ok(response) => response,
            Err(error) => {
                self.stopped =
                match error {
                    TransportError::Lost => false,
                    TransportError::Down => false,
                    _ => true,
                };
                return Err(PumpError::Transport(error));
            },
        };
        match self.follower.ingest_frames(
            &response.history,
            &response.range,
            &work.decoded,
            work.payload,
            work.io,
            &work.outcomes,
        ) {
            Ok(applied) => Ok(applied),
            Err(error) => {
                self.stopped = true;
                Err(PumpError::Ingest(error))
            },
        }
    }

    pub fn follower(&self) -> (follower: &JournaledFollower)
        ensures
            follower.state() == self@.follower,
    {
        &self.follower
    }

    pub fn fetch(&self) -> (fetch: &F)
        ensures
            *fetch == self.client(),
    {
        &self.fetch
    }

    /// Recovers ownership for reconnect or shutdown. A poisoned follower still
    /// requires recovery; putting it into another pump cannot resume requests.
    pub fn into_parts(self) -> (parts: (JournaledFollower, F))
        ensures
            parts.0.state() == self@.follower,
            parts.1 == self.client(),
    {
        (self.follower, self.fetch)
    }
}

impl<F: Fetch> ReplicationPump<F> {
    /// Sends the request of the next round through the client: the applied
    /// prefix, under the follower's limits. Nothing is sent once the pump
    /// stopped.
    pub fn fetch_next(&mut self) -> (r: Result<Result<FetchResponse, TransportError>, PumpError>)
        ensures
            final(self)@ == old(self)@,
            match old(self)@.asked() {
                Ok(asked) => r matches Ok(fetched) && old(self).client().answered(
                    asked.from_seq,
                    asked.limits,
                    &final(self).client(),
                    fetched,
                ),
                Err(e) => r == Err::<Result<FetchResponse, TransportError>, PumpError>(e)
                    && final(self).client() == old(self).client(),
            },
    {
        match self.request() {
            Err(e) => Err(e),
            Ok(request) => Ok(self.fetch.fetch(request.from_seq, request.limits)),
        }
    }
}

/// A stopped pump stays as it is and sends nothing, whatever it is handed.
pub proof fn law_stopped_pump_stays_stopped(
    pump: PumpView,
    fetched: Result<FetchResponse, TransportError>,
    work: RangeWork,
)
    requires
        pump.asked() is Err,
    ensures
        pump.pumped(fetched, work) == (pump, Err::<u64, PumpError>(PumpError::Stopped)),
{
}

/// After a lost request or a broken link the next round asks for the same
/// position again.
pub proof fn law_retry_asks_again(
    pump: PumpView,
    error: TransportError,
    work: RangeWork,
)
    requires
        pump.asked() is Ok,
        error.retryable(),
    ensures
        pump.pumped(Err(error), work).0.asked() == pump.asked(),
{
}

/// A round reports the follower's applied prefix, never the end of a response
/// that was not applied; the next request starts there.
pub proof fn law_round_reports_applied_prefix(
    pump: PumpView,
    fetched: Result<FetchResponse, TransportError>,
    work: RangeWork,
)
    ensures
        ({
            let (after, r) = pump.pumped(fetched, work);
            r matches Ok(applied) ==> {
                &&& applied == after.follower.follower.applied
                &&& after.asked() is Ok ==> after.asked()->Ok_0.from_seq == applied
            }
        }),
{
}

/// A round that succeeds never takes progress back: the prefix it returns is
/// the follower's, and no shorter than the one that was asked for.
pub proof fn law_round_goes_forward(
    pump: PumpView,
    fetched: Result<FetchResponse, TransportError>,
    work: RangeWork,
)
    requires
        fetched matches Ok(response) ==> work_done(pump.follower, response, work),
        pump.pumped(fetched, work).1 is Ok,
    ensures
        ({
            let (after, r) = pump.pumped(fetched, work);
            &&& r->Ok_0 == after.follower.follower.applied
            &&& r->Ok_0 >= pump.asked()->Ok_0.from_seq
            &&& after.asked() is Ok
        }),
{
    let response = fetched->Ok_0;
    let f = pump.follower;
    let one = Ingestion {
        history: response.history@,
        range: response.range,
        decoded: work.decoded@,
        payload: match ingest::payload_view(work.payload) {
            Ok(payload) => payload,
            Err(_) => Seq::empty(),
        },
        io: work.io,
        outcomes: work.outcomes@,
    };
    let prepared = f.prepared(one.history, one.range, one.decoded);
    if prepared matches Ok(Some(_)) {
        assert(IngestView::journal_error(ingest::payload_view(work.payload), work.io) is None);
    }
    ingest_laws::law_ingestion_reaches_range_end(f, one);
}

/// A pump asks for what follows its follower's applied prefix, within the
/// follower's limits, as long as neither has stopped.
pub proof fn law_pump_asks_for_what_follows(pump: PumpView)
    ensures
        pump.asked() is Ok <==> !pump.stopped && !pump.follower.follower.poisoned,
        pump.asked() matches Ok(asked) ==> asked.from_seq == pump.follower.follower.applied
            && asked.limits == pump.follower.limits,
        pump.asked() matches Err(e) ==> e is Stopped,
{
}

/// A failure of the link leaves the follower alone, and stops the pump unless
/// the request may be sent again. A reply that cannot be ingested stops it for
/// good.
pub proof fn law_terminal_failure_stops_the_pump(
    pump: PumpView,
    fetched: Result<FetchResponse, TransportError>,
    work: RangeWork,
)
    requires
        pump.asked() is Ok,
    ensures
        ({
            let (after, r) = pump.pumped(fetched, work);
            &&& fetched matches Err(e) ==> {
                &&& r == Err::<u64, PumpError>(PumpError::Transport(e))
                &&& after.follower == pump.follower
                &&& after.stopped <==> !(e is Lost || e is Down)
            }
            &&& fetched is Ok && r is Err ==> after.stopped && r->Err_0 is Ingest
            &&& r is Ok ==> fetched is Ok && !after.stopped
        }),
{
}

/// A round hands the reply to the follower as it came.
pub proof fn law_round_ingests_the_reply(
    pump: PumpView,
    response: FetchResponse,
    work: RangeWork,
)
    requires
        pump.asked() is Ok,
    ensures
        ({
            let (after, r) = pump.pumped(Ok(response), work);
            let (follower, outcome) = pump.follower.ingested(
                response.history@,
                response.range,
                work.decoded@,
                ingest::payload_view(work.payload),
                work.io,
                work.outcomes@,
            );
            &&& after.follower == follower
            &&& match outcome {
                Ok(applied) => r == Ok::<u64, PumpError>(applied),
                Err(e) => r == Err::<u64, PumpError>(PumpError::Ingest(e)),
            }
        }),
{
}

/// Every request that goes through a recording client is in its transcript, in
/// order and whatever the reply, and reaches the client behind it as it is.
pub proof fn law_every_request_is_recorded<F: Fetch>(
    client: RecordingFetch<F>,
    from_seq: u64,
    limits: WalRangeLimits,
    after: RecordingFetch<F>,
    r: Result<FetchResponse, TransportError>,
)
    requires
        client.answered(from_seq, limits, &after, r),
    ensures
        after.log().len() == client.log().len() + 1,
        after.log().last().from_seq == from_seq,
        after.log().last().limits == limits,
        forall|i: int|
            0 <= i < client.log().len() ==> #[trigger] after.log()[i] == client.log()[i],
        client.inner().answered(from_seq, limits, &after.inner(), r),
{
}

/// A local client replies with what its source serves, under its own history,
/// and hands the source's refusal on.
pub proof fn law_loopback_replies_from_its_source<'a>(
    client: LoopbackFetch<'a>,
    from_seq: u64,
    limits: WalRangeLimits,
    after: LoopbackFetch<'a>,
    r: Result<FetchResponse, TransportError>,
)
    requires
        client.answered(from_seq, limits, &after, r),
    ensures
        after == client,
        r is Ok <==> client.served(from_seq, limits) is Ok,
        r matches Ok(response) ==> client.served(from_seq, limits) == Ok::<
            range::RangeView,
            WalError,
        >(response.range@) && response.history@ == client.spec_history(),
        r matches Err(e) ==> (e matches TransportError::Source(cause) && client.served(
            from_seq,
            limits,
        ) == Err::<range::RangeView, WalError>(cause)),
{
}

} // verus!
