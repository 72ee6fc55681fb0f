use vstd::prelude::*;

use crate::actions::{Async, AsyncView, Response, ResponseView, Sync, SyncView, labelled_views};
use crate::endpoint::{LabelledEndpointId, LabelledEndpointIdView};
use crate::error::{Error, ErrorView};
use crate::events::{TimestampedEvent, TimestampedEventView};

verus! {

/// What a client hands to its user after a direct response of the server.
#[derive(Debug)]
pub enum ClientReply {
    /// A requested write action was successful.
    WriteOk,
    /// Now receiving events from the server.
    Events,
    /// Now observing these endpoints: a reader is made for each.
    Observing(Vec<LabelledEndpointId>),
    /// Now controlling these endpoints: a writer is made for each.
    Controlling(Vec<LabelledEndpointId>),
    /// Queued.
    Queued,
}

/// The mathematical value of a [`ClientReply`].
pub enum ClientReplyView {
    /// Write ok.
    WriteOk,
    /// Events.
    Events,
    /// New readers.
    Observing(Seq<LabelledEndpointIdView>),
    /// Writers.
    Controlling(Seq<LabelledEndpointIdView>),
    /// Queued.
    Queued,
}

impl View for ClientReply {
    type V = ClientReplyView;

    open spec fn view(&self) -> ClientReplyView {
        match self {
            ClientReply::WriteOk => ClientReplyView::WriteOk,
            ClientReply::Events => ClientReplyView::Events,
            ClientReply::Observing(v) => ClientReplyView::Observing(labelled_views(v@)),
            ClientReply::Controlling(v) => ClientReplyView::Controlling(labelled_views(v@)),
            ClientReply::Queued => ClientReplyView::Queued,
        }
    }
}

/// Where a client sends what the server said.
#[derive(Debug)]
pub enum ClientRouting {
    /// To its user, as the answer to their request.
    Reply(ClientReply),
    /// To its user, as the error answering their request.
    Failed(Error),
    /// To the reader of events.
    ForwardEvent(TimestampedEvent),
    /// To the reader of the endpoint at this position among the readers.
    ForwardMessage(usize, Vec<u8>),
}

/// The mathematical value of a [`ClientRouting`].
pub enum ClientRoutingView {
    /// Reply.
    Reply(ClientReplyView),
    /// Error.
    Failed(ErrorView),
    /// Event.
    ForwardEvent(TimestampedEventView),
    /// Message to a reader.
    ForwardMessage(nat, Seq<u8>),
}

impl View for ClientRouting {
    type V = ClientRoutingView;

    open spec fn view(&self) -> ClientRoutingView {
        match self {
            ClientRouting::Reply(r) => ClientRoutingView::Reply(r@),
            ClientRouting::Failed(e) => ClientRoutingView::Failed(e@),
            ClientRouting::ForwardEvent(e) => ClientRoutingView::ForwardEvent(e@),
            ClientRouting::ForwardMessage(i, m) => ClientRoutingView::ForwardMessage(*i as nat, m@),
        }
    }
}

/// Whether a reader exists for this endpoint.
pub open spec fn has_reader(readers: Seq<LabelledEndpointIdView>, id: LabelledEndpointIdView) -> bool {
    exists|i: int| 0 <= i < readers.len() && readers[i] == id
}

/// The first reader for this endpoint.
pub open spec fn reader_index(readers: Seq<LabelledEndpointIdView>, id: LabelledEndpointIdView) -> int {
    choose|i: int| 0 <= i < readers.len() && readers[i] == id && forall|j: int| 0 <= j < i ==> readers[j] != id
}

/// Whether a response can be routed: a message must come from an endpoint
/// the client reads.
pub open spec fn routable(response: Result<ResponseView, ErrorView>, readers: Seq<LabelledEndpointIdView>) -> bool {
    match response {
        Ok(ResponseView::Async(AsyncView::Message { endpoint, message })) => has_reader(readers, endpoint),
        _ => true,
    }
}

/// Where a response goes: errors and direct responses to the user (a reader
/// made only for an endpoint not read yet), events to the event reader, and
/// messages to the first reader of their endpoint.
pub open spec fn route(response: Result<ResponseView, ErrorView>, readers: Seq<LabelledEndpointIdView>) -> ClientRoutingView {
    match response {
        Err(e) => ClientRoutingView::Failed(e),
        Ok(ResponseView::Sync(SyncView::WriteOk)) => ClientRoutingView::Reply(ClientReplyView::WriteOk),
        Ok(ResponseView::Sync(SyncView::ObservingEvents)) => ClientRoutingView::Reply(ClientReplyView::Events),
        Ok(ResponseView::Sync(SyncView::Observing(id))) => ClientRoutingView::Reply(ClientReplyView::Observing(
            if has_reader(readers, id) { Seq::empty() } else { seq![id] },
        )),
        Ok(ResponseView::Sync(SyncView::ControlQueue(_))) => ClientRoutingView::Reply(ClientReplyView::Queued),
        Ok(ResponseView::Sync(SyncView::ControlGranted(ids))) => ClientRoutingView::Reply(ClientReplyView::Controlling(ids)),
        Ok(ResponseView::Async(AsyncView::Event(e))) => ClientRoutingView::ForwardEvent(e),
        Ok(ResponseView::Async(AsyncView::Message { endpoint, message })) =>
            ClientRoutingView::ForwardMessage(reader_index(readers, endpoint) as nat, message),
    }
}

/// The view of a response result.
pub open spec fn response_result_view(r: Result<Response, Error>) -> Result<ResponseView, ErrorView> {
    match r {
        Ok(v) => Ok(v@),
        Err(e) => Err(e@),
    }
}

/// The first reader for this endpoint, if any.
pub fn find_reader(readers: &Vec<LabelledEndpointId>, id: &LabelledEndpointId) -> (p: Option<usize>)
    ensures
        match p {
            Some(i) => has_reader(labelled_views(readers@), id@) && i == reader_index(labelled_views(readers@), id@),
            None => !has_reader(labelled_views(readers@), id@),
        },
{
    let ghost r = labelled_views(readers@);
    let mut i: usize = 0;
    while i < readers.len()
        invariant
            i <= readers@.len(),
            r == labelled_views(readers@),
            forall|j: int| 0 <= j < i ==> r[j] != id@,
        decreases readers@.len() - i,
    {
        if readers[i].same_as(id) {
            proof {
                let k = reader_index(r, id@);
                assert(r[i as int] == id@);
                assert(0 <= k < r.len() && r[k] == id@ && forall|j: int| 0 <= j < k ==> r[j] != id@);
                if k < i {
                    assert(r[k] != id@);
                }
                if k > i {
                    assert(r[i as int] != id@);
                }
            }
            return Some(i);
        }
        i += 1;
    }
    None
}

/// Decide where a response from the server goes.
pub fn route_response(response: Result<Response, Error>, readers: &Vec<LabelledEndpointId>) -> (r: ClientRouting)
    requires
        routable(response_result_view(response), labelled_views(readers@)),
    ensures
        r@ == route(response_result_view(response), labelled_views(readers@)),
{
    match response {
        Err(e) => ClientRouting::Failed(e),
        Ok(Response::Sync(s)) => ClientRouting::Reply(match s {
            Sync::WriteOk => ClientReply::WriteOk,
            Sync::ObservingEvents => ClientReply::Events,
            Sync::Observing(id) => {
                let ghost v = id@;
                let mut fresh: Vec<LabelledEndpointId> = Vec::new();
                match find_reader(readers, &id) {
                    Some(_) => {
                        proof {
                            assert(labelled_views(fresh@) =~= Seq::<LabelledEndpointIdView>::empty());
                        }
                    },
                    None => {
                        fresh.push(id);
                        proof {
                            assert(labelled_views(fresh@) =~= seq![v]);
                        }
                    },
                }
                ClientReply::Observing(fresh)
            },
            Sync::ControlQueue(_) => ClientReply::Queued,
            Sync::ControlGranted(ids) => ClientReply::Controlling(ids),
        }),
        Ok(Response::Async(Async::Event(e))) => ClientRouting::ForwardEvent(e),
        Ok(Response::Async(Async::Message { endpoint, message })) => {
            match find_reader(readers, &endpoint) {
                Some(i) => ClientRouting::ForwardMessage(i, message),
                None => {
                    proof { assert(false); }
                    ClientRouting::ForwardMessage(0, message)
                },
            }
        },
    }
}

/// How a client routes what the server says: an error goes to the user as the
/// answer to their request; a write confirmation, a queue place and a grant
/// are answered as such, the grant naming exactly the endpoints granted, in
/// order; an event goes to the event reader; and an endpoint's message goes,
/// unchanged, to the first reader of that endpoint, not to the user.
pub proof fn law_client_routing(response: Result<ResponseView, ErrorView>, readers: Seq<LabelledEndpointIdView>)
    requires
        routable(response, readers),
    ensures
        response matches Err(e) ==> route(response, readers) == ClientRoutingView::Failed(e),
        response == Ok::<ResponseView, ErrorView>(ResponseView::Sync(SyncView::WriteOk))
            ==> route(response, readers) == ClientRoutingView::Reply(ClientReplyView::WriteOk),
        response matches Ok(ResponseView::Sync(SyncView::ControlQueue(_)))
            ==> route(response, readers) == ClientRoutingView::Reply(ClientReplyView::Queued),
        response matches Ok(ResponseView::Sync(SyncView::ControlGranted(ids)))
            ==> route(response, readers) == ClientRoutingView::Reply(ClientReplyView::Controlling(ids)),
        response matches Ok(ResponseView::Async(AsyncView::Event(e)))
            ==> route(response, readers) == ClientRoutingView::ForwardEvent(e),
        response matches Ok(ResponseView::Async(AsyncView::Message { endpoint, message })) ==> {
            let i = reader_index(readers, endpoint);
            &&& 0 <= i < readers.len()
            &&& readers[i] == endpoint
            &&& forall|j: int| 0 <= j < i ==> readers[j] != endpoint
            &&& route(response, readers) == ClientRoutingView::ForwardMessage(i as nat, message)
        },
{
    if let Ok(ResponseView::Async(AsyncView::Message { endpoint, message })) = response {
        let w = choose|w: int| 0 <= w < readers.len() && readers[w] == endpoint;
        lemma_first_reader(readers, endpoint, w);
    }
}

/// The first reader of an endpoint exists when some reader reads it.
proof fn lemma_first_reader(readers: Seq<LabelledEndpointIdView>, id: LabelledEndpointIdView, w: int)
    requires
        0 <= w < readers.len(),
        readers[w] == id,
    ensures
        ({
            let i = reader_index(readers, id);
            0 <= i < readers.len() && readers[i] == id && forall|j: int| 0 <= j < i ==> readers[j] != id
        }),
    decreases w,
{
    if exists|j: int| 0 <= j < w && readers[j] == id {
        let j = choose|j: int| 0 <= j < w && readers[j] == id;
        lemma_first_reader(readers, id, j);
    } else {
        assert(0 <= w < readers.len() && readers[w] == id && forall|j: int| 0 <= j < w ==> readers[j] != id);
    }
}

} // verus!
