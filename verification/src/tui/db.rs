//! The corpus reader's requests. Requests supersede: only the newest pending
//! query runs, and its result returns tagged with its generation.
use vstd::prelude::*;

verus! {

/// A query at a revision.
#[derive(Debug)]
pub struct SearchRequest {
    pub generation: u64,
    pub query: String,
}

/// A query at a revision, as a value.
pub struct RequestView {
    pub generation: int,
    pub query: Seq<char>,
}

impl View for SearchRequest {
    type V = RequestView;

    open spec fn view(&self) -> RequestView {
        RequestView { generation: self.generation as int, query: self.query@ }
    }
}

/// Requests as values.
pub open spec fn request_views(v: Seq<SearchRequest>) -> Seq<RequestView> {
    Seq::new(v.len(), |i: int| v[i]@)
}

/// The application's end of the corpus reader: requests to hand to it, in
/// order.
#[derive(Debug)]
pub struct DbHandle {
    pub queue: Vec<SearchRequest>,
}

impl DbHandle {
    /// Nothing asked yet.
    pub fn new() -> (h: DbHandle)
        ensures
            request_views(h.queue@) == Seq::<RequestView>::empty(),
    {
        let h = DbHandle { queue: Vec::new() };
        assert(request_views(h.queue@) =~= Seq::empty());
        h
    }

    /// Asks for a search.
    pub fn request(&mut self, generation: u64, query: String)
        ensures
            request_views(final(self).queue@) == request_views(old(self).queue@).push(
                RequestView { generation: generation as int, query: query@ },
            ),
    {
        let ghost before = request_views(self.queue@);
        let ghost added = RequestView { generation: generation as int, query: query@ };
        self.queue.push(SearchRequest { generation, query });
        assert(request_views(self.queue@) =~= before.push(added));
    }

    /// Takes the requests to hand on.
    pub fn take(&mut self) -> (requests: Vec<SearchRequest>)
        ensures
            requests@ == old(self).queue@,
            final(self).queue@.len() == 0,
    {
        let mut requests: Vec<SearchRequest> = Vec::new();
        std::mem::swap(&mut self.queue, &mut requests);
        requests
    }
}

/// The request to run out of one and the backlog behind it: the newest.
pub fn newest(first: SearchRequest, backlog: Vec<SearchRequest>) -> (r: SearchRequest)
    ensures
        r@ == if backlog@.len() == 0 {
            first@
        } else {
            backlog@.last()@
        },
{
    let mut backlog: Vec<SearchRequest> = backlog;
    match backlog.pop() {
        Some(newer) => newer,
        None => first,
    }
}

} // verus!
