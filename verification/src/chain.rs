//! The endpoints of a chain, taken in turn.

use crate::endpoint::EndpointView;
use crate::endpoint::RpcEndpoint;
use vstd::prelude::*;

verus! {

/// A chain: its endpoints, and the counter from which each request takes its first endpoint.
pub struct ChainState {
    pub endpoints: Vec<RpcEndpoint>,
    pub current_index: usize,
}

/// A chain, for specifications.
pub struct ChainView {
    pub endpoints: Seq<EndpointView>,
    pub current_index: usize,
}

/// The views of a list of endpoints.
pub open spec fn endpoint_views(endpoints: Seq<RpcEndpoint>) -> Seq<EndpointView> {
    endpoints.map_values(|e: RpcEndpoint| e@)
}

impl View for ChainState {
    type V = ChainView;

    open spec fn view(&self) -> ChainView {
        ChainView {
            endpoints: endpoint_views(self.endpoints@),
            current_index: self.current_index,
        }
    }
}

/// The endpoint that stands a number of places behind another, around a ring.
pub open spec fn place(start: int, offset: int, total: int) -> int {
    (start + offset) % total
}

/// The least offset, from the given one on, at which an endpoint is healthy at an instant.
pub open spec fn next_healthy(
    endpoints: Seq<EndpointView>,
    start: int,
    from: int,
    now: u64,
) -> Option<int>
    decreases endpoints.len() - from,
{
    if from >= endpoints.len() {
        None
    } else if endpoints[place(start, from, endpoints.len() as int)].healthy_at(now) {
        Some(from)
    } else {
        next_healthy(endpoints, start, from + 1, now)
    }
}

impl ChainView {
    /// Where a request starts that comes now.
    pub open spec fn first_place(self) -> int {
        self.current_index as int % self.endpoints.len() as int
    }

    /// The chain once a request has started: the counter goes on by one, around its range.
    pub open spec fn counted(self) -> ChainView {
        ChainView {
            current_index: if self.current_index == usize::MAX {
                0
            } else {
                (self.current_index + 1) as usize
            },
            ..self
        }
    }

    /// The chain with another endpoint in a place.
    pub open spec fn with_endpoint(self, i: int, endpoint: EndpointView) -> ChainView {
        ChainView { endpoints: self.endpoints.update(i, endpoint), ..self }
    }

    /// The chain once its endpoints were searched for a healthy one: what was found had its health
    /// asked for.
    pub open spec fn searched(self, start: int, from: int, now: u64) -> ChainView {
        match next_healthy(self.endpoints, start, from, now) {
            Some(k) => {
                let i = place(start, k, self.endpoints.len() as int);
                self.with_endpoint(i, self.endpoints[i].checked_at(now))
            },
            None => self,
        }
    }
}

/// The endpoint that stands a number of places behind another, around a ring.
pub fn ring_place(start: usize, offset: usize, total: usize) -> (r: usize)
    requires
        start < total,
        offset < total,
    ensures
        r == place(start as int, offset as int, total as int),
        r < total,
{
    let to_end: usize = total - start;
    if offset < to_end {
        proof {
            vstd::arithmetic::div_mod::lemma_small_mod((start + offset) as nat, total as nat);
        }
        start + offset
    } else {
        proof {
            let r = offset - to_end;
            vstd::arithmetic::div_mod::lemma_small_mod(r as nat, total as nat);
            vstd::arithmetic::div_mod::lemma_mod_add_multiples_vanish(r, total as int);
            assert(start + offset == total + r);
        }
        offset - to_end
    }
}

impl ChainState {
    /// Where a request starts that comes now. The next one starts one place further on.
    pub fn next_start(&mut self) -> (r: usize)
        requires
            old(self).endpoints@.len() > 0,
        ensures
            r == old(self)@.first_place(),
            r < old(self).endpoints@.len(),
            final(self)@ == old(self)@.counted(),
    {
        let start: usize = self.current_index % self.endpoints.len();
        self.current_index = self.current_index.wrapping_add(1);
        start
    }

    /// Searches for a healthy endpoint, from an offset on, and gives the offset of the first.
    pub fn find_healthy(&mut self, start: usize, from: usize, now: u64) -> (r: Option<usize>)
        requires
            start < old(self).endpoints@.len(),
        ensures
            match r {
                Some(k) => next_healthy(old(self)@.endpoints, start as int, from as int, now)
                    == Some(k as int) && from <= k < old(self).endpoints@.len(),
                None => next_healthy(old(self)@.endpoints, start as int, from as int, now) is None,
            },
            final(self)@ == old(self)@.searched(start as int, from as int, now),
    {
        let total: usize = self.endpoints.len();
        let mut offset: usize = from;
        while offset < total
            invariant
                from <= offset,
                from <= total ==> offset <= total,
                start < total == self.endpoints@.len(),
                self@ == old(self)@,
                next_healthy(self@.endpoints, start as int, from as int, now) == next_healthy(
                    self@.endpoints,
                    start as int,
                    offset as int,
                    now,
                ),
            decreases total - offset,
        {
            let i = ring_place(start, offset, total);
            let ghost before = self@;
            let healthy = self.endpoints[i].is_healthy(now);
            assert(self@.endpoints =~= before.endpoints.update(
                i as int,
                before.endpoints[i as int].checked_at(now),
            ));
            if healthy {
                return Some(offset);
            }
            assert(self@.endpoints =~= before.endpoints);
            offset += 1;
        }
        None
    }
}

/// The next healthy endpoint of a pass is the first one, in the order of the ring from the start on, that
/// is not resting; there is none exactly when all that are left of the pass are resting.
pub proof fn law_the_next_healthy_endpoint_is_the_first(
    endpoints: Seq<EndpointView>,
    start: int,
    from: int,
    now: u64,
)
    requires
        0 <= from,
    ensures
        match next_healthy(endpoints, start, from, now) {
            Some(k) => {
                &&& from <= k < endpoints.len()
                &&& !rests(endpoints[(start + k) % (endpoints.len() as int)], now)
                &&& forall|j: int|
                    from <= j < k ==> rests(
                        endpoints[#[trigger] ((start + j) % (endpoints.len() as int))],
                        now,
                    )
            },
            None => forall|j: int|
                from <= j < endpoints.len() ==> rests(
                    endpoints[#[trigger] ((start + j) % (endpoints.len() as int))],
                    now,
                ),
        },
    decreases endpoints.len() - from,
{
    if from < endpoints.len() {
        law_the_next_healthy_endpoint_is_the_first(endpoints, start, from + 1, now);
    }
}

/// Whether an endpoint's rest ends after an instant.
pub open spec fn rests(e: EndpointView, now: u64) -> bool {
    e.unavailable_until is Some && now < e.unavailable_until->0
}

/// A request starts at the endpoint that the counter points to, around the ring, and moves the counter on
/// by one. To search the ring touches no endpoint but the one that is found.
pub proof fn law_counting_and_searching(state: ChainView, start: int, from: int, now: u64)
    requires
        state.endpoints.len() > 0,
    ensures
        state.first_place() == state.current_index as int % (state.endpoints.len() as int),
        state.counted().endpoints == state.endpoints,
        state.current_index < usize::MAX ==> state.counted().current_index
            == state.current_index + 1,
        state.current_index == usize::MAX ==> state.counted().current_index == 0,
        place(start, from, state.endpoints.len() as int) == (start + from) % (
        state.endpoints.len() as int),
        state.searched(start, from, now).current_index == state.current_index,
        match next_healthy(state.endpoints, start, from, now) {
            Some(k) => {
                let i = (start + k) % (state.endpoints.len() as int);
                state.searched(start, from, now).endpoints == state.endpoints.update(
                    i,
                    state.endpoints[i].checked_at(now),
                )
            },
            None => state.searched(start, from, now) == state,
        },
{
}

/// A chain is seen as it is.
pub proof fn law_a_chain_is_seen_as_it_is(state: ChainState, i: int)
    ensures
        state@.current_index == state.current_index,
        state@.endpoints.len() == state.endpoints@.len(),
        0 <= i < state.endpoints@.len() ==> state@.endpoints[i] == state.endpoints@[i]@,
{
}

} // verus!
