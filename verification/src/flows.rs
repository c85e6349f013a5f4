//! Flows: the datagrams of a capture grouped by their endpoints. A flow's
//! number is its place in the order in which the flows first appeared.

use crate::corpus::{Direction, Flow, UdpDatagram};
use crate::ranking::{is_ranking, rank_top};
use std::sync::Arc;
use vstd::prelude::*;

verus! {

/// The endpoints and protocol that name a flow.
pub struct FlowKey {
    pub src_ip: Seq<char>,
    pub dst_ip: Seq<char>,
    pub src_port: u16,
    pub dst_port: u16,
    pub protocol: u8,
}

impl Flow {
    /// The endpoints and protocol of the flow.
    pub open spec fn key(&self) -> FlowKey {
        FlowKey {
            src_ip: self.src_ip@,
            dst_ip: self.dst_ip@,
            src_port: self.src_port,
            dst_port: self.dst_port,
            protocol: self.protocol,
        }
    }

    /// The two flows have the same endpoints, protocol and datagrams.
    pub open spec fn same_as(&self, other: &Flow) -> bool {
        self.key() == other.key() && self.datagrams@ == other.datagrams@
    }
}

/// The place of the first flow named `key`, if there is one.
pub open spec fn key_place(flows: Seq<Flow>, key: FlowKey) -> Option<int>
    decreases flows.len(),
{
    if flows.len() == 0 {
        None
    } else {
        match key_place(flows.drop_last(), key) {
            Some(i) => Some(i),
            None => if flows.last().key() == key {
                Some(flows.len() - 1)
            } else {
                None
            },
        }
    }
}

/// The direction given to the datagrams of flow `flow_id`: client to
/// server for the even numbers, server to client for the odd ones.
pub open spec fn direction_of(flow_id: int) -> Direction {
    if flow_id % 2 == 0 {
        Direction::ClientToServer
    } else {
        Direction::ServerToClient
    }
}

/// The datagram recorded for flow `flow_id`.
pub open spec fn recorded(flow_id: int, timestamp_micros: u64, payload: Arc<[u8]>) -> UdpDatagram {
    UdpDatagram {
        timestamp_micros,
        flow_id: flow_id as usize,
        direction: direction_of(flow_id),
        payload,
    }
}

/// The cost by which flows rank: the fewer datagrams, the higher.
pub open spec fn size_cost(flow: Flow) -> u64 {
    (u64::MAX - flow.datagrams@.len()) as u64
}

/// The costs by which the flows rank.
pub open spec fn size_costs(flows: Seq<Flow>) -> Seq<u64> {
    Seq::new(flows.len(), |i: int| size_cost(flows[i]))
}

/// A flow found among the first flows is the first with its name among
/// all.
pub proof fn lemma_key_place_extends(flows: Seq<Flow>, key: FlowKey, n: int)
    requires
        0 <= n <= flows.len(),
        key_place(flows.take(n), key) is Some,
    ensures
        key_place(flows, key) == key_place(flows.take(n), key),
    decreases flows.len() - n,
{
    if n < flows.len() {
        assert(flows.take(n + 1).drop_last() =~= flows.take(n));
        lemma_key_place_extends(flows, key, n + 1);
    } else {
        assert(flows.take(n) =~= flows);
    }
}

/// The flow that is found is named `key`, and no flow before it is.
pub proof fn lemma_key_place(flows: Seq<Flow>, key: FlowKey)
    ensures
        match key_place(flows, key) {
            Some(i) => 0 <= i < flows.len() && flows[i].key() == key && forall|j: int|
                0 <= j < i ==> (#[trigger] flows[j]).key() != key,
            None => forall|j: int| 0 <= j < flows.len() ==> (#[trigger] flows[j]).key() != key,
        },
    decreases flows.len(),
{
    if flows.len() > 0 {
        lemma_key_place(flows.drop_last(), key);
        match key_place(flows.drop_last(), key) {
            Some(i) => {
                assert(flows.drop_last()[i] == flows[i]);
                assert forall|j: int| 0 <= j < i implies (#[trigger] flows[j]).key() != key by {
                    assert(flows.drop_last()[j] == flows[j]);
                }
            },
            None => {
                assert forall|j: int| 0 <= j < flows.len() - 1 implies (#[trigger] flows[j]).key()
                    != key by {
                    assert(flows.drop_last()[j] == flows[j]);
                }
            },
        }
    }
}

/// The flows of a capture in the order of their first appearance.
#[derive(Debug)]
pub struct FlowTable {
    pub flows: Vec<Flow>,
}

impl FlowTable {
    /// A table without flows.
    pub fn new() -> (table: Self)
        ensures
            table.flows@.len() == 0,
    {
        FlowTable { flows: Vec::new() }
    }

    /// The number of the flow with the given endpoints and protocol.
    pub fn find(
        &self,
        src_ip: &String,
        dst_ip: &String,
        src_port: u16,
        dst_port: u16,
        protocol: u8,
    ) -> (place: Option<usize>)
        ensures
            match place {
                Some(i) => key_place(
                    self.flows@,
                    FlowKey { src_ip: src_ip@, dst_ip: dst_ip@, src_port, dst_port, protocol },
                ) == Some(i as int),
                None => key_place(
                    self.flows@,
                    FlowKey { src_ip: src_ip@, dst_ip: dst_ip@, src_port, dst_port, protocol },
                ) is None,
            },
    {
        let ghost key = FlowKey { src_ip: src_ip@, dst_ip: dst_ip@, src_port, dst_port, protocol };
        let mut i: usize = 0;
        assert(self.flows@.take(0) =~= Seq::empty());
        while i < self.flows.len()
            invariant
                i <= self.flows@.len(),
                key == (FlowKey {
                    src_ip: src_ip@,
                    dst_ip: dst_ip@,
                    src_port,
                    dst_port,
                    protocol,
                }),
                key_place(self.flows@.take(i as int), key) is None,
            decreases self.flows@.len() - i,
        {
            let flow = &self.flows[i];
            proof {
                assert(self.flows@.take(i + 1).drop_last() =~= self.flows@.take(i as int));
            }
            if flow.src_port == src_port && flow.dst_port == dst_port && flow.protocol == protocol
                && flow.src_ip == *src_ip && flow.dst_ip == *dst_ip {
                proof {
                    assert(flow.key() == key);
                    lemma_key_place_extends(self.flows@, key, i + 1);
                }
                return Some(i);
            }
            assert(flow.key() != key);
            i += 1;
        }
        assert(self.flows@.take(i as int) =~= self.flows@);
        None
    }

    /// Records a datagram: it joins the flow with its endpoints and
    /// protocol, or opens a new flow behind those already there. Returns
    /// the flow's number.
    pub fn record(
        &mut self,
        src_ip: String,
        dst_ip: String,
        src_port: u16,
        dst_port: u16,
        protocol: u8,
        timestamp_micros: u64,
        payload: Arc<[u8]>,
    ) -> (flow_id: usize)
        ensures
            match key_place(
                old(self).flows@,
                FlowKey { src_ip: src_ip@, dst_ip: dst_ip@, src_port, dst_port, protocol },
            ) {
                Some(i) => {
                    &&& flow_id == i
                    &&& final(self).flows@.len() == old(self).flows@.len()
                    &&& final(self).flows@[i].key() == old(self).flows@[i].key()
                    &&& final(self).flows@[i].datagrams@ == old(self).flows@[i].datagrams@.push(
                        recorded(i, timestamp_micros, payload),
                    )
                    &&& forall|j: int|
                        0 <= j < old(self).flows@.len() && j != i ==> #[trigger] final(self).flows@[j]
                            == old(self).flows@[j]
                },
                None => {
                    &&& flow_id == old(self).flows@.len()
                    &&& final(self).flows@.len() == old(self).flows@.len() + 1
                    &&& final(self).flows@.last().key() == (FlowKey {
                        src_ip: src_ip@,
                        dst_ip: dst_ip@,
                        src_port,
                        dst_port,
                        protocol,
                    })
                    &&& final(self).flows@.last().datagrams@ == seq![
                        recorded(flow_id as int, timestamp_micros, payload),
                    ]
                    &&& forall|j: int|
                        0 <= j < old(self).flows@.len() ==> #[trigger] final(self).flows@[j] == old(
                            self,
                        ).flows@[j]
                },
            },
    {
        let ghost key = FlowKey { src_ip: src_ip@, dst_ip: dst_ip@, src_port, dst_port, protocol };
        let ghost before = self.flows@;
        proof {
            lemma_key_place(before, key);
        }
        match self.find(&src_ip, &dst_ip, src_port, dst_port, protocol) {
            Some(i) => {
                let direction = if i % 2 == 0 {
                    Direction::ClientToServer
                } else {
                    Direction::ServerToClient
                };
                let mut flow = self.flows.remove(i);
                flow.datagrams.push(UdpDatagram { timestamp_micros, flow_id: i, direction, payload });
                self.flows.insert(i, flow);
                assert forall|j: int| 0 <= j < before.len() && j != i implies #[trigger] self.flows@[j]
                    == before[j] by {}
                i
            },
            None => {
                let flow_id = self.flows.len();
                let direction = if flow_id % 2 == 0 {
                    Direction::ClientToServer
                } else {
                    Direction::ServerToClient
                };
                let mut datagrams: Vec<UdpDatagram> = Vec::new();
                datagrams.push(UdpDatagram { timestamp_micros, flow_id, direction, payload });
                assert(datagrams@ =~= seq![recorded(flow_id as int, timestamp_micros, payload)]);
                self.flows.push(Flow { src_ip, dst_ip, src_port, dst_port, protocol, datagrams });
                flow_id
            },
        }
    }

    /// The flows with the most datagrams first, the earlier first among
    /// flows of equal size.
    pub fn by_size(&self) -> (sorted: Vec<Flow>)
        ensures
            sorted@.len() == self.flows@.len(),
            exists|ranking: Seq<usize>|
                {
                    &&& #[trigger] is_ranking(
                        size_costs(self.flows@),
                        self.flows@.len() as int,
                        self.flows@.len() as int,
                        ranking,
                    )
                    &&& forall|j: int|
                        0 <= j < sorted@.len() ==> (#[trigger] sorted@[j]).same_as(
                            &self.flows@[ranking[j] as int],
                        )
                },
    {
        let n = self.flows.len();
        let mut costs: Vec<u64> = Vec::new();
        let mut i: usize = 0;
        while i < n
            invariant
                i <= n,
                n == self.flows@.len(),
                costs@ == size_costs(self.flows@.take(i as int)),
            decreases n - i,
        {
            costs.push(u64::MAX - self.flows[i].datagrams.len() as u64);
            assert(costs@ =~= size_costs(self.flows@.take(i + 1)));
            i += 1;
        }
        assert(self.flows@.take(n as int) =~= self.flows@);
        let ranking = rank_top(costs.as_slice(), n);
        let mut sorted: Vec<Flow> = Vec::new();
        let mut j: usize = 0;
        while j < n
            invariant
                j <= n,
                n == self.flows@.len(),
                ranking@.len() == n,
                is_ranking(size_costs(self.flows@), n as int, n as int, ranking@),
                sorted@.len() == j,
                forall|t: int|
                    0 <= t < j ==> (#[trigger] sorted@[t]).same_as(&self.flows@[ranking@[t] as int]),
            decreases n - j,
        {
            sorted.push(self.flows[ranking[j]].clone());
            j += 1;
        }
        sorted
    }
}

impl Default for FlowTable {
    fn default() -> (table: Self)
        ensures
            table.flows@.len() == 0,
    {
        FlowTable::new()
    }
}

/// The UDP payload of an Ethernet frame whose IP header has
/// `ip_header_len` bytes: what follows the 14 bytes of the Ethernet header,
/// the IP header and the 8 bytes of the UDP header; nothing where nothing
/// follows.
pub fn udp_payload(frame: &[u8], ip_header_len: usize) -> (payload: Option<&[u8]>)
    ensures
        match payload {
            Some(bytes) => 22 + ip_header_len < frame@.len() && bytes@ == frame@.subrange(
                22 + ip_header_len,
                frame@.len() as int,
            ),
            None => 22 + ip_header_len >= frame@.len(),
        },
{
    if frame.len() <= 22 || ip_header_len >= frame.len() - 22 {
        None
    } else {
        Some(vstd::slice::slice_subrange(frame, 22 + ip_header_len, frame.len()))
    }
}

} // verus!
