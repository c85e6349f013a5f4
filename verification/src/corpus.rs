//! Payloads and the corpus they form. A payload is a byte range of a shared
//! buffer, so that the payloads of a deeper layer alias the bytes of the
//! capture instead of copying them.

use crate::text::{decimal, decimal_string};
use std::ops::Range;
use std::sync::Arc;
use vstd::prelude::*;
use vstd::string::StringExecFns;

verus! {

/// The direction of a datagram within its flow.
#[derive(Debug, Clone, Copy, PartialEq, Eq, Structural)]
pub enum Direction {
    ClientToServer,
    ServerToClient,
}

/// One captured datagram. The time of capture counts microseconds.
#[derive(Debug)]
pub struct UdpDatagram {
    pub timestamp_micros: u64,
    pub flow_id: usize,
    pub direction: Direction,
    pub payload: Arc<[u8]>,
}

/// The datagrams exchanged between two endpoints.
#[derive(Debug)]
pub struct Flow {
    pub src_ip: String,
    pub dst_ip: String,
    pub src_port: u16,
    pub dst_port: u16,
    pub protocol: u8,
    pub datagrams: Vec<UdpDatagram>,
}

/// Trusted: `Arc::clone` of std. Claimed: the new handle holds the value of
/// the old one.
#[verifier::external_body]
pub(crate) fn share_buffer(data: &Arc<[u8]>) -> (shared: Arc<[u8]>)
    ensures
        shared == *data,
{
    Arc::clone(data)
}

impl Clone for UdpDatagram {
    fn clone(&self) -> (copy: Self)
        ensures
            copy == *self,
    {
        UdpDatagram {
            timestamp_micros: self.timestamp_micros,
            flow_id: self.flow_id,
            direction: self.direction,
            payload: share_buffer(&self.payload),
        }
    }
}

impl Clone for Flow {
    fn clone(&self) -> (copy: Self)
        ensures
            copy.src_ip == self.src_ip,
            copy.dst_ip == self.dst_ip,
            copy.src_port == self.src_port,
            copy.dst_port == self.dst_port,
            copy.protocol == self.protocol,
            copy.datagrams@ == self.datagrams@,
    {
        let mut datagrams: Vec<UdpDatagram> = Vec::new();
        let mut i: usize = 0;
        while i < self.datagrams.len()
            invariant
                i <= self.datagrams.len(),
                datagrams@ == self.datagrams@.take(i as int),
            decreases self.datagrams.len() - i,
        {
            datagrams.push(self.datagrams[i].clone());
            assert(self.datagrams@.take(i as int).push(self.datagrams@[i as int])
                =~= self.datagrams@.take(i + 1));
            i += 1;
        }
        assert(self.datagrams@.take(i as int) =~= self.datagrams@);
        Flow {
            src_ip: self.src_ip.clone(),
            dst_ip: self.dst_ip.clone(),
            src_port: self.src_port,
            dst_port: self.dst_port,
            protocol: self.protocol,
            datagrams,
        }
    }
}

/// A byte range of a shared buffer.
#[derive(Debug)]
pub struct PduRef {
    pub data: Arc<[u8]>,
    pub range: Range<usize>,
}

impl View for PduRef {
    type V = Seq<u8>;

    /// The bytes that the range selects.
    open spec fn view(&self) -> Seq<u8> {
        self.data@.subrange(self.range.start as int, self.range.end as int)
    }
}

impl Clone for PduRef {
    fn clone(&self) -> (copy: Self)
        ensures
            copy == *self,
    {
        PduRef { data: share_buffer(&self.data), range: self.range.start..self.range.end }
    }
}

impl PduRef {
    /// The range is well ordered and lies within the buffer.
    pub open spec fn wf(&self) -> bool {
        self.range.start <= self.range.end <= self.data@.len()
    }

    /// The range `range` of `data`.
    pub fn new(data: Arc<[u8]>, range: Range<usize>) -> (pdu: Self)
        ensures
            pdu.data == data,
            pdu.range == range,
    {
        PduRef { data, range }
    }

    /// The selected bytes.
    pub fn as_slice(&self) -> (bytes: &[u8])
        requires
            self.wf(),
        ensures
            bytes@ == self@,
    {
        let whole: &[u8] = &self.data;
        vstd::slice::slice_subrange(whole, self.range.start, self.range.end)
    }

    /// The number of selected bytes.
    pub fn len(&self) -> (n: usize)
        requires
            self.range.start <= self.range.end,
        ensures
            n == self.range.end - self.range.start,
            self.wf() ==> n == self@.len(),
    {
        self.range.end - self.range.start
    }

    /// Whether the range selects nothing.
    pub fn is_empty(&self) -> (empty: bool)
        ensures
            empty == (self.range.start >= self.range.end),
    {
        self.range.start >= self.range.end
    }

    /// Whether the range is well ordered and lies within the buffer.
    pub fn is_well_formed(&self) -> (ok: bool)
        ensures
            ok == self.wf(),
    {
        let whole: &[u8] = &self.data;
        self.range.start <= self.range.end && self.range.end <= whole.len()
    }
}

/// What is known of a corpus besides its payloads.
#[derive(Debug)]
pub struct CorpusMeta {
    pub source: String,
    pub total_bytes: usize,
    pub pdu_count: usize,
    pub flow_id: Option<usize>,
}

impl Clone for CorpusMeta {
    fn clone(&self) -> (copy: Self)
        ensures
            copy == *self,
    {
        CorpusMeta {
            source: self.source.clone(),
            total_bytes: self.total_bytes,
            pdu_count: self.pdu_count,
            flow_id: self.flow_id,
        }
    }
}

/// The payloads under analysis, in capture order.
#[derive(Debug)]
pub struct Corpus {
    pub items: Vec<PduRef>,
    pub meta: CorpusMeta,
}

/// The sum of the lengths of the ranges.
pub open spec fn total_len(items: Seq<PduRef>) -> int
    decreases items.len(),
{
    if items.len() == 0 {
        0
    } else {
        total_len(items.drop_last()) + (items.last().range.end - items.last().range.start)
    }
}

/// The sum of the payload lengths of the datagrams.
pub open spec fn total_payload(datagrams: Seq<UdpDatagram>) -> int
    decreases datagrams.len(),
{
    if datagrams.len() == 0 {
        0
    } else {
        total_payload(datagrams.drop_last()) + datagrams.last().payload@.len()
    }
}

/// The source label of a corpus built from the datagrams of one flow.
pub open spec fn flow_label(flow_id: Option<usize>) -> Seq<char> {
    match flow_id {
        None => "flow_None"@,
        Some(id) => "flow_Some("@ + decimal(id as nat) + ")"@,
    }
}

impl Clone for Corpus {
    fn clone(&self) -> (copy: Self)
        ensures
            copy.items@ == self.items@,
            copy.meta == self.meta,
    {
        let mut items: Vec<PduRef> = Vec::new();
        let mut i: usize = 0;
        while i < self.items.len()
            invariant
                i <= self.items.len(),
                items@ == self.items@.take(i as int),
            decreases self.items.len() - i,
        {
            items.push(self.items[i].clone());
            assert(self.items@.take(i as int).push(self.items@[i as int]) =~= self.items@.take(
                i + 1,
            ));
            i += 1;
        }
        assert(self.items@.take(i as int) =~= self.items@);
        Corpus { items, meta: self.meta.clone() }
    }
}

impl Corpus {
    /// The payloads as byte sequences.
    pub open spec fn pdus(&self) -> Seq<Seq<u8>> {
        Seq::new(self.items@.len(), |i: int| self.items@[i]@)
    }

    /// Every range fits its buffer, and the metadata counts the payloads
    /// and their bytes.
    pub open spec fn wf(&self) -> bool {
        &&& forall|i: int| 0 <= i < self.items@.len() ==> (#[trigger] self.items@[i]).wf()
        &&& self.meta.pdu_count == self.items@.len()
        &&& self.meta.total_bytes == total_len(self.items@)
    }

    /// A corpus of `items` described by `meta`.
    pub fn new(items: Vec<PduRef>, meta: CorpusMeta) -> (corpus: Self)
        ensures
            corpus.items == items,
            corpus.meta == meta,
    {
        Corpus { items, meta }
    }

    /// The sum of the payload lengths of `datagrams`, unless it is beyond
    /// what can be counted.
    pub fn payload_total(datagrams: &[UdpDatagram]) -> (total: Option<usize>)
        ensures
            match total {
                Some(t) => t == total_payload(datagrams@),
                None => total_payload(datagrams@) > usize::MAX,
            },
    {
        let mut total: usize = 0;
        let mut i: usize = 0;
        assert(datagrams@.take(0) =~= Seq::empty());
        while i < datagrams.len()
            invariant
                i <= datagrams@.len(),
                total == total_payload(datagrams@.take(i as int)),
            decreases datagrams@.len() - i,
        {
            let payload: &[u8] = &datagrams[i].payload;
            let len = payload.len();
            proof {
                assert(datagrams@.take(i + 1).drop_last() =~= datagrams@.take(i as int));
                lemma_total_payload_prefix(datagrams@, i + 1);
            }
            if len > usize::MAX - total {
                return None;
            }
            total = total + len;
            i += 1;
        }
        assert(datagrams@.take(i as int) =~= datagrams@);
        Some(total)
    }

    /// The corpus of the whole payloads of `datagrams`, in their order,
    /// over the datagrams' own buffers.
    pub fn from_datagrams(datagrams: &[UdpDatagram], flow_id: Option<usize>) -> (corpus: Self)
        requires
            total_payload(datagrams@) <= usize::MAX,
        ensures
            corpus.wf(),
            corpus.items@.len() == datagrams@.len(),
            forall|i: int|
                0 <= i < datagrams@.len() ==> {
                    &&& (#[trigger] corpus.items@[i]).data == datagrams@[i].payload
                    &&& corpus.items@[i].range.start == 0
                    &&& corpus.items@[i].range.end == datagrams@[i].payload@.len()
                },
            corpus.meta.source@ == flow_label(flow_id),
            corpus.meta.total_bytes == total_payload(datagrams@),
            corpus.meta.flow_id == flow_id,
    {
        let mut items: Vec<PduRef> = Vec::new();
        let mut total_bytes: usize = 0;
        let mut i: usize = 0;
        while i < datagrams.len()
            invariant
                i <= datagrams@.len(),
                items@.len() == i,
                total_payload(datagrams@) <= usize::MAX,
                total_bytes == total_payload(datagrams@.take(i as int)),
                total_bytes == total_len(items@),
                forall|j: int|
                    0 <= j < i ==> {
                        &&& (#[trigger] items@[j]).data == datagrams@[j].payload
                        &&& items@[j].range.start == 0
                        &&& items@[j].range.end == datagrams@[j].payload@.len()
                    },
            decreases datagrams@.len() - i,
        {
            let payload: &[u8] = &datagrams[i].payload;
            let len = payload.len();
            proof {
                let next = datagrams@.take(i + 1);
                assert(next.drop_last() =~= datagrams@.take(i as int));
                lemma_total_payload_prefix(datagrams@, i + 1);
            }
            let pdu = PduRef::new(share_buffer(&datagrams[i].payload), 0..len);
            let ghost before = items@;
            items.push(pdu);
            total_bytes = total_bytes + len;
            assert(items@.drop_last() =~= before);
            i += 1;
        }
        assert(datagrams@.take(i as int) =~= datagrams@);
        let source = match flow_id {
            None => String::from_str("flow_None"),
            Some(id) => {
                let mut label = String::from_str("flow_Some(");
                let digits = decimal_string(id);
                label.append(digits.as_str());
                label.append(")");
                label
            },
        };
        let pdu_count = items.len();
        Corpus { items, meta: CorpusMeta { source, total_bytes, pdu_count, flow_id } }
    }

    /// The number of payloads.
    pub fn len(&self) -> (n: usize)
        ensures
            n == self.items@.len(),
    {
        self.items.len()
    }

    /// Whether there is no payload.
    pub fn is_empty(&self) -> (empty: bool)
        ensures
            empty == (self.items@.len() == 0),
    {
        self.items.len() == 0
    }

    /// The number of payload bytes that the metadata records.
    pub fn total_bytes(&self) -> (n: usize)
        ensures
            n == self.meta.total_bytes,
            self.wf() ==> n == total_len(self.items@),
    {
        self.meta.total_bytes
    }

    /// Whether every range fits its buffer and the metadata counts the
    /// payloads and their bytes.
    pub fn is_well_formed(&self) -> (ok: bool)
        ensures
            ok == self.wf(),
    {
        if self.meta.pdu_count != self.items.len() {
            return false;
        }
        let mut total: usize = 0;
        let mut i: usize = 0;
        while i < self.items.len()
            invariant
                i <= self.items@.len(),
                total == total_len(self.items@.take(i as int)),
                forall|j: int| 0 <= j < i ==> (#[trigger] self.items@[j]).wf(),
            decreases self.items@.len() - i,
        {
            if !self.items[i].is_well_formed() {
                return false;
            }
            let len = self.items[i].len();
            proof {
                assert(self.items@.take(i + 1).drop_last() =~= self.items@.take(i as int));
            }
            if len > usize::MAX - total {
                proof {
                    if self.wf() {
                        lemma_total_len_prefix(self.items@, i + 1);
                    }
                }
                return false;
            }
            total = total + len;
            i += 1;
        }
        assert(self.items@.take(i as int) =~= self.items@);
        total == self.meta.total_bytes
    }
}

/// The lengths of a prefix sum up to no more than those of the whole.
pub proof fn lemma_total_len_prefix(items: Seq<PduRef>, n: int)
    requires
        0 <= n <= items.len(),
        forall|i: int|
            0 <= i < items.len() ==> (#[trigger] items[i]).range.start <= items[i].range.end,
    ensures
        0 <= total_len(items.take(n)) <= total_len(items),
    decreases items.len() - n,
{
    lemma_total_len_nonnegative(items.take(n));
    if n < items.len() {
        assert(items.take(n + 1).drop_last() =~= items.take(n));
        lemma_total_len_prefix(items, n + 1);
    } else {
        assert(items.take(n) =~= items);
    }
}

/// A sum of lengths of well-ordered ranges is not negative.
pub proof fn lemma_total_len_nonnegative(items: Seq<PduRef>)
    requires
        forall|i: int| 0 <= i < items.len() ==> (#[trigger] items[i]).range.start <= items[i].range.end,
    ensures
        0 <= total_len(items),
    decreases items.len(),
{
    if items.len() > 0 {
        lemma_total_len_nonnegative(items.drop_last());
    }
}

/// The payload lengths of a prefix sum up to no more than those of the whole.
pub proof fn lemma_total_payload_prefix(datagrams: Seq<UdpDatagram>, n: int)
    requires
        0 <= n <= datagrams.len(),
    ensures
        0 <= total_payload(datagrams.take(n)) <= total_payload(datagrams),
    decreases datagrams.len() - n,
{
    if n < datagrams.len() {
        assert(datagrams.take(n + 1).drop_last() =~= datagrams.take(n));
        lemma_total_payload_prefix(datagrams, n + 1);
        lemma_total_payload_nonnegative(datagrams.take(n));
    } else {
        assert(datagrams.take(n) =~= datagrams);
        lemma_total_payload_nonnegative(datagrams);
    }
}

/// A sum of payload lengths is not negative.
pub proof fn lemma_total_payload_nonnegative(datagrams: Seq<UdpDatagram>)
    ensures
        0 <= total_payload(datagrams),
    decreases datagrams.len(),
{
    if datagrams.len() > 0 {
        lemma_total_payload_nonnegative(datagrams.drop_last());
    }
}

} // verus!
