//! Measures on bytes that a description-length score is computed from: how
//! often each byte value occurs, and how many bytes DEFLATE needs.

use crate::corpus::Corpus;
use crate::error::Error;
use flate2::write::DeflateEncoder;
use flate2::Compression;
use std::collections::HashMap;
use std::io::Write;
use vstd::prelude::*;

verus! {

/// Trusted: holds the DEFLATE encoder of flate2 over a vector, unopened.
#[verifier::external_body]
pub struct Deflater {
    encoder: DeflateEncoder<Vec<u8>>,
}

/// The bytes that an encoder has been given so far.
pub uninterp spec fn encoder_input(deflater: Deflater) -> Seq<u8>;

/// The raw DEFLATE stream of `data` at the default compression level.
pub uninterp spec fn deflated(data: Seq<u8>) -> Seq<u8>;

/// Trusted: `DeflateEncoder::new` of flate2 over an empty vector, at the
/// default level. Claimed: the encoder has been given nothing yet.
#[verifier::external_body]
fn new_deflater() -> (deflater: Deflater)
    ensures
        encoder_input(deflater) == Seq::<u8>::empty(),
{
    Deflater { encoder: DeflateEncoder::new(Vec::new(), Compression::default()) }
}

/// Trusted: `Write::write_all` of std on flate2's `DeflateEncoder`.
/// Claimed: on a fresh encoder it succeeds, and the encoder has then been
/// given exactly `data`. The encoder writes into a vector, which takes
/// every write, and the codec reports an error only after an earlier error
/// or after the stream was finished.
#[verifier::external_body]
fn feed_deflater(deflater: &mut Deflater, data: &[u8]) -> (done: Result<(), std::io::Error>)
    requires
        encoder_input(*old(deflater)) == Seq::<u8>::empty(),
    ensures
        done is Ok,
        encoder_input(*final(deflater)) == data@,
{
    deflater.encoder.write_all(data)
}

/// Trusted: `DeflateEncoder::finish` of flate2. Claimed: it succeeds, and
/// the vector then holds the DEFLATE stream of what the encoder was given.
/// The encoder writes into a vector, which takes every write, and the
/// stream is finished once.
#[verifier::external_body]
fn finish_deflater(deflater: Deflater) -> (out: Result<Vec<u8>, std::io::Error>)
    ensures
        out is Ok,
        out matches Ok(bytes) ==> bytes@ == deflated(encoder_input(deflater)),
{
    deflater.encoder.finish()
}

/// The number of bytes of the DEFLATE stream of `data`. Compressing into
/// memory does not fail.
pub fn compressed_size(data: &[u8]) -> (size: Result<usize, Error>)
    ensures
        size matches Ok(n) && n == deflated(data@).len(),
{
    let mut deflater = new_deflater();
    match feed_deflater(&mut deflater, data) {
        Err(e) => stream_size(Err(e)),
        Ok(_) => stream_size(finish_deflater(deflater)),
    }
}

/// The size of a stream once the encoder has answered: the number of the
/// stream's bytes, or the encoder's error as an I/O error.
pub fn stream_size(answer: Result<Vec<u8>, std::io::Error>) -> (size: Result<usize, Error>)
    ensures
        match answer {
            Ok(bytes) => bytes.len() == bytes@.len() && size == Ok::<usize, Error>(bytes.len()),
            Err(e) => size == Err::<usize, Error>(Error::Io(e)),
        },
{
    match answer {
        Ok(bytes) => Ok(bytes.len()),
        Err(e) => Err(Error::Io(e)),
    }
}

/// How often `value` occurs in `data`.
pub open spec fn occurrences(data: Seq<u8>, value: u8) -> nat
    decreases data.len(),
{
    if data.len() == 0 {
        0
    } else {
        occurrences(data.drop_last(), value) + if data.last() == value {
            1nat
        } else {
            0nat
        }
    }
}

/// No value occurs more often than there are bytes.
pub proof fn lemma_occurrences_bound(data: Seq<u8>, value: u8)
    ensures
        occurrences(data, value) <= data.len(),
    decreases data.len(),
{
    if data.len() > 0 {
        lemma_occurrences_bound(data.drop_last(), value);
    }
}

/// Counts how often each byte value occurs in `data`: the map holds the
/// values that occur, each with the number of its occurrences.
pub fn byte_counts(data: &[u8]) -> (counts: HashMap<u8, usize>)
    ensures
        forall|v: u8| occurrences(data@, v) > 0 <==> #[trigger] counts@.contains_key(v),
        forall|v: u8| counts@.contains_key(v) ==> #[trigger] counts@[v] == occurrences(data@, v),
{
    broadcast use vstd::std_specs::hash::group_hash_axioms;

    let mut counts: HashMap<u8, usize> = HashMap::new();
    let n = data.len();
    let mut i: usize = 0;
    assert(data@.take(0) =~= Seq::empty());
    while i < n
        invariant
            i <= n,
            n == data@.len(),
            forall|v: u8|
                occurrences(data@.take(i as int), v) > 0 <==> #[trigger] counts@.contains_key(v),
            forall|v: u8|
                counts@.contains_key(v) ==> #[trigger] counts@[v] == occurrences(
                    data@.take(i as int),
                    v,
                ),
        decreases n - i,
    {
        let byte = data[i];
        proof {
            assert(data@.take(i + 1).drop_last() =~= data@.take(i as int));
            lemma_occurrences_bound(data@.take(i as int), byte);
        }
        let before: usize = match counts.get(&byte) {
            Some(count) => *count,
            None => 0,
        };
        counts.insert(byte, before + 1);
        i += 1;
    }
    assert(data@.take(n as int) =~= data@);
    counts
}

/// The counts of the byte values in the order of the values: entry `v` of
/// the result is the number of occurrences of `v` in `data`.
pub fn byte_histogram(data: &[u8]) -> (counts: Vec<usize>)
    ensures
        counts@.len() == 256,
        forall|v: u8| #[trigger] counts@[v as int] == occurrences(data@, v),
{
    broadcast use vstd::std_specs::hash::group_hash_axioms;

    let by_value = byte_counts(data);
    let mut counts: Vec<usize> = Vec::new();
    let mut value: usize = 0;
    while value < 256
        invariant
            value <= 256,
            counts@.len() == value,
            forall|v: u8| occurrences(data@, v) > 0 <==> #[trigger] by_value@.contains_key(v),
            forall|v: u8|
                by_value@.contains_key(v) ==> #[trigger] by_value@[v] == occurrences(data@, v),
            forall|v: u8| v < value ==> #[trigger] counts@[v as int] == occurrences(data@, v),
        decreases 256 - value,
    {
        let key = value as u8;
        let count: usize = match by_value.get(&key) {
            Some(count) => *count,
            None => 0,
        };
        counts.push(count);
        value += 1;
    }
    counts
}

/// The bytes at place `offset` of the payloads that reach it, in the
/// payloads' order.
pub open spec fn column(pdus: Seq<Seq<u8>>, offset: int) -> Seq<u8>
    decreases pdus.len(),
{
    if pdus.len() == 0 {
        Seq::empty()
    } else {
        column(pdus.drop_last(), offset) + if 0 <= offset < pdus.last().len() {
            seq![pdus.last()[offset]]
        } else {
            Seq::empty()
        }
    }
}

/// How often `offset` occurs among `anchors`.
pub open spec fn anchor_hits(anchors: Seq<usize>, offset: int) -> nat
    decreases anchors.len(),
{
    if anchors.len() == 0 {
        0
    } else {
        anchor_hits(anchors.drop_last(), offset) + if anchors.last() == offset {
            1nat
        } else {
            0nat
        }
    }
}

/// The bytes at place `offset` of the payloads that reach it, each as often
/// as `hits` says, in the payloads' order.
pub open spec fn anchored_column(pdus: Seq<Seq<u8>>, offset: int, hits: nat) -> Seq<u8>
    decreases pdus.len(),
{
    if pdus.len() == 0 {
        Seq::empty()
    } else {
        anchored_column(pdus.drop_last(), offset, hits) + if 0 <= offset < pdus.last().len() {
            Seq::new(hits, |k: int| pdus.last()[offset])
        } else {
            Seq::empty()
        }
    }
}

/// Collects the byte at place `offset` of every payload that reaches it,
/// `hits` times each.
fn collect_column(corpus: &Corpus, offset: usize, hits: usize) -> (bytes: Vec<u8>)
    requires
        corpus.wf(),
    ensures
        bytes@ == anchored_column(corpus.pdus(), offset as int, hits as nat),
{
    let mut bytes: Vec<u8> = Vec::new();
    let ghost pdus = corpus.pdus();
    let mut i: usize = 0;
    assert(pdus.take(0) =~= Seq::empty());
    while i < corpus.items.len()
        invariant
            i <= corpus.items@.len(),
            corpus.wf(),
            pdus == corpus.pdus(),
            bytes@ == anchored_column(pdus.take(i as int), offset as int, hits as nat),
        decreases corpus.items@.len() - i,
    {
        proof {
            assert(pdus.take(i + 1).drop_last() =~= pdus.take(i as int));
        }
        let data = corpus.items[i].as_slice();
        let ghost before = bytes@;
        if offset < data.len() {
            let mut k: usize = 0;
            while k < hits
                invariant
                    k <= hits,
                    offset < data@.len(),
                    bytes@ == before + Seq::new(k as nat, |j: int| data@[offset as int]),
                decreases hits - k,
            {
                bytes.push(data[offset]);
                assert(bytes@ =~= before + Seq::new((k + 1) as nat, |j: int| data@[offset as int]));
                k += 1;
            }
        } else {
            assert(bytes@ =~= before + Seq::<u8>::empty());
        }
        i += 1;
    }
    assert(pdus.take(i as int) =~= pdus);
    bytes
}

/// A column in which every byte stands once is the plain column.
pub proof fn lemma_anchored_once(pdus: Seq<Seq<u8>>, offset: int)
    ensures
        anchored_column(pdus, offset, 1) == column(pdus, offset),
    decreases pdus.len(),
{
    if pdus.len() > 0 {
        lemma_anchored_once(pdus.drop_last(), offset);
        if 0 <= offset < pdus.last().len() {
            assert(Seq::new(1, |k: int| pdus.last()[offset]) =~= seq![pdus.last()[offset]]);
        }
    }
}

/// The bytes of the payloads, place by place: entry `i` of the result holds
/// the byte at place `i` of every payload that reaches it, in the payloads'
/// order, for the places below `max_offset`.
pub fn samples_by_offset(corpus: &Corpus, max_offset: usize) -> (samples: Vec<Vec<u8>>)
    requires
        corpus.wf(),
    ensures
        samples@.len() == max_offset,
        forall|i: int| 0 <= i < max_offset ==> (#[trigger] samples@[i])@ == column(corpus.pdus(), i),
{
    let mut samples: Vec<Vec<u8>> = Vec::new();
    let mut offset: usize = 0;
    while offset < max_offset
        invariant
            offset <= max_offset,
            corpus.wf(),
            samples@.len() == offset,
            forall|i: int| 0 <= i < offset ==> (#[trigger] samples@[i])@ == column(corpus.pdus(), i),
        decreases max_offset - offset,
    {
        let bytes = collect_column(corpus, offset, 1);
        proof {
            lemma_anchored_once(corpus.pdus(), offset as int);
        }
        samples.push(bytes);
        offset += 1;
    }
    samples
}

/// Counts how often `offset` occurs among `anchors`.
fn count_hits(anchors: &[usize], offset: usize) -> (hits: usize)
    ensures
        hits == anchor_hits(anchors@, offset as int),
{
    let mut hits: usize = 0;
    let mut i: usize = 0;
    assert(anchors@.take(0) =~= Seq::empty());
    while i < anchors.len()
        invariant
            i <= anchors@.len(),
            hits <= i,
            hits == anchor_hits(anchors@.take(i as int), offset as int),
        decreases anchors@.len() - i,
    {
        proof {
            assert(anchors@.take(i + 1).drop_last() =~= anchors@.take(i as int));
        }
        if anchors[i] == offset {
            hits += 1;
        }
        i += 1;
    }
    assert(anchors@.take(i as int) =~= anchors@);
    hits
}

/// The bytes of the payloads at the anchors only: entry `i` of the result
/// holds the byte at place `i` of every payload that reaches it, once for
/// every time that `i` stands among the anchors, for the places below
/// `max_offset`.
pub fn samples_at_anchors(corpus: &Corpus, anchor_offsets: &[usize], max_offset: usize) -> (samples:
    Vec<Vec<u8>>)
    requires
        corpus.wf(),
    ensures
        samples@.len() == max_offset,
        forall|i: int|
            0 <= i < max_offset ==> (#[trigger] samples@[i])@ == anchored_column(
                corpus.pdus(),
                i,
                anchor_hits(anchor_offsets@, i),
            ),
{
    let mut samples: Vec<Vec<u8>> = Vec::new();
    let mut offset: usize = 0;
    while offset < max_offset
        invariant
            offset <= max_offset,
            corpus.wf(),
            samples@.len() == offset,
            forall|i: int|
                0 <= i < offset ==> (#[trigger] samples@[i])@ == anchored_column(
                    corpus.pdus(),
                    i,
                    anchor_hits(anchor_offsets@, i),
                ),
        decreases max_offset - offset,
    {
        let hits = count_hits(anchor_offsets, offset);
        let bytes = collect_column(corpus, offset, hits);
        samples.push(bytes);
        offset += 1;
    }
    samples
}

} // verus!
