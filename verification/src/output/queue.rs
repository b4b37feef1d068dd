//! The queue between the thread that reads a recording and the one that feeds the device.
//!
//! It is a single-producer, single-consumer ring of the crate `rtrb`, of carrier samples on
//! the way to Core Audio and of raw DSD bytes on the way to a natively held DAC.

use rtrb::{Consumer, Producer};
use vstd::prelude::*;

verus! {

/// The reading end of a ring.
#[verifier::external_type_specification]
#[verifier::external_body]
#[verifier::reject_recursive_types(T)]
pub struct ExConsumer<T>(rtrb::Consumer<T>);

/// The writing end of a ring.
#[verifier::external_type_specification]
#[verifier::external_body]
#[verifier::reject_recursive_types(T)]
pub struct ExProducer<T>(rtrb::Producer<T>);

/// The carrier samples that a consumer has still to give, those that are yet to be written
/// among them, in the order they come.
pub uninterp spec fn samples_to_come(consumer: Consumer<i32>) -> Seq<i32>;

/// The DSD bytes that a consumer has still to give, those that are yet to be written among
/// them, in the order they come.
pub uninterp spec fn bytes_to_come(consumer: Consumer<u8>) -> Seq<u8>;

/// The carrier samples that have been written through a producer, in order.
pub uninterp spec fn samples_written(producer: Producer<i32>) -> Seq<i32>;

/// The DSD bytes that have been written through a producer, in order.
pub uninterp spec fn bytes_written(producer: Producer<u8>) -> Seq<u8>;

/// How many carrier samples a consumer saw ready at its last look and has not read since: what
/// `Consumer::cached_slots` counts.
pub uninterp spec fn samples_seen(consumer: Consumer<i32>) -> nat;

/// How many DSD bytes a consumer saw ready at its last look and has not read since.
pub uninterp spec fn bytes_seen(consumer: Consumer<u8>) -> nat;

/// How many carrier samples a producer saw room for at its last look and has not filled since:
/// what `Producer::cached_slots` counts.
pub uninterp spec fn sample_room(producer: Producer<i32>) -> nat;

/// How many DSD bytes a producer saw room for at its last look and has not filled since.
pub uninterp spec fn byte_room(producer: Producer<u8>) -> nat;

/// Calls `Consumer::slots`, which counts the samples that can be read right now and remembers
/// how far it saw. The claim is that the count is what the consumer has seen from then on, and
/// that nothing leaves the queue. How large it is depends on how far the other thread has got,
/// so nothing is said of that.
#[verifier::external_body]
pub(crate) fn see_samples(consumer: &mut Consumer<i32>) -> (count: usize)
    ensures
        samples_seen(*final(consumer)) == count,
        samples_to_come(*final(consumer)) == samples_to_come(*old(consumer)),
{
    consumer.slots()
}

/// Calls `Consumer::slots` on a queue of DSD bytes, with the claim that the count is what the
/// consumer has seen from then on, and that nothing leaves the queue.
#[verifier::external_body]
pub(crate) fn see_bytes(consumer: &mut Consumer<u8>) -> (count: usize)
    ensures
        bytes_seen(*final(consumer)) == count,
        bytes_to_come(*final(consumer)) == bytes_to_come(*old(consumer)),
{
    consumer.slots()
}

/// Calls `Producer::slots`, which counts the samples that can be written right now and
/// remembers how far it saw. The claim is that the count is the room the producer has seen from
/// then on, and that nothing is written. How large it is depends on how far the other thread
/// has got, so nothing is said of that.
#[verifier::external_body]
pub(crate) fn see_sample_room(producer: &mut Producer<i32>) -> (count: usize)
    ensures
        sample_room(*final(producer)) == count,
        samples_written(*final(producer)) == samples_written(*old(producer)),
{
    producer.slots()
}

/// Calls `Producer::slots` on a queue of DSD bytes, with the claim that the count is the room
/// the producer has seen from then on, and that nothing is written.
#[verifier::external_body]
pub(crate) fn see_byte_room(producer: &mut Producer<u8>) -> (count: usize)
    ensures
        byte_room(*final(producer)) == count,
        bytes_written(*final(producer)) == bytes_written(*old(producer)),
{
    producer.slots()
}

/// Calls `Consumer::read_chunk` and commits the whole chunk. The claim is that it gives the
/// next `count` samples, which are then gone from the queue, or nothing where there are not
/// that many yet, and leaves the queue as it was. As many as the consumer has seen it does
/// give, and has then seen that many fewer.
#[verifier::external_body]
pub(crate) fn read_samples(consumer: &mut Consumer<i32>, count: usize) -> (out: Option<Vec<i32>>)
    ensures
        match out {
            Some(samples) => {
                &&& samples@.len() == count
                &&& samples_to_come(*old(consumer)) == samples@ + samples_to_come(*final(consumer))
            },
            None => samples_to_come(*final(consumer)) == samples_to_come(*old(consumer)),
        },
        count <= samples_seen(*old(consumer)) ==> out is Some && samples_seen(*final(consumer))
            == samples_seen(*old(consumer)) - count,
{
    match consumer.read_chunk(count) {
        Ok(chunk) => {
            let (head, tail) = chunk.as_slices();
            let samples = [head, tail].concat();
            chunk.commit_all();
            Some(samples)
        },
        Err(_) => None,
    }
}

/// Calls `Consumer::read_chunk` on a queue of DSD bytes, with the claim that it gives the next
/// `count` bytes, which are then gone from the queue, or nothing and leaves it as it was. As
/// many as the consumer has seen it does give, and has then seen that many fewer.
#[verifier::external_body]
pub(crate) fn read_bytes(consumer: &mut Consumer<u8>, count: usize) -> (out: Option<Vec<u8>>)
    ensures
        match out {
            Some(bytes) => {
                &&& bytes@.len() == count
                &&& bytes_to_come(*old(consumer)) == bytes@ + bytes_to_come(*final(consumer))
            },
            None => bytes_to_come(*final(consumer)) == bytes_to_come(*old(consumer)),
        },
        count <= bytes_seen(*old(consumer)) ==> out is Some && bytes_seen(*final(consumer))
            == bytes_seen(*old(consumer)) - count,
{
    match consumer.read_chunk(count) {
        Ok(chunk) => {
            let (head, tail) = chunk.as_slices();
            let bytes = [head, tail].concat();
            chunk.commit_all();
            Some(bytes)
        },
        Err(_) => None,
    }
}

/// Calls `Producer::write_chunk_uninit` and fills the chunk from `samples`. The claim is that
/// all of them are written, in order, or none where there is no room for all. As many as the
/// producer has seen room for are written, and it has then seen that much less.
#[verifier::external_body]
pub(crate) fn write_samples(producer: &mut Producer<i32>, samples: &[i32]) -> (written: bool)
    ensures
        samples_written(*final(producer)) == if written {
            samples_written(*old(producer)) + samples@
        } else {
            samples_written(*old(producer))
        },
        samples@.len() <= sample_room(*old(producer)) ==> written && sample_room(*final(producer))
            == sample_room(*old(producer)) - samples@.len(),
{
    match producer.write_chunk_uninit(samples.len()) {
        Ok(chunk) => {
            chunk.fill_from_iter(samples.iter().copied());
            true
        },
        Err(_) => false,
    }
}

/// Calls `Producer::write_chunk_uninit` on a queue of DSD bytes and fills the chunk, with the
/// claim that all of `bytes` are written, in order, or none where there is no room for all. As
/// many as the producer has seen room for are written, and it has then seen that much less.
#[verifier::external_body]
pub(crate) fn write_bytes(producer: &mut Producer<u8>, bytes: &[u8]) -> (written: bool)
    ensures
        bytes_written(*final(producer)) == if written {
            bytes_written(*old(producer)) + bytes@
        } else {
            bytes_written(*old(producer))
        },
        bytes@.len() <= byte_room(*old(producer)) ==> written && byte_room(*final(producer))
            == byte_room(*old(producer)) - bytes@.len(),
{
    match producer.write_chunk_uninit(bytes.len()) {
        Ok(chunk) => {
            chunk.fill_from_iter(bytes.iter().copied());
            true
        },
        Err(_) => false,
    }
}

/// How many of `left` items a queue with room for `room` takes.
pub open spec fn fitting(room: int, left: int) -> int {
    if room < left {
        room
    } else {
        left
    }
}

/// How many of `left` items a queue with room for `room` takes.
pub fn fits(room: usize, left: usize) -> (count: usize)
    ensures
        count == fitting(room as int, left as int),
{
    if room < left {
        room
    } else {
        left
    }
}

/// Hand the queue as many of `samples` from `offset` on as it is seen to have room for, and
/// report how many went: all of them, unless that fills the room that was seen.
pub fn offer_samples(producer: &mut Producer<i32>, samples: &[i32], offset: usize) -> (taken: usize)
    requires
        offset <= samples@.len(),
    ensures
        offset + taken <= samples@.len(),
        taken == fitting(sample_room(*final(producer)) + taken, samples@.len() - offset),
        samples_written(*final(producer)) == samples_written(*old(producer)) + samples@.subrange(
            offset as int,
            offset + taken,
        ),
{
    let room: usize = see_sample_room(producer);
    let take: usize = fits(room, samples.len() - offset);
    let part: &[i32] = vstd::slice::slice_subrange(samples, offset, offset + take);
    let written: bool = write_samples(producer, part);
    assert(written);
    take
}

/// Hand the queue as many of `bytes` from `offset` on as it is seen to have room for, and
/// report how many went: all of them, unless that fills the room that was seen.
pub fn offer_bytes(producer: &mut Producer<u8>, bytes: &[u8], offset: usize) -> (taken: usize)
    requires
        offset <= bytes@.len(),
    ensures
        offset + taken <= bytes@.len(),
        taken == fitting(byte_room(*final(producer)) + taken, bytes@.len() - offset),
        bytes_written(*final(producer)) == bytes_written(*old(producer)) + bytes@.subrange(
            offset as int,
            offset + taken,
        ),
{
    let room: usize = see_byte_room(producer);
    let take: usize = fits(room, bytes.len() - offset);
    let part: &[u8] = vstd::slice::slice_subrange(bytes, offset, offset + take);
    let written: bool = write_bytes(producer, part);
    assert(written);
    take
}

/// A queue takes all there is where it has room for it, and else as much as it has room for.
pub proof fn a_queue_takes_as_much_as_it_can(room: int, left: int)
    ensures
        fitting(room, left) <= room,
        fitting(room, left) <= left,
        fitting(room, left) == room || fitting(room, left) == left,
{
}

} // verus!
