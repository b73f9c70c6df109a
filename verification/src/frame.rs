//! The frame state machine: tracks the position inside the repeating
//! audio/metadata cycle of an ICY stream, discards audio bytes, assembles
//! metadata blocks, and hands each completed non-empty block to the decoder.
//!
//! Chunks arrive with arbitrary sizes and alignment; the machine buffers
//! unconsumed bytes and performs as many transitions as the buffer supports
//! after every arrival.

use crate::meta::{decode_meta_block, spec_decode, DecodeError, Record};
use std::collections::VecDeque;
use vstd::pervasive::unreached;
use vstd::prelude::*;
use vstd::utf8::{decode_utf8, valid_utf8};

verus! {

/// Position within one audio/metadata cycle. The byte count carried by a
/// variant is the number of buffered bytes required before the next
/// transition may fire.
#[derive(Clone, Copy, Debug)]
pub enum State {
    /// `n` audio bytes remain to be discarded before the length marker.
    SkipAudio(usize),
    /// The next byte is the metadata length marker (always needs 1 byte).
    MetaHeader,
    /// `n` raw metadata bytes remain to be collected (`n` may be 0).
    CaptureMeta(usize),
}

impl State {
    /// How many buffered bytes this state needs before it can resolve.
    pub open spec fn spec_bytes_to_consume(&self) -> usize {
        match *self {
            State::SkipAudio(n) => n,
            State::MetaHeader => 1,
            State::CaptureMeta(n) => n,
        }
    }

    /// How many buffered bytes this state needs before it can resolve.
    #[verifier::when_used_as_spec(spec_bytes_to_consume)]
    pub fn bytes_to_consume(&self) -> (n: usize)
        ensures
            n == self.spec_bytes_to_consume(),
    {
        match *self {
            State::SkipAudio(n) => n,
            State::CaptureMeta(n) => n,
            State::MetaHeader => 1,
        }
    }
}

/// Orders the states so that every transition either consumes a byte or
/// lowers the rank; used to show that draining terminates.
pub open spec fn state_rank(s: State) -> int {
    match s {
        State::MetaHeader => 0,
        State::SkipAudio(_) => 1,
        State::CaptureMeta(_) => 2,
    }
}

/// One transition of the cycle, meaningful when the buffer holds at least
/// the required bytes: the next state, the rest of the buffer, and the raw
/// metadata block completed by the transition, if any. A length marker `b`
/// announces a block of `b * 16` bytes; a completed empty block is not
/// reported.
pub open spec fn step(s: State, b: Seq<u8>, metaint: usize) -> (State, Seq<u8>, Option<Seq<u8>>)
    recommends
        b.len() >= s.spec_bytes_to_consume(),
{
    match s {
        State::SkipAudio(n) => (State::MetaHeader, b.skip(n as int), None::<Seq<u8>>),
        State::MetaHeader => (
            State::CaptureMeta(((b[0] as usize) * 16) as usize),
            b.skip(1),
            None::<Seq<u8>>,
        ),
        State::CaptureMeta(n) => (
            State::SkipAudio(metaint),
            b.skip(n as int),
            if n > 0 {
                Some(b.take(n as int))
            } else {
                None::<Seq<u8>>
            },
        ),
    }
}

/// Runs transitions to exhaustion on the buffered bytes: the state and the
/// remaining buffer once no further transition is enabled, and the raw
/// non-empty metadata blocks completed on the way, in order.
pub open spec fn drain(s: State, b: Seq<u8>, metaint: usize) -> (State, Seq<u8>, Seq<Seq<u8>>)
    decreases b.len(), state_rank(s),
{
    if b.len() < s.spec_bytes_to_consume() {
        (s, b, Seq::<Seq<u8>>::empty())
    } else {
        let t = step(s, b, metaint);
        let d = drain(t.0, t.1, metaint);
        (
            d.0,
            d.1,
            match t.2 {
                Some(k) => seq![k] + d.2,
                None => d.2,
            },
        )
    }
}

/// Draining stops only when the buffer no longer covers what the final
/// state requires.
pub proof fn lemma_drain_quiescent(s: State, b: Seq<u8>, metaint: usize)
    ensures
        drain(s, b, metaint).1.len() < drain(s, b, metaint).0.spec_bytes_to_consume(),
    decreases b.len(), state_rank(s),
{
    if b.len() < s.spec_bytes_to_consume() {
    } else {
        let t = step(s, b, metaint);
        lemma_drain_quiescent(t.0, t.1, metaint);
    }
}

/// Draining `b` followed by `c` equals draining `b`, then draining what it
/// left together with `c`: one transition never looks past the bytes it
/// requires, so later bytes cannot change earlier transitions.
pub proof fn lemma_drain_append(s: State, b: Seq<u8>, c: Seq<u8>, metaint: usize)
    ensures
        ({
            let d1 = drain(s, b, metaint);
            let d2 = drain(d1.0, d1.1 + c, metaint);
            drain(s, b + c, metaint) == (d2.0, d2.1, d1.2 + d2.2)
        }),
    decreases b.len(), state_rank(s),
{
    let d1 = drain(s, b, metaint);
    let d2 = drain(d1.0, d1.1 + c, metaint);
    if b.len() < s.spec_bytes_to_consume() {
        assert(d1.2 + d2.2 =~= d2.2);
    } else {
        let t = step(s, b, metaint);
        match s {
            State::SkipAudio(n) => {
                assert((b + c).skip(n as int) =~= b.skip(n as int) + c);
            },
            State::MetaHeader => {
                assert((b + c)[0] == b[0]);
                assert((b + c).skip(1) =~= b.skip(1) + c);
            },
            State::CaptureMeta(n) => {
                assert((b + c).skip(n as int) =~= b.skip(n as int) + c);
                if n > 0 {
                    assert((b + c).take(n as int) =~= b.take(n as int));
                }
            },
        }
        assert(step(s, b + c, metaint) == (t.0, t.1 + c, t.2));
        lemma_drain_append(t.0, t.1, c, metaint);
        let e1 = drain(t.0, t.1, metaint);
        let e2 = drain(e1.0, e1.1 + c, metaint);
        match t.2 {
            Some(k) => {
                assert(seq![k] + (e1.2 + e2.2) =~= (seq![k] + e1.2) + e2.2);
            },
            None => {},
        }
    }
}

/// The machine's behaviour on a whole run of chunks: each chunk is appended
/// to the pending buffer and the buffer is drained, starting from state `s`
/// with pending bytes `b`.
pub open spec fn drain_seq(s: State, b: Seq<u8>, chunks: Seq<Seq<u8>>, metaint: usize) -> (
    State,
    Seq<u8>,
    Seq<Seq<u8>>,
)
    decreases chunks.len(),
{
    if chunks.len() == 0 {
        (s, b, Seq::<Seq<u8>>::empty())
    } else {
        let d = drain(s, b + chunks[0], metaint);
        let rest = drain_seq(d.0, d.1, chunks.drop_first(), metaint);
        (rest.0, rest.1, d.2 + rest.2)
    }
}

/// Chunk-boundary invariance: however the stream bytes are split into
/// chunks (including one byte at a time), feeding them one chunk at a time
/// to a quiescent machine leaves the same state and pending bytes and emits
/// the same metadata blocks, in the same order, as feeding them all at once.
pub proof fn lemma_chunk_invariance(s: State, b: Seq<u8>, chunks: Seq<Seq<u8>>, metaint: usize)
    requires
        b.len() < s.spec_bytes_to_consume(),
    ensures
        drain_seq(s, b, chunks, metaint) == drain(s, b + chunks.flatten(), metaint),
    decreases chunks.len(),
{
    if chunks.len() == 0 {
        assert(b + chunks.flatten() =~= b);
        assert(drain(s, b, metaint) == (s, b, Seq::<Seq<u8>>::empty()));
        assert(drain_seq(s, b, chunks, metaint).2 =~= Seq::<Seq<u8>>::empty());
    } else {
        let c0 = chunks[0];
        let rest = chunks.drop_first();
        let d = drain(s, b + c0, metaint);
        lemma_drain_quiescent(s, b + c0, metaint);
        lemma_chunk_invariance(d.0, d.1, rest, metaint);
        lemma_drain_append(s, b + c0, rest.flatten(), metaint);
        assert(b + chunks.flatten() =~= (b + c0) + rest.flatten());
    }
}

/// One full cycle — `metaint` audio bytes, the length marker, and the
/// announced block — split into arbitrarily many chunks (including one byte
/// at a time) emits exactly what feeding it whole emits: the cycle's block
/// when the marker is non-zero, nothing otherwise, with the machine back at
/// the start of a cycle.
pub proof fn lemma_cycle_chunked(
    audio: Seq<u8>,
    marker: u8,
    meta: Seq<u8>,
    chunks: Seq<Seq<u8>>,
    metaint: usize,
)
    requires
        metaint >= 1,
        audio.len() == metaint,
        meta.len() == marker * 16,
        chunks.flatten() == audio + (seq![marker] + meta),
    ensures
        drain_seq(State::SkipAudio(metaint), Seq::<u8>::empty(), chunks, metaint) == (
            State::SkipAudio(metaint),
            Seq::<u8>::empty(),
            if marker == 0 {
                Seq::<Seq<u8>>::empty()
            } else {
                seq![meta]
            },
        ),
{
    lemma_chunk_invariance(State::SkipAudio(metaint), Seq::<u8>::empty(), chunks, metaint);
    assert(Seq::<u8>::empty() + chunks.flatten() =~= chunks.flatten());
    lemma_one_cycle(audio, marker, meta, metaint);
}

/// A length marker of zero completes the cycle at once: no block is
/// reported, and the machine resumes skipping a full audio run.
pub proof fn lemma_zero_length_block(b: Seq<u8>, metaint: usize)
    ensures
        drain(State::MetaHeader, seq![0u8] + b, metaint) == drain(
            State::SkipAudio(metaint),
            b,
            metaint,
        ),
{
    let whole = seq![0u8] + b;
    assert(whole[0] == 0u8);
    let t1 = step(State::MetaHeader, whole, metaint);
    assert(t1.0 == State::CaptureMeta(0));
    assert(t1.1 =~= b);
    assert(drain(State::MetaHeader, whole, metaint) == drain(State::CaptureMeta(0), b, metaint));
    let t2 = step(State::CaptureMeta(0), b, metaint);
    assert(t2.0 == State::SkipAudio(metaint));
    assert(t2.1 =~= b);
    assert(drain(State::CaptureMeta(0), b, metaint) == drain(
        State::SkipAudio(metaint),
        b,
        metaint,
    ));
}

/// A length marker of 255 announces the largest block, 4080 bytes: with
/// fewer bytes buffered the machine waits (no transition, no error), and
/// with exactly 4080 the block fires and the cycle restarts.
pub proof fn lemma_max_length_block(b: Seq<u8>, metaint: usize)
    requires
        metaint >= 1,
    ensures
        drain(State::MetaHeader, seq![255u8] + b, metaint) == drain(
            State::CaptureMeta(4080),
            b,
            metaint,
        ),
        b.len() < 4080 ==> drain(State::CaptureMeta(4080), b, metaint) == (
            State::CaptureMeta(4080),
            b,
            Seq::<Seq<u8>>::empty(),
        ),
        b.len() == 4080 ==> drain(State::CaptureMeta(4080), b, metaint) == (
            State::SkipAudio(metaint),
            Seq::<u8>::empty(),
            seq![b],
        ),
{
    let whole = seq![255u8] + b;
    assert(whole[0] == 255u8);
    let t1 = step(State::MetaHeader, whole, metaint);
    assert(t1.0 == State::CaptureMeta(4080));
    assert(t1.1 =~= b);
    if b.len() == 4080 {
        let t2 = step(State::CaptureMeta(4080), b, metaint);
        assert(t2.1 =~= Seq::<u8>::empty());
        assert(t2.2 == Some(b.take(4080)));
        assert(b.take(4080) =~= b);
        assert(drain(State::SkipAudio(metaint), t2.1, metaint) == (
            State::SkipAudio(metaint),
            t2.1,
            Seq::<Seq<u8>>::empty(),
        ));
        assert(seq![b] + Seq::<Seq<u8>>::empty() =~= seq![b]);
    }
}

/// One full cycle fed whole: `metaint` audio bytes, the length marker, and
/// the announced block. The audio is discarded, the block (when non-empty)
/// is reported, and the machine is back at the start of a cycle with
/// nothing pending.
pub proof fn lemma_one_cycle(audio: Seq<u8>, marker: u8, meta: Seq<u8>, metaint: usize)
    requires
        metaint >= 1,
        audio.len() == metaint,
        meta.len() == marker * 16,
    ensures
        drain(State::SkipAudio(metaint), audio + (seq![marker] + meta), metaint) == (
            State::SkipAudio(metaint),
            Seq::<u8>::empty(),
            if marker == 0 {
                Seq::<Seq<u8>>::empty()
            } else {
                seq![meta]
            },
        ),
{
    let whole = audio + (seq![marker] + meta);
    let t1 = step(State::SkipAudio(metaint), whole, metaint);
    assert(t1.0 == State::MetaHeader);
    assert(t1.1 =~= seq![marker] + meta);
    assert(drain(State::SkipAudio(metaint), whole, metaint) == drain(
        State::MetaHeader,
        seq![marker] + meta,
        metaint,
    ));
    let n = ((marker as usize) * 16) as usize;
    let t2 = step(State::MetaHeader, seq![marker] + meta, metaint);
    assert((seq![marker] + meta)[0] == marker);
    assert(t2.0 == State::CaptureMeta(n));
    assert(t2.1 =~= meta);
    assert(drain(State::MetaHeader, seq![marker] + meta, metaint) == drain(
        State::CaptureMeta(n),
        meta,
        metaint,
    ));
    let t3 = step(State::CaptureMeta(n), meta, metaint);
    assert(t3.0 == State::SkipAudio(metaint));
    assert(t3.1 =~= Seq::<u8>::empty());
    assert(drain(State::SkipAudio(metaint), t3.1, metaint) == (
        State::SkipAudio(metaint),
        t3.1,
        Seq::<Seq<u8>>::empty(),
    ));
    if marker > 0 {
        assert(t3.2 == Some(meta.take(n as int)));
        assert(meta.take(n as int) =~= meta);
        assert(seq![meta] + Seq::<Seq<u8>>::empty() =~= seq![meta]);
        assert(drain(State::CaptureMeta(n), meta, metaint) == (
            State::SkipAudio(metaint),
            Seq::<u8>::empty(),
            seq![meta],
        ));
    } else {
        assert(drain(State::CaptureMeta(n), meta, metaint) == (
            State::SkipAudio(metaint),
            Seq::<u8>::empty(),
            Seq::<Seq<u8>>::empty(),
        ));
    }
}

/// Two full cycles back to back emit exactly their two blocks, in order:
/// each reported block is the one its own cycle carried.
pub proof fn lemma_two_cycles(
    audio1: Seq<u8>,
    marker1: u8,
    meta1: Seq<u8>,
    audio2: Seq<u8>,
    marker2: u8,
    meta2: Seq<u8>,
    metaint: usize,
)
    requires
        metaint >= 1,
        audio1.len() == metaint,
        audio2.len() == metaint,
        meta1.len() == marker1 * 16,
        meta2.len() == marker2 * 16,
        marker1 > 0,
        marker2 > 0,
    ensures
        drain(
            State::SkipAudio(metaint),
            (audio1 + (seq![marker1] + meta1)) + (audio2 + (seq![marker2] + meta2)),
            metaint,
        ) == (State::SkipAudio(metaint), Seq::<u8>::empty(), seq![meta1, meta2]),
{
    let cycle1 = audio1 + (seq![marker1] + meta1);
    let cycle2 = audio2 + (seq![marker2] + meta2);
    lemma_drain_append(State::SkipAudio(metaint), cycle1, cycle2, metaint);
    lemma_one_cycle(audio1, marker1, meta1, metaint);
    assert(Seq::<u8>::empty() + cycle2 =~= cycle2);
    lemma_one_cycle(audio2, marker2, meta2, metaint);
    assert(seq![meta1] + seq![meta2] =~= seq![meta1, meta2]);
}

/// The incremental ICY stream decoder: the declared `metaint`, the current
/// position in the cycle, and the pending unconsumed bytes.
pub struct FrameMachine {
    /// Audio bytes between consecutive metadata blocks, fixed for the
    /// connection's lifetime.
    pub metaint: usize,
    /// Position in the current cycle.
    pub state: State,
    /// Unconsumed bytes, appended at the tail on arrival and drained from
    /// the head by transitions.
    pub buf: VecDeque<u8>,
}

impl FrameMachine {
    /// The declared interval is positive.
    pub open spec fn wf(&self) -> bool {
        self.metaint >= 1
    }

    /// A fresh decoder for a stream that declared the given `metaint`: it
    /// starts by skipping one full audio run with nothing buffered.
    pub fn new(metaint: usize) -> (m: FrameMachine)
        requires
            metaint >= 1,
        ensures
            m.wf(),
            m.metaint == metaint,
            m.state == State::SkipAudio(metaint),
            m.buf@ == Seq::<u8>::empty(),
    {
        FrameMachine { metaint, state: State::SkipAudio(metaint), buf: VecDeque::new() }
    }

    /// Feeds one chunk of stream bytes and performs every transition the
    /// buffered bytes now support: the machine ends exactly where draining
    /// the combined buffer leaves it. The records are the decodes of the
    /// completed non-empty blocks, in order, up to but not including the
    /// first block that is not valid UTF-8; exactly when such a block
    /// exists, the error comes back beside the records already decoded — the
    /// stream is then desynchronized and the connection must be abandoned.
    pub fn push_chunk(&mut self, chunk: &Vec<u8>) -> (r: (Vec<Record>, Option<DecodeError>))
        requires
            old(self).wf(),
        ensures
            final(self).wf(),
            final(self).metaint == old(self).metaint,
            final(self).state == drain(
                old(self).state,
                old(self).buf@ + chunk@,
                old(self).metaint,
            ).0,
            final(self).buf@ == drain(old(self).state, old(self).buf@ + chunk@, old(self).metaint).1,
            ({
                let blocks = drain(old(self).state, old(self).buf@ + chunk@, old(self).metaint).2;
                let records = r.0;
                &&& (r.1 is None <==> (forall|i: int|
                    0 <= i < blocks.len() ==> valid_utf8(#[trigger] blocks[i])))
                &&& (r.1 is Some ==> r.1 == Some(DecodeError::InvalidEncoding))
                &&& records@.len() <= blocks.len()
                &&& (forall|i: int|
                    0 <= i < records@.len() ==> valid_utf8(#[trigger] blocks[i]))
                &&& (forall|i: int|
                    0 <= i < records@.len() ==> (#[trigger] records@[i]).wf() && (records@[i])@
                        == spec_decode(decode_utf8(blocks[i])))
                &&& (r.1 is None ==> records@.len() == blocks.len())
                &&& (r.1 is Some ==> records@.len() < blocks.len() && !valid_utf8(
                    blocks[records@.len() as int],
                ))
            }),
    {
        let ghost s0 = self.state;
        let ghost b0 = self.buf@ + chunk@;
        let ghost m = self.metaint;
        let ghost d0 = drain(s0, b0, m);
        let mut ci: usize = 0;
        while ci < chunk.len()
            invariant
                ci <= chunk@.len(),
                self.metaint == m,
                self.state == s0,
                self.buf@ == old(self).buf@ + chunk@.take(ci as int),
            decreases chunk@.len() - ci,
        {
            self.buf.push_back(chunk[ci]);
            proof {
                assert(self.buf@ =~= old(self).buf@ + chunk@.take(ci as int + 1));
            }
            ci = ci + 1;
        }
        proof {
            assert(chunk@.take(chunk@.len() as int) =~= chunk@);
            assert(self.buf@ == b0);
        }
        let mut records: Vec<Record> = Vec::new();
        let mut err: Option<DecodeError> = None;
        let ghost mut done: Seq<Seq<u8>> = Seq::<Seq<u8>>::empty();
        while self.buf.len() >= self.state.bytes_to_consume()
            invariant
                self.metaint == m,
                m == old(self).metaint,
                old(self).wf(),
                d0 == drain(s0, b0, m),
                drain(self.state, self.buf@, m).0 == d0.0,
                drain(self.state, self.buf@, m).1 == d0.1,
                d0.2 == done + drain(self.state, self.buf@, m).2,
                records@.len() <= done.len(),
                forall|i: int| 0 <= i < records@.len() ==> valid_utf8(#[trigger] done[i]),
                forall|i: int|
                    0 <= i < records@.len() ==> (#[trigger] records@[i]).wf() && (records@[i])@
                        == spec_decode(decode_utf8(done[i])),
                err is None ==> records@.len() == done.len(),
                err is Some ==> err->0 == DecodeError::InvalidEncoding,
                err is Some ==> records@.len() < done.len() && !valid_utf8(
                    done[records@.len() as int],
                ),
            decreases self.buf@.len(), state_rank(self.state),
        {
            let ghost scur = self.state;
            let ghost bcur = self.buf@;
            match self.state {
                State::SkipAudio(n) => {
                    let mut i: usize = 0;
                    while i < n
                        invariant
                            i <= n,
                            n <= bcur.len(),
                            self.metaint == m,
                            self.state == scur,
                            self.buf@ == bcur.subrange(i as int, bcur.len() as int),
                        decreases n - i,
                    {
                        let _ = self.buf.pop_front();
                        i = i + 1;
                        proof {
                            assert(self.buf@ =~= bcur.subrange(i as int, bcur.len() as int));
                        }
                    }
                    self.state = State::MetaHeader;
                    proof {
                        assert(bcur.skip(n as int) =~= self.buf@);
                        assert(drain(scur, bcur, m) == drain(self.state, self.buf@, m));
                    }
                },
                State::MetaHeader => {
                    let x = match self.buf.pop_front() {
                        Some(v) => v,
                        None => unreached(),
                    };
                    let blk = (x as usize) * 16;
                    self.state = State::CaptureMeta(blk);
                    proof {
                        assert(bcur[0] == x);
                        assert(self.buf@ =~= bcur.skip(1));
                        assert(drain(scur, bcur, m) == drain(self.state, self.buf@, m));
                    }
                },
                State::CaptureMeta(n) => {
                    let mut block: Vec<u8> = Vec::new();
                    let mut i: usize = 0;
                    while i < n
                        invariant
                            i <= n,
                            n <= bcur.len(),
                            self.metaint == m,
                            self.state == scur,
                            self.buf@ == bcur.subrange(i as int, bcur.len() as int),
                            block@ == bcur.take(i as int),
                        decreases n - i,
                    {
                        let x = match self.buf.pop_front() {
                            Some(v) => v,
                            None => unreached(),
                        };
                        block.push(x);
                        i = i + 1;
                        proof {
                            assert(self.buf@ =~= bcur.subrange(i as int, bcur.len() as int));
                            assert(block@ =~= bcur.take(i as int));
                        }
                    }
                    self.state = State::SkipAudio(self.metaint);
                    proof {
                        assert(bcur.skip(n as int) =~= self.buf@);
                        assert(block@ =~= bcur.take(n as int));
                    }
                    if n > 0 {
                        let ghost blk = block@;
                        proof {
                            assert(drain(scur, bcur, m).2 == seq![blk] + drain(
                                self.state,
                                self.buf@,
                                m,
                            ).2);
                            assert(done + (seq![blk] + drain(self.state, self.buf@, m).2) =~= (
                            done.push(blk)) + drain(self.state, self.buf@, m).2);
                        }
                        if err.is_none() {
                            match decode_meta_block(block) {
                                Ok(rec) => {
                                    records.push(rec);
                                    proof {
                                        done = done.push(blk);
                                    }
                                },
                                Err(e) => {
                                    err = Some(e);
                                    proof {
                                        done = done.push(blk);
                                        assert(!valid_utf8(blk));
                                        assert(done[records@.len() as int] == blk);
                                    }
                                },
                            }
                        } else {
                            proof {
                                let pre = done;
                                done = done.push(blk);
                                assert(done[records@.len() as int] == pre[records@.len() as int]);
                            }
                        }
                    } else {
                        proof {
                            assert(drain(scur, bcur, m) == drain(self.state, self.buf@, m));
                        }
                    }
                },
            }
        }
        proof {
            assert(drain(self.state, self.buf@, m) == (self.state, self.buf@, Seq::<Seq<u8>>::empty()));
            assert(d0.2 =~= done);
        }
        (records, err)
    }
}

} // verus!

