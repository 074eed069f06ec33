//! State machines of the concurrent frame pipeline.
//!
//! The pipeline has one extraction stage, a pool of transform workers
//! behind an ordering gate, and one encoding sink. The stages run on
//! threads and channels owned by the surrounding application; every
//! decision they take -- what to do on a read, when a worker may publish,
//! when the sink stops -- is a function here, so the ordering and
//! cancellation rules are proved rather than scattered through the loops.

use vstd::prelude::*;

verus! {

/// Capacity of the decoder-to-worker channel. Deliberately a single
/// frame: the primary backpressure point capping how far decoding can
/// run ahead of transformation.
pub const PRODUCER_CHANNEL_CAPACITY: usize = 1;

/// The outcome the extraction stage sees on one read from the decoder.
#[derive(Debug, PartialEq, Eq)]
pub enum ReadEvent {
    /// A full frame of raw bytes arrived.
    Frame,
    /// Clean end of the stream: the decoder is exhausted.
    Eof,
    /// Any other read failure.
    Failed,
}

/// What the extraction stage does next.
#[derive(Debug, PartialEq, Eq)]
pub enum ExtractAction {
    /// Publish the frame that just arrived under this sequence number.
    Publish(u64),
    /// Stop quietly: the stream ended or the pipeline was cancelled.
    Stop,
    /// Stop and report the read failure.
    Fail,
}

/// Whether the extraction stage has numbered its frames `0, 1, 2, ...`
/// with no gaps, `published` being the numbers handed out so far.
pub open spec fn extractor_wf(e: Extractor) -> bool {
    &&& e.published@.len() == e.next_seq
    &&& forall|i: int| 0 <= i < e.published@.len() ==> e.published@[i] == i
}

/// The extraction stage: reads whole frames from the decoder stream and
/// publishes each under a monotonically increasing sequence number.
pub struct Extractor {
    /// The sequence number the next published frame receives.
    pub next_seq: u64,
    /// The numbers published so far, oldest first.
    pub published: Ghost<Seq<u64>>,
}

impl Extractor {
    pub fn new() -> (r: Extractor)
        ensures
            extractor_wf(r),
            r.next_seq == 0,
    {
        Extractor { next_seq: 0, published: Ghost(Seq::empty()) }
    }

    /// One decision of the extraction loop. A cancelled pipeline or a
    /// clean end of stream stops the stage; a read failure is reported;
    /// a frame is published under the next sequence number.
    pub fn on_event(&mut self, running: bool, event: &ReadEvent) -> (r: ExtractAction)
        requires
            extractor_wf(*old(self)),
            old(self).next_seq < u64::MAX,
        ensures
            extractor_wf(*final(self)),
            !running ==> r == ExtractAction::Stop && *final(self) == *old(self),
            running && (event is Frame) ==> r == ExtractAction::Publish(old(self).next_seq)
                && final(self).next_seq == old(self).next_seq + 1
                && final(self).published@ == old(self).published@.push(old(self).next_seq),
            running && (event is Eof) ==> r == ExtractAction::Stop && *final(self) == *old(self),
            running && (event is Failed) ==> r == ExtractAction::Fail && *final(self) == *old(
                self,
            ),
    {
        if !running {
            ExtractAction::Stop
        } else {
            match event {
                ReadEvent::Frame => {
                    let seq = self.next_seq;
                    self.next_seq = self.next_seq + 1;
                    proof {
                        self.published@ = self.published@.push(seq);
                    }
                    ExtractAction::Publish(seq)
                },
                ReadEvent::Eof => ExtractAction::Stop,
                ReadEvent::Failed => ExtractAction::Fail,
            }
        }
    }
}

/// Law: extraction numbers its frames consecutively from zero; the
/// published numbers are strictly increasing with no gaps.
pub proof fn lemma_extraction_sequential(e: Extractor)
    requires
        extractor_wf(e),
    ensures
        e.published@.len() == e.next_seq,
        forall|i: int| 0 <= i < e.published@.len() ==> e.published@[i] == i,
        forall|i: int, j: int|
            0 <= i < j < e.published@.len() ==> e.published@[i] < e.published@[j],
{
}

/// What a worker in the ordering-gate wait loop does next.
#[derive(Debug, PartialEq, Eq)]
pub enum WorkerAction {
    /// It is this frame's turn: hand it on to the sink.
    Publish,
    /// Not this frame's turn yet: check again.
    Wait,
    /// The pipeline was cancelled: drop the frame and stop waiting.
    Abort,
}

/// One decision of a worker's cooperative wait on the ordering gate.
/// The worker holding the frame with sequence number `seq` may hand it
/// on only when the ordering gate equals `seq`; a cancelled pipeline frees the
/// worker rather than leaving it to wait for a value that cannot
/// arrive.
pub fn worker_gate_step(running: bool, gate: u64, seq: u64) -> (r: WorkerAction)
    ensures
        !running ==> r == WorkerAction::Abort,
        running && gate == seq ==> r == WorkerAction::Publish,
        running && gate != seq ==> r == WorkerAction::Wait,
{
    if !running {
        WorkerAction::Abort
    } else if gate == seq {
        WorkerAction::Publish
    } else {
        WorkerAction::Wait
    }
}

/// Whether the sink has consumed frames `0, 1, ..., gate - 1`, in that
/// order, and still owes the rest up to `expected`.
pub open spec fn sink_wf(s: Sink) -> bool {
    &&& s.log@.len() == s.gate
    &&& s.gate <= s.expected
    &&& forall|i: int| 0 <= i < s.log@.len() ==> s.log@[i] == i
}

/// The encoding sink: consumes transformed frames in strict sequence
/// order and advances the ordering gate after each one.
pub struct Sink {
    /// The sequence number the sink is about to consume next; this is
    /// the value every worker's gate check reads.
    pub gate: u64,
    /// The probed number of frames the whole run owes the encoder.
    pub expected: u64,
    /// The sequence numbers consumed so far, in consumption order.
    pub log: Ghost<Seq<u64>>,
}

impl Sink {
    pub fn new(expected: u64) -> (r: Sink)
        ensures
            sink_wf(r),
            r.gate == 0,
            r.expected == expected,
    {
        Sink { gate: 0, expected, log: Ghost(Seq::empty()) }
    }

    /// Whether the sink keeps receiving: it stops once every expected
    /// frame is consumed or the pipeline is cancelled.
    pub fn wants_more(&self, running: bool) -> (r: bool)
        ensures
            r == (running && self.gate < self.expected),
    {
        running && self.gate < self.expected
    }

    /// Consumes a frame when it carries exactly the sequence number
    /// that is due next; the ordering gate then moves up by one. Any other frame
    /// is refused and nothing changes.
    pub fn accept(&mut self, seq: u64) -> (r: bool)
        requires
            sink_wf(*old(self)),
        ensures
            sink_wf(*final(self)),
            final(self).expected == old(self).expected,
            r == (seq == old(self).gate && old(self).gate < old(self).expected),
            r ==> final(self).gate == old(self).gate + 1 && final(self).log@ == old(
                self,
            ).log@.push(seq),
            !r ==> *final(self) == *old(self),
    {
        if seq == self.gate && self.gate < self.expected {
            self.gate = self.gate + 1;
            proof {
                self.log@ = self.log@.push(seq);
            }
            true
        } else {
            false
        }
    }

    /// Whether the run delivered everything it owed.
    pub fn is_complete(&self) -> (r: bool)
        ensures
            r == (self.gate == self.expected),
    {
        self.gate == self.expected
    }
}

/// Law: a completed, non-cancelled run has consumed exactly the expected
/// number of frames, and they arrived in strictly increasing sequence
/// order with no gaps, whatever the worker count was.
pub proof fn lemma_sink_complete(s: Sink)
    requires
        sink_wf(s),
        s.gate == s.expected,
    ensures
        s.log@.len() == s.expected,
        forall|i: int| 0 <= i < s.log@.len() ==> s.log@[i] == i,
        forall|i: int, j: int| 0 <= i < j < s.log@.len() ==> s.log@[i] < s.log@[j],
{
}

/// Law: when a run completes, the sink has consumed exactly the frames
/// the extraction stage numbered, in the order extraction assigned.
pub proof fn lemma_pipeline_frames_match(e: Extractor, s: Sink)
    requires
        extractor_wf(e),
        sink_wf(s),
        s.gate == s.expected,
        e.next_seq == s.expected,
    ensures
        e.published@ == s.log@,
{
    assert(e.published@ =~= s.log@);
}

/// The size of the transform worker pool: the configured thread count
/// less the two reserved for the extraction and encoding stages, and
/// never below one.
pub fn worker_count(threads: usize) -> (r: usize)
    ensures
        threads < 3 ==> r == 1,
        threads >= 3 ==> r == threads - 2,
        r >= 1,
{
    if threads < 3 {
        1
    } else {
        threads - 2
    }
}

/// An output name with the GIF suffix, as bytes.
pub open spec fn ends_with_gif(s: Seq<u8>) -> bool {
    s.len() >= 4 && s[s.len() - 4] == 46 && s[s.len() - 3] == 103 && s[s.len() - 2] == 105 && s[
        s.len() - 1
    ] == 102
}

/// Whether the sink writes through the still-image encoder path: a
/// single expected frame, or an output name ending in `.gif`.
pub fn use_image_encoder(frame_count: u64, output_path: &Vec<u8>) -> (r: bool)
    ensures
        r == (frame_count == 1 || ends_with_gif(output_path@)),
{
    if frame_count == 1 {
        return true;
    }
    let n: usize = output_path.len();
    if n < 4 {
        return false;
    }
    let d: u8 = output_path[n - 4];
    let g: u8 = output_path[n - 3];
    let i: u8 = output_path[n - 2];
    let f: u8 = output_path[n - 1];
    d == 46 && g == 103 && i == 105 && f == 102
}

} // verus!
