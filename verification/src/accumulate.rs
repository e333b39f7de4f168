//! The accumulation controller: drives the capture/extract/evaluate loop
//! until a target byte count is reached and owns the growing output pool.
//!
//! The caller pulls frames from its frame source and offers them one at a
//! time; the controller discards a configured number of warm-up frames,
//! checks lens coverage against the configured policy, runs the configured
//! extraction strategy, optionally whitens the chunk, scores it, and appends
//! it to the pool only when the score meets the threshold. Rejected chunks
//! are discarded in full; the pool only ever grows. A frame-acquisition
//! failure is the caller's to surface: it simply stops offering frames.

use crate::extract::{chop_and_tack, differential_chunk, pick_and_flip, single_frame_chunk};
use crate::quality::{distinct_count, is_covered, shannon, shannon_q32};
use crate::whiten::{whiten, whitened};
use vstd::prelude::*;

verus! {

/// Which extraction strategy a run uses.
#[derive(Clone, Copy, Debug, PartialEq, Eq, Structural)]
pub enum ExtractionMode {
    /// Two-frame differential grid over frames of the declared pixel width,
    /// sampling columns `stride` apart.
    Differential { width: usize, stride: usize },
    /// Single-frame least-significant-bit picking over pixels whose
    /// brightness lies in `[low, high]`.
    SingleFrame { low: u8, high: u8 },
}

/// What the coverage check demands of a frame before extraction may run.
#[derive(Clone, Copy, Debug, PartialEq, Eq, Structural)]
pub enum CoveragePolicy {
    /// Extract from every frame.
    Ignore,
    /// Extract only from frames that look obstructed (sensor noise only).
    RequireCovered,
    /// Extract only from frames that do not look obstructed.
    RequireUncovered,
}

/// The named configuration of one accumulation run.
#[derive(Clone, Copy, Debug, PartialEq, Eq, Structural)]
pub struct AccumulatorConfig {
    /// How many output bytes the run must deliver.
    pub target_len: usize,
    /// How many initial frames are discarded unprocessed, letting
    /// auto-exposure and auto-gain settle.
    pub warmup_frames: usize,
    /// The extraction strategy.
    pub mode: ExtractionMode,
    /// Whether each chunk is von Neumann whitened before scoring.
    pub whiten_output: bool,
    /// The minimum Shannon score of an accepted chunk, in Q32 fixed point
    /// (bits per byte times 2^32).
    pub shannon_threshold_q32: u64,
    /// The distinct-value count below which a frame counts as covered.
    pub coverage_threshold: usize,
    /// What the coverage check must find for a round to proceed.
    pub coverage_policy: CoveragePolicy,
}

/// What one offered frame led to.
#[derive(Clone, Copy, Debug, PartialEq, Eq, Structural)]
pub enum RoundOutcome {
    /// The frame was discarded during warm-up.
    Warmup,
    /// The coverage check conflicted with the policy; nothing was
    /// extracted and the frame counter did not advance.
    CoverageMismatch,
    /// The first frame of a differential pair was stored; extraction needs
    /// one more frame.
    PairPending,
    /// Extraction yielded no chunk: invalid differential geometry.
    NoChunk,
    /// The chunk scored below the threshold and was discarded in full.
    Rejected { score: u64 },
    /// The chunk was appended to the pool.
    Accepted { score: u64, added: usize },
}

/// The mathematical state of an accumulation run.
#[verifier::ext_equal]
pub struct AccumModel {
    /// The bytes collected so far.
    pub pool: Seq<u8>,
    /// How many frames have been consumed (warm-up and extraction rounds).
    pub frames_seen: nat,
    /// The stored frame awaiting its differential partner, if any.
    pub pending: Option<Seq<u8>>,
    /// Every chunk accepted so far, in order.
    pub accepted: Seq<Seq<u8>>,
}

/// The accumulation controller. It owns the entropy pool exclusively; the
/// pool grows only by accepted chunks and is truncated to the target length
/// once the run completes.
pub struct Accumulator {
    /// The run's configuration, fixed at construction.
    pub config: AccumulatorConfig,
    /// The collected pool of accepted bytes.
    pub pool: Vec<u8>,
    /// How many frames have been consumed.
    pub frames_seen: usize,
    /// The stored frame awaiting its differential partner.
    pub pending: Option<Vec<u8>>,
    /// The chunks accepted so far, in order.
    pub accepted: Ghost<Seq<Seq<u8>>>,
}

impl View for Accumulator {
    type V = AccumModel;

    open spec fn view(&self) -> AccumModel {
        AccumModel {
            pool: self.pool@,
            frames_seen: self.frames_seen as nat,
            pending: match self.pending {
                Some(v) => Some(v@),
                None => None,
            },
            accepted: self.accepted@,
        }
    }
}

/// A frame counter advances by one and saturates at the machine limit.
pub open spec fn bump(n: nat) -> nat {
    if n < usize::MAX {
        n + 1
    } else {
        n
    }
}

/// Whether a frame's coverage state satisfies the configured policy.
pub open spec fn coverage_ok(cfg: AccumulatorConfig, frame: Seq<u8>) -> bool {
    match cfg.coverage_policy {
        CoveragePolicy::Ignore => true,
        CoveragePolicy::RequireCovered => distinct_count(frame) < cfg.coverage_threshold,
        CoveragePolicy::RequireUncovered => !(distinct_count(frame) < cfg.coverage_threshold),
    }
}

/// The chunk a round submits to the pool, after optional whitening.
pub open spec fn gated_chunk(cfg: AccumulatorConfig, raw: Seq<u8>) -> Seq<u8> {
    if cfg.whiten_output {
        whitened(raw)
    } else {
        raw
    }
}

/// What the quality gate does with a raw chunk: the (possibly whitened)
/// chunk is appended when its Q32 Shannon score meets the threshold and
/// discarded in full otherwise.
pub open spec fn spec_gate(cfg: AccumulatorConfig, m: AccumModel, raw: Seq<u8>) -> (
    AccumModel,
    RoundOutcome,
) {
    let chunk = gated_chunk(cfg, raw);
    let score = shannon_q32(chunk);
    if score >= cfg.shannon_threshold_q32 {
        (
            AccumModel {
                pool: m.pool + chunk,
                frames_seen: m.frames_seen,
                pending: m.pending,
                accepted: m.accepted.push(chunk),
            },
            RoundOutcome::Accepted { score: score as u64, added: chunk.len() as usize },
        )
    } else {
        (m, RoundOutcome::Rejected { score: score as u64 })
    }
}

/// What offering one frame does to the run's state, and the outcome it
/// reports: warm-up discard, coverage mismatch (no frame-counter advance),
/// differential pairing, extraction, and the quality gate.
pub open spec fn spec_round(cfg: AccumulatorConfig, pre: AccumModel, frame: Seq<u8>) -> (
    AccumModel,
    RoundOutcome,
) {
    if pre.frames_seen < cfg.warmup_frames {
        (
            AccumModel {
                pool: pre.pool,
                frames_seen: bump(pre.frames_seen),
                pending: pre.pending,
                accepted: pre.accepted,
            },
            RoundOutcome::Warmup,
        )
    } else if !coverage_ok(cfg, frame) {
        (pre, RoundOutcome::CoverageMismatch)
    } else {
        match cfg.mode {
            ExtractionMode::SingleFrame { low, high } => {
                let post = AccumModel {
                    pool: pre.pool,
                    frames_seen: bump(pre.frames_seen),
                    pending: pre.pending,
                    accepted: pre.accepted,
                };
                spec_gate(cfg, post, single_frame_chunk(frame, low, high, pre.frames_seen as int))
            },
            ExtractionMode::Differential { width, stride } => {
                let post = AccumModel {
                    pool: pre.pool,
                    frames_seen: bump(pre.frames_seen),
                    pending: Some(frame),
                    accepted: pre.accepted,
                };
                match pre.pending {
                    None => (post, RoundOutcome::PairPending),
                    Some(prev) => match differential_chunk(
                        frame,
                        prev,
                        width as int,
                        stride as int,
                    ) {
                        None => (post, RoundOutcome::NoChunk),
                        Some(raw) => spec_gate(cfg, post, raw),
                    },
                }
            },
        }
    }
}

/// A configuration the controller can run: a differential grid needs a
/// positive sampling stride.
pub open spec fn config_wf(cfg: AccumulatorConfig) -> bool {
    match cfg.mode {
        ExtractionMode::Differential { width: _, stride } => stride >= 1,
        ExtractionMode::SingleFrame { low: _, high: _ } => true,
    }
}

/// The sum of the lengths of a sequence of chunks.
pub open spec fn sum_chunk_lens(chunks: Seq<Seq<u8>>) -> nat
    decreases chunks.len(),
{
    if chunks.len() == 0 {
        0
    } else {
        sum_chunk_lens(chunks.drop_last()) + chunks.last().len()
    }
}

/// A flattened sequence of chunks is as long as its chunks together.
pub proof fn lemma_flatten_len_is_sum(chunks: Seq<Seq<u8>>)
    ensures
        chunks.flatten().len() == sum_chunk_lens(chunks),
    decreases chunks.len(),
{
    if chunks.len() == 0 {
        assert(chunks.flatten() =~= Seq::<u8>::empty());
    } else {
        lemma_flatten_len_is_sum(chunks.drop_last());
        Seq::lemma_flatten_push(chunks.drop_last(), chunks.last());
        assert(chunks.drop_last().push(chunks.last()) =~= chunks);
    }
}

impl Accumulator {
    /// The controller's invariant: the pool is exactly the accepted chunks
    /// in order, and the configuration is runnable.
    pub open spec fn wf(&self) -> bool {
        &&& self@.pool == self@.accepted.flatten()
        &&& config_wf(self.config)
    }

    /// Starts a run with an empty pool.
    pub fn new(config: AccumulatorConfig) -> (a: Accumulator)
        requires
            config_wf(config),
        ensures
            a.wf(),
            a.config == config,
            a@.pool == Seq::<u8>::empty(),
            a@.frames_seen == 0,
            a@.pending is None,
            a@.accepted == Seq::<Seq<u8>>::empty(),
    {
        let a = Accumulator {
            config,
            pool: Vec::new(),
            frames_seen: 0,
            pending: None,
            accepted: Ghost(Seq::empty()),
        };
        proof {
            assert(a@.accepted.flatten() =~= Seq::<u8>::empty());
        }
        a
    }

    /// How many bytes the pool holds so far.
    pub fn pool_len(&self) -> (n: usize)
        ensures
            n == self@.pool.len(),
    {
        self.pool.len()
    }

    /// Whether the run has collected at least the target number of bytes.
    pub fn is_complete(&self) -> (done: bool)
        ensures
            done == (self@.pool.len() >= self.config.target_len),
    {
        self.pool.len() >= self.config.target_len
    }

    /// Scores a raw chunk and appends it to the pool when it passes.
    fn gate(&mut self, raw: Vec<u8>) -> (outcome: RoundOutcome)
        requires
            old(self).wf(),
        ensures
            final(self).wf(),
            final(self).config == old(self).config,
            final(self)@ == spec_gate(old(self).config, old(self)@, raw@).0,
            outcome == spec_gate(old(self).config, old(self)@, raw@).1,
    {
        let mut chunk: Vec<u8> = if self.config.whiten_output {
            whiten(raw.as_slice())
        } else {
            raw
        };
        let score = shannon(chunk.as_slice());
        let ghost chunkv = chunk@;
        if score >= self.config.shannon_threshold_q32 {
            let added = chunk.len();
            self.pool.append(&mut chunk);
            proof {
                self.accepted@ = self.accepted@.push(chunkv);
                Seq::lemma_flatten_push(old(self)@.accepted, chunkv);
                assert(final(self)@ =~= spec_gate(old(self).config, old(self)@, raw@).0);
            }
            RoundOutcome::Accepted { score, added }
        } else {
            RoundOutcome::Rejected { score }
        }
    }

    /// Advances the frame counter by one consumed frame.
    fn bump_frames(&mut self)
        ensures
            final(self).config == old(self).config,
            final(self).pool == old(self).pool,
            final(self).pending == old(self).pending,
            final(self).accepted == old(self).accepted,
            final(self)@.frames_seen == bump(old(self)@.frames_seen),
    {
        if self.frames_seen < usize::MAX {
            self.frames_seen = self.frames_seen + 1;
        }
    }

    /// Processes one captured grayscale frame: discards it during warm-up,
    /// checks coverage against the policy, extracts a chunk with the
    /// configured strategy (pairing frames in differential mode), whitens it
    /// when configured, and admits it to the pool only when its Shannon
    /// score meets the threshold.
    pub fn offer_frame(&mut self, frame: &Vec<u8>) -> (outcome: RoundOutcome)
        requires
            old(self).wf(),
        ensures
            final(self).wf(),
            final(self).config == old(self).config,
            final(self)@ == spec_round(old(self).config, old(self)@, frame@).0,
            outcome == spec_round(old(self).config, old(self)@, frame@).1,
            old(self)@.pool.is_prefix_of(final(self)@.pool),
    {
        proof {
            lemma_round_monotone(old(self).config, old(self)@, frame@);
        }
        if self.frames_seen < self.config.warmup_frames {
            self.bump_frames();
            return RoundOutcome::Warmup;
        }
        let covered = is_covered(frame.as_slice(), self.config.coverage_threshold);
        let cov_ok = match self.config.coverage_policy {
            CoveragePolicy::Ignore => true,
            CoveragePolicy::RequireCovered => covered,
            CoveragePolicy::RequireUncovered => !covered,
        };
        if !cov_ok {
            return RoundOutcome::CoverageMismatch;
        }
        match self.config.mode {
            ExtractionMode::SingleFrame { low, high } => {
                let idx = self.frames_seen;
                self.bump_frames();
                let raw = pick_and_flip(frame.as_slice(), low, high, idx);
                self.gate(raw)
            },
            ExtractionMode::Differential { width, stride } => {
                let prev_opt = self.pending.take();
                match prev_opt {
                    None => {
                        self.pending = Some(frame.clone());
                        self.bump_frames();
                        proof {
                            assert(final(self)@ =~= spec_round(
                                old(self).config,
                                old(self)@,
                                frame@,
                            ).0);
                        }
                        RoundOutcome::PairPending
                    },
                    Some(prev) => {
                        let chunk_opt = chop_and_tack(
                            frame.as_slice(),
                            prev.as_slice(),
                            width,
                            stride,
                        );
                        self.pending = Some(frame.clone());
                        self.bump_frames();
                        match chunk_opt {
                            None => {
                                proof {
                                    assert(final(self)@ =~= spec_round(
                                        old(self).config,
                                        old(self)@,
                                        frame@,
                                    ).0);
                                }
                                RoundOutcome::NoChunk
                            },
                            Some(raw) => self.gate(raw),
                        }
                    },
                }
            },
        }
    }

    /// Ends a completed run: the pool is truncated to exactly the target
    /// length, trimming the excess from the tail, and handed out.
    pub fn finish(self) -> (out: Vec<u8>)
        requires
            self@.pool.len() >= self.config.target_len,
        ensures
            out@ == self@.pool.take(self.config.target_len as int),
            out@.len() == self.config.target_len,
    {
        let target = self.config.target_len;
        let mut pool = self.pool;
        pool.truncate(target);
        pool
    }
}

/// A round never shrinks the pool: whatever the outcome, the old pool is a
/// prefix of the new one, so its length never decreases.
pub proof fn lemma_round_monotone(cfg: AccumulatorConfig, pre: AccumModel, frame: Seq<u8>)
    ensures
        spec_round(cfg, pre, frame).0.pool.len() >= pre.pool.len(),
        pre.pool.is_prefix_of(spec_round(cfg, pre, frame).0.pool),
{
    assert(pre.pool.is_prefix_of(pre.pool)) by {
        assert(pre.pool.subrange(0, pre.pool.len() as int) =~= pre.pool);
    }
    assert forall|chunk: Seq<u8>| pre.pool.is_prefix_of(#[trigger] (pre.pool + chunk)) by {
        assert((pre.pool + chunk).subrange(0, pre.pool.len() as int) =~= pre.pool);
    }
}

/// While a run is in progress the pool is exactly the accepted chunks in
/// order, so its length equals the sum of the accepted chunks' lengths.
pub proof fn lemma_pool_is_sum_of_accepted(a: Accumulator)
    requires
        a.wf(),
    ensures
        a@.pool.len() == sum_chunk_lens(a@.accepted),
{
    lemma_flatten_len_is_sum(a@.accepted);
}

} // verus!
