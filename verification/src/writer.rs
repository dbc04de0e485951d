//! The streaming writer: it buffers input into fixed-size jobs, hashes each
//! completed job as an interior subtree, feeds the digests to the merging
//! state in input order, and finalizes the last buffer as the root when it
//! turns out to be the only one.
use vstd::prelude::*;
use vstd::slice::slice_subrange;
use crate::CHUNK_SIZE;
use crate::JOB_SIZE;
use crate::geometry::is_chunk_pow2;
use crate::geometry::is_pow2;
use crate::geometry::lemma_popcount_pos;
use crate::merge::carry_merges;
use crate::merge::lemma_carry_tracks;
use crate::merge::lemma_fold_finish_root;
use crate::merge::lemma_tracks_append;
use crate::merge::lemma_uniform_chunk;
use crate::merge::sum_lens;
use crate::merge::tracks;
use crate::node::Finalization;
use crate::node::push_all;
use crate::state::State;
use crate::tree::hash_recurse;
use crate::tree::spec_hash;

verus! {

/// Relies on num_cpus::get, which always returns at least 1.
#[verifier::external_body]
fn cpu_count() -> (n: usize)
    ensures
        n >= 1,
{
    num_cpus::get()
}

/// An incremental writer that accepts input bytes in slices of any size and
/// returns the root digest from `finish`. Its digest equals `hash` of the
/// whole input, whatever the partitioning into `write` calls.
pub struct Writer {
    state: State,
    buf: Vec<u8>,
    job_size: usize,
    max_jobs: usize,
    first_job: bool,
    flushed: Ghost<Seq<u8>>,
}

impl Writer {
    /// All bytes accepted so far.
    pub closed spec fn written(self) -> Seq<u8> {
        self.flushed@ + self.buf@
    }

    /// The writer invariant: the state tracks the flushed bytes job by job,
    /// the buffer holds the tail of the input, and the job size is a power
    /// of two of chunks.
    pub closed spec fn wf(self) -> bool {
        &&& self.state.wf()
        &&& is_chunk_pow2(self.job_size as nat)
        &&& self.buf@.len() <= self.job_size
        &&& self.flushed@.len() + self.buf@.len() <= u64::MAX
        &&& self.state.total() as nat == self.flushed@.len()
        &&& tracks(self.state.digests(), self.state.entry_lens(), self.flushed@)
        &&& !self.state.is_closed()
        &&& if self.first_job {
            self.state.digests().len() == 0 && self.flushed@.len() == 0
        } else {
            &&& self.state.digests().len() >= 1
            &&& self.buf@.len() >= 1
            &&& self.state.push_unit() == self.job_size as nat
        }
    }

    /// A writer with the given job size (a power of two times the chunk
    /// size) and bound on outstanding jobs.
    pub fn new_benchmarking(job_size: usize, max_jobs: usize) -> (w: Writer)
        requires
            job_size % CHUNK_SIZE == 0,
            is_pow2(job_size as nat / (CHUNK_SIZE as nat)),
            max_jobs >= 1,
        ensures
            w.wf(),
            w.written() == Seq::<u8>::empty(),
    {
        let w = Writer {
            state: State::new(),
            buf: Vec::new(),
            job_size,
            max_jobs,
            first_job: true,
            flushed: Ghost(Seq::empty()),
        };
        proof {
            assert(sum_lens(Seq::<nat>::empty()) == 0);
            assert(w.written() =~= Seq::<u8>::empty());
        }
        w
    }

    /// A writer with the default job size and twice the processor count as
    /// the bound on outstanding jobs.
    pub fn new() -> (w: Writer)
        ensures
            w.wf(),
            w.written() == Seq::<u8>::empty(),
    {
        let n = cpu_count();
        let max_jobs = if n <= usize::MAX / 2 {
            2 * n
        } else {
            usize::MAX
        };
        proof {
            assert((JOB_SIZE as nat) % (CHUNK_SIZE as nat) == 0);
            assert((JOB_SIZE as nat) / (CHUNK_SIZE as nat) == 16);
            assert(is_pow2(16nat)) by {
                reveal_with_fuel(is_pow2, 6);
            }
        }
        Writer::new_benchmarking(JOB_SIZE, max_jobs)
    }

    /// Hash the full buffer as an interior subtree, push it to the state,
    /// and clear the buffer.
    fn dispatch_buf(&mut self)
        requires
            old(self).wf(),
            old(self).buf@.len() == old(self).job_size,
        ensures
            final(self).written() == old(self).written(),
            final(self).flushed@ == old(self).flushed@ + old(self).buf@,
            final(self).buf@.len() == 0,
            final(self).job_size == old(self).job_size,
            final(self).max_jobs == old(self).max_jobs,
            !final(self).first_job,
            final(self).state.wf(),
            final(self).state.total() as nat == final(self).flushed@.len(),
            tracks(
                final(self).state.digests(),
                final(self).state.entry_lens(),
                final(self).flushed@,
            ),
            !final(self).state.is_closed(),
            final(self).state.digests().len() >= 1,
            final(self).state.push_unit() == old(self).job_size as nat,
    {
        let h = hash_recurse(self.buf.as_slice(), Finalization::NotRoot);
        let blen = self.buf.len();
        proof {
            crate::geometry::lemma_chunk_pow2_ge(self.job_size as nat);
            if self.state.digests().len() >= 1 {
                lemma_uniform_chunk(self.state.entry_lens(), self.state.push_unit());
            }
            lemma_carry_tracks(
                self.state.digests(),
                self.state.entry_lens(),
                self.state.total() as nat,
                self.flushed@,
                if self.state.digests().len() == 0 {
                    self.job_size as nat
                } else {
                    self.state.push_unit()
                },
            );
        }
        let ghost old_digests = self.state.digests();
        let ghost old_lens = self.state.entry_lens();
        let ghost old_total = self.state.total() as nat;
        self.state.push_subtree(&h, blen);
        proof {
            let (cds, cls) = carry_merges(old_digests, old_lens, old_total);
            lemma_tracks_append(cds, cls, self.flushed@, self.buf@);
            self.flushed@ = self.flushed@ + self.buf@;
        }
        self.buf.clear();
        self.first_job = false;
        proof {
            assert(self.written() =~= self.flushed@);
        }
    }

    /// Accept a slice of input. The whole slice is always consumed and its
    /// length returned; the writer's record of written bytes grows by
    /// exactly the slice.
    pub fn write(&mut self, input: &[u8]) -> (n: usize)
        requires
            old(self).wf(),
            old(self).written().len() + input@.len() <= u64::MAX,
        ensures
            final(self).wf(),
            final(self).written() == old(self).written() + input@,
            n == input@.len(),
    {
        let ghost w0 = self.written();
        let mut i: usize = 0;
        while i < input.len()
            invariant
                self.wf(),
                i <= input@.len(),
                self.written() == w0 + input@.take(i as int),
                w0.len() + input@.len() <= u64::MAX,
            decreases input@.len() - i,
        {
            if self.buf.len() == self.job_size {
                self.dispatch_buf();
            }
            let want = self.job_size - self.buf.len();
            let remaining = input.len() - i;
            let take = if want < remaining {
                want
            } else {
                remaining
            };
            let part = slice_subrange(input, i, i + take);
            let ghost buf_before = self.buf@;
            push_all(&mut self.buf, part);
            proof {
                assert(self.written() =~= self.flushed@ + buf_before + part@);
                assert((w0 + input@.take(i as int)) + input@.subrange(
                    i as int,
                    i as int + take as int,
                ) =~= w0 + input@.take(i as int + take as int));
            }
            i = i + take;
        }
        proof {
            assert(w0 + input@.take(input@.len() as int) =~= w0 + input@);
        }
        input.len()
    }

    /// Return the root digest of everything written. The writer must not be
    /// used afterwards.
    pub fn finish(&mut self) -> (r: [u8; 32])
        requires
            old(self).wf(),
        ensures
            r@ == spec_hash(old(self).written()),
    {
        if self.first_job {
            let root = hash_recurse(
                self.buf.as_slice(),
                Finalization::Root(self.buf.len() as u64),
            );
            proof {
                assert(self.written() =~= self.buf@);
            }
            return root;
        }
        let h = hash_recurse(self.buf.as_slice(), Finalization::NotRoot);
        let blen = self.buf.len();
        proof {
            crate::geometry::lemma_chunk_pow2_ge(self.job_size as nat);
            lemma_uniform_chunk(self.state.entry_lens(), self.state.push_unit());
            lemma_carry_tracks(
                self.state.digests(),
                self.state.entry_lens(),
                self.state.total() as nat,
                self.flushed@,
                self.state.push_unit(),
            );
        }
        let ghost old_digests = self.state.digests();
        let ghost old_lens = self.state.entry_lens();
        let ghost old_total = self.state.total() as nat;
        self.state.push_subtree(&h, blen);
        proof {
            let (cds, cls) = carry_merges(old_digests, old_lens, old_total);
            lemma_tracks_append(cds, cls, self.flushed@, self.buf@);
            assert(self.flushed@ + self.buf@ =~= self.written());
            // at least one whole job was flushed, so the chunk count is
            // positive and the stack holds at least two digests
            assert(old_lens.len() >= 1);
            assert(sum_lens(old_lens) >= old_lens[0]) by {
                assert(sum_lens(old_lens) == old_lens[0] + sum_lens(old_lens.skip(1)));
            }
            assert(old_lens[0] >= CHUNK_SIZE) by {
                lemma_uniform_chunk(old_lens, self.state.push_unit());
                crate::geometry::lemma_chunk_pow2_ge(old_lens[0]);
            }
            assert(old_total as nat / (CHUNK_SIZE as nat) >= 1) by {
                vstd::arithmetic::div_mod::lemma_div_is_ordered(
                    CHUNK_SIZE as int,
                    old_total as int,
                    CHUNK_SIZE as int,
                );
                assert((CHUNK_SIZE as int) / (CHUNK_SIZE as int) == 1);
            }
            lemma_popcount_pos(old_total / (CHUNK_SIZE as nat));
            assert(self.state.digests().len() >= 2);
            lemma_fold_finish_root(
                self.state.digests(),
                self.state.entry_lens(),
                self.written(),
            );
        }
        self.state.finish()
    }
}

} // verus!
