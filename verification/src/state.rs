//! The incremental merging state: it receives subtree digests left to right
//! together with the byte lengths they cover, merges completed sibling pairs
//! into parents, and finally folds the stack into the root digest.
use vstd::prelude::*;
use crate::CHUNK_SIZE;
use crate::MAX_DEPTH;
use crate::geometry::is_chunk_pow2;
use crate::geometry::lemma_popcount_bound;
use crate::geometry::popcount;
use crate::geometry::popcount_u64;
use crate::geometry::two_pow;
use crate::merge::carry_merges;
use crate::merge::fold_finish;
use crate::merge::lemma_sum_merge;
use crate::merge::lemma_sum_push;
use crate::merge::lemma_merge_uniform;
use crate::merge::lemma_uniform_chunk;
use crate::merge::lemma_uniform_merge_shape;
use crate::merge::merge_once_digests;
use crate::merge::merge_once_lens;
use crate::merge::needs_merge_spec;
use crate::merge::staircase;
use crate::merge::sum_lens;
use crate::merge::uniform;
use crate::node::Finalization;
use crate::node::parent_hash;
use crate::node::push_all;
use crate::node::spec_parent_hash;

verus! {

#[verifier::external_type_specification]
#[verifier::external_body]
#[verifier::reject_recursive_types(T)]
pub struct ExArrayVec<T, const CAP: usize>(arrayvec::ArrayVec<T, CAP>);

/// The digests held by the subtree stack, bottom (leftmost) first.
pub uninterp spec fn stack_digests(v: arrayvec::ArrayVec<[u8; 32], 64>) -> Seq<Seq<u8>>;

/// Relies on arrayvec's `ArrayVec::new`: the new vector is empty.
#[verifier::external_body]
fn stack_new() -> (v: arrayvec::ArrayVec<[u8; 32], 64>)
    ensures
        stack_digests(v) == Seq::<Seq<u8>>::empty(),
{
    arrayvec::ArrayVec::new()
}

/// Relies on arrayvec's `ArrayVec::push`, which appends the element when the
/// vector is below its capacity of 64.
#[verifier::external_body]
fn stack_push(v: &mut arrayvec::ArrayVec<[u8; 32], 64>, h: [u8; 32])
    requires
        stack_digests(*old(v)).len() < 64,
    ensures
        stack_digests(*final(v)) == stack_digests(*old(v)).push(h@),
{
    v.push(h)
}

/// Relies on arrayvec's `ArrayVec::pop`: it removes and returns the last
/// element, or returns `None` when the vector is empty.
#[verifier::external_body]
fn stack_pop(v: &mut arrayvec::ArrayVec<[u8; 32], 64>) -> (r: Option<[u8; 32]>)
    ensures
        match r {
            Some(h) => stack_digests(*old(v)).len() >= 1 && h@ == stack_digests(*old(v)).last()
                && stack_digests(*final(v)) == stack_digests(*old(v)).drop_last(),
            None => stack_digests(*old(v)).len() == 0 && stack_digests(*final(v)) == stack_digests(
                *old(v),
            ),
        },
{
    v.pop()
}

/// Relies on arrayvec's `ArrayVec::len`.
#[verifier::external_body]
fn stack_len(v: &arrayvec::ArrayVec<[u8; 32], 64>) -> (n: usize)
    ensures
        n == stack_digests(*v).len(),
{
    v.len()
}

/// Relies on arrayvec's slice indexing (through `Deref` to `[T]`).
#[verifier::external_body]
fn stack_get(v: &arrayvec::ArrayVec<[u8; 32], 64>, i: usize) -> (h: [u8; 32])
    requires
        i < stack_digests(*v).len(),
    ensures
        h@ == stack_digests(*v)[i as int],
{
    v[i]
}

/// What `merge_finish` hands back: either the 64 bytes of a completed parent
/// node, or the root digest once a single subtree remains.
pub enum StateFinish {
    Parent(Vec<u8>),
    Root([u8; 32]),
}

/// A minimal state object for incrementally hashing input. It takes subtree
/// digests rather than raw bytes, so chunks may be hashed elsewhere (even in
/// parallel) and fed in left to right.
pub struct State {
    subtrees: arrayvec::ArrayVec<[u8; 32], 64>,
    total_len: u64,
    lens: Ghost<Seq<nat>>,
    unit: Ghost<nat>,
    closed: Ghost<bool>,
}

impl State {
    /// The subtree digests on the stack, leftmost first.
    pub closed spec fn digests(self) -> Seq<Seq<u8>> {
        stack_digests(self.subtrees)
    }

    /// The byte lengths covered by the stacked subtrees, leftmost first.
    pub closed spec fn entry_lens(self) -> Seq<nat> {
        self.lens@
    }

    /// The total number of bytes covered so far.
    pub closed spec fn total(self) -> u64 {
        self.total_len
    }

    /// The size every push but the final one must use.
    pub closed spec fn push_unit(self) -> nat {
        self.unit@
    }

    /// Whether a short (final) push or a finishing merge has happened, after
    /// which no further subtree may be pushed.
    pub closed spec fn is_closed(self) -> bool {
        self.closed@
    }

    /// The state invariant: lengths and digests pair up, the lengths form a
    /// staircase summing to the total, the stack stays within `MAX_DEPTH`,
    /// and while the state is open every entry is a power of two times the
    /// push unit.
    pub open spec fn wf(self) -> bool {
        &&& self.entry_lens().len() == self.digests().len()
        &&& sum_lens(self.entry_lens()) == self.total() as nat
        &&& staircase(self.entry_lens())
        &&& self.digests().len() <= MAX_DEPTH
        &&& (self.digests().len() >= 1 && !self.is_closed() ==> is_chunk_pow2(self.push_unit())
            && uniform(self.entry_lens(), self.push_unit()))
    }

    /// Create an empty state covering no bytes.
    pub fn new() -> (s: State)
        ensures
            s.wf(),
            s.digests() == Seq::<Seq<u8>>::empty(),
            s.entry_lens() == Seq::<nat>::empty(),
            s.total() == 0,
            !s.is_closed(),
    {
        let s = State {
            subtrees: stack_new(),
            total_len: 0,
            lens: Ghost(Seq::empty()),
            unit: Ghost(0),
            closed: Ghost(false),
        };
        proof {
            assert(sum_lens(Seq::<nat>::empty()) == 0);
        }
        s
    }

    /// Whether the stack holds more digests than the chunk count has set
    /// bits, so that the top two subtrees are siblings ready to merge.
    fn needs_merge(&self) -> (b: bool)
        ensures
            b == needs_merge_spec(self.digests().len(), self.total() as nat),
    {
        let chunks = self.total_len / (CHUNK_SIZE as u64);
        let pc = popcount_u64(chunks);
        (stack_len(&self.subtrees) as u64) > pc
    }

    /// Pop the top two digests, push their parent, and return the 64 parent
    /// node bytes (left digest, then right digest).
    fn merge_inner(&mut self, finalization: Finalization) -> (pn: Vec<u8>)
        requires
            old(self).digests().len() >= 2,
            old(self).digests().len() <= MAX_DEPTH,
            old(self).entry_lens().len() == old(self).digests().len(),
        ensures
            final(self).digests() == merge_once_digests(old(self).digests(), finalization),
            final(self).entry_lens() == merge_once_lens(old(self).entry_lens()),
            final(self).total() == old(self).total(),
            final(self).push_unit() == old(self).push_unit(),
            final(self).is_closed() == old(self).is_closed(),
            pn@ == old(self).digests()[old(self).digests().len() - 2] + old(self).digests()[old(self).digests().len() - 1],
    {
        let ghost ds0 = self.digests();
        let ghost k = ds0.len() as int;
        let right = stack_pop(&mut self.subtrees).unwrap();
        let left = stack_pop(&mut self.subtrees).unwrap();
        proof {
            assert(ds0.drop_last() =~= ds0.take(k - 1));
            assert(ds0.take(k - 1).drop_last() =~= ds0.take(k - 2));
            assert(ds0.take(k - 1).last() == ds0[k - 2]);
            assert(right@ == ds0[k - 1]);
            assert(left@ == ds0[k - 2]);
        }
        let mut pn: Vec<u8> = Vec::new();
        push_all(&mut pn, left.as_slice());
        push_all(&mut pn, right.as_slice());
        proof {
            assert(pn@ =~= left@ + right@);
        }
        let parent = parent_hash(&left, &right, finalization);
        stack_push(&mut self.subtrees, parent);
        proof {
            let ls0 = self.lens@;
            self.lens@ = ls0.take(ls0.len() - 2).push(
                (ls0[ls0.len() - 2] + ls0[ls0.len() - 1]) as nat,
            );
        }
        pn
    }

    /// Add a subtree digest covering `len` bytes. Every push must use one
    /// fixed length, a power of two times the chunk size, except the final
    /// push, which may cover anything from one byte up to that length; a
    /// first and only push may cover any nonzero length. Pending sibling
    /// pairs are merged as interior nodes before the new digest is appended,
    /// so afterwards the stack holds one digest per set bit of the previous
    /// chunk count, plus the new entry.
    #[verifier::rlimit(100)]
    pub fn push_subtree(&mut self, hash: &[u8; 32], len: usize)
        requires
            old(self).wf(),
            !old(self).is_closed(),
            len >= 1,
            old(self).total() + len <= u64::MAX,
            old(self).digests().len() >= 1 ==> len as nat <= old(self).push_unit(),
        ensures
            final(self).wf(),
            final(self).total() == old(self).total() + len,
            ({
                let (cds, cls) = carry_merges(
                    old(self).digests(),
                    old(self).entry_lens(),
                    old(self).total() as nat,
                );
                final(self).digests() == cds.push(hash@) && final(self).entry_lens() == cls.push(
                    len as nat,
                )
            }),
            final(self).digests().len() == popcount(
                old(self).total() as nat / (CHUNK_SIZE as nat),
            ) + 1,
            final(self).push_unit() == if old(self).digests().len() == 0 {
                len as nat
            } else {
                old(self).push_unit()
            },
            final(self).is_closed() == if old(self).digests().len() == 0 {
                !is_chunk_pow2(len as nat)
            } else {
                (len as nat) < old(self).push_unit()
            },
    {
        let ghost ds0 = self.digests();
        let ghost ls0 = self.entry_lens();
        let ghost t0 = self.total_len;
        let ghost u0 = self.unit@;
        while self.needs_merge()
            invariant
                self.entry_lens().len() == self.digests().len(),
                self.digests().len() <= MAX_DEPTH,
                self.total_len == t0,
                sum_lens(self.entry_lens()) == t0 as nat,
                staircase(self.entry_lens()),
                self.unit@ == u0,
                self.closed@ == false,
                self.digests().len() >= 1 ==> is_chunk_pow2(u0) && uniform(self.entry_lens(), u0),
                carry_merges(ds0, ls0, t0 as nat) == carry_merges(
                    self.digests(),
                    self.entry_lens(),
                    t0 as nat,
                ),
            decreases self.digests().len(),
        {
            proof {
                lemma_uniform_merge_shape(self.entry_lens(), u0, t0 as nat);
                lemma_merge_uniform(self.entry_lens(), u0);
                lemma_sum_merge(self.entry_lens());
            }
            let _pn = self.merge_inner(Finalization::NotRoot);
        }
        proof {
            lemma_uniform_merge_shape(self.entry_lens(), u0, t0 as nat);
            if self.digests().len() == 0 {
                assert(sum_lens(Seq::<nat>::empty()) == 0);
                assert(t0 == 0);
                assert(popcount(0nat / (CHUNK_SIZE as nat)) == 0);
            }
            assert(self.digests().len() == popcount(t0 as nat / (CHUNK_SIZE as nat)));
            assert(two_pow(52) == 0x10_0000_0000_0000nat) by {
                reveal_with_fuel(two_pow, 53);
            }
            assert(t0 as nat / (CHUNK_SIZE as nat) < two_pow(52)) by {
                vstd::arithmetic::div_mod::lemma_div_is_ordered(
                    t0 as int,
                    0xffff_ffff_ffff_ffff as int,
                    CHUNK_SIZE as int,
                );
                assert(0xffff_ffff_ffff_ffffnat / (CHUNK_SIZE as nat) == 0xf_ffff_ffff_ffffnat);
            }
            lemma_popcount_bound(t0 as nat / (CHUNK_SIZE as nat), 52);
            assert(self.digests().len() < 64);
        }
        let ghost cds = self.digests();
        let ghost cls = self.entry_lens();
        stack_push(&mut self.subtrees, *hash);
        self.total_len = self.total_len + (len as u64);
        proof {
            self.lens@ = cls.push(len as nat);
            self.unit@ = if ds0.len() == 0 {
                len as nat
            } else {
                u0
            };
            self.closed@ = if ds0.len() == 0 {
                !is_chunk_pow2(len as nat)
            } else {
                (len as nat) < u0
            };
            lemma_sum_push(cls, len as nat);
            if cds.len() >= 1 {
                lemma_uniform_chunk(cls, u0);
                assert(cls[cls.len() - 1] >= u0);
            }
            if cds.len() >= 2 {
                if cls[cls.len() - 1] == cls[cls.len() - 2] {
                    lemma_uniform_chunk(cls, u0);
                    crate::merge::lemma_dup_popcount(cls);
                    assert(false);
                }
            }
            assert(staircase(self.entry_lens())) by {
                let nl = self.entry_lens();
                assert(forall|i: int| 0 <= i < nl.len() - 1 ==> nl[i] == cls[i]);
                assert forall|i: int| 0 <= i < nl.len() - 2 implies #[trigger] nl[i] > nl[i + 1] by {
                    if i == nl.len() - 3 && cds.len() >= 2 {
                        assert(cls[cls.len() - 2] > cls[cls.len() - 1]);
                    }
                }
            }
            if self.digests().len() >= 1 && !self.is_closed() {
                let nl = self.entry_lens();
                if ds0.len() == 0 {
                    assert(cds.len() == 0);
                    assert(forall|i: int| 0 <= i < nl.len() ==> nl[i] == len as nat);
                    assert((len as nat) % (len as nat) == 0);
                    assert((len as nat) / (len as nat) == 1);
                } else {
                    assert(len as nat == u0);
                    assert(u0 % u0 == 0);
                    assert(u0 / u0 == 1);
                    assert(forall|i: int| 0 <= i < nl.len() - 1 ==> nl[i] == cls[i]);
                }
            }
        }
    }

    /// If the top two subtrees are completed siblings, merge them as an
    /// interior node and hand back the 64 parent node bytes; otherwise
    /// report that nothing is pending. When nothing is pending the stack
    /// holds exactly one digest per set bit of the chunk count. Callers
    /// building an encoded tree drive this in a loop between pushes;
    /// after the final push, use `merge_finish` instead.
    pub fn merge_parent(&mut self) -> (r: Option<Vec<u8>>)
        requires
            old(self).wf(),
            !old(self).is_closed(),
        ensures
            final(self).wf(),
            !final(self).is_closed(),
            final(self).total() == old(self).total(),
            final(self).push_unit() == old(self).push_unit(),
            needs_merge_spec(old(self).digests().len(), old(self).total() as nat) ==> (r matches
                Some(pn) && pn@ == old(self).digests()[old(self).digests().len() - 2] + old(self).digests()[old(self).digests().len() - 1] && final(self).digests()
                == merge_once_digests(old(self).digests(), Finalization::NotRoot) && final(self).entry_lens() == merge_once_lens(old(self).entry_lens())),
            !needs_merge_spec(old(self).digests().len(), old(self).total() as nat) ==> (r
                is None && final(self).digests() == old(self).digests() && final(self).entry_lens()
                == old(self).entry_lens() && final(self).digests().len() == popcount(
                old(self).total() as nat / (CHUNK_SIZE as nat),
            )),
    {
        proof {
            lemma_uniform_merge_shape(self.entry_lens(), self.unit@, self.total_len as nat);
            if self.digests().len() == 0 {
                assert(sum_lens(Seq::<nat>::empty()) == 0);
                assert(popcount(0nat / (CHUNK_SIZE as nat)) == 0);
            }
        }
        if !self.needs_merge() {
            return None;
        }
        proof {
            lemma_merge_uniform(self.entry_lens(), self.unit@);
            lemma_sum_merge(self.entry_lens());
        }
        Some(self.merge_inner(Finalization::NotRoot))
    }

    /// One finishing step, legal only after the final push. With three or
    /// more subtrees pending, the top two merge as an interior node and the
    /// parent bytes come back; with exactly two, they merge under the root
    /// finalization (the root digest is then the single entry left); with
    /// one, that digest is returned as the root.
    pub fn merge_finish(&mut self) -> (r: StateFinish)
        requires
            old(self).wf(),
            old(self).digests().len() >= 1,
        ensures
            final(self).wf(),
            final(self).total() == old(self).total(),
            old(self).digests().len() >= 3 ==> (r matches StateFinish::Parent(pn) && pn@ == old(self).digests()[old(self).digests().len() - 2] + old(self).digests()[old(self).digests().len() - 1] && final(self).digests() == merge_once_digests(
                old(self).digests(),
                Finalization::NotRoot,
            ) && final(self).digests().len() == old(self).digests().len() - 1),
            old(self).digests().len() == 2 ==> (r matches StateFinish::Parent(pn) && pn@ == old(self).digests()[0] + old(self).digests()[1] && final(self).digests()
                == merge_once_digests(
                old(self).digests(),
                Finalization::Root(old(self).total()),
            ) && final(self).digests().len() == 1),
            old(self).digests().len() == 1 ==> (r matches StateFinish::Root(h) && h@ == old(self).digests()[0] && final(self).digests() == old(self).digests()),
    {
        let k = stack_len(&self.subtrees);
        if k > 2 {
            proof {
                let ls = self.entry_lens();
                crate::geometry::lemma_chunk_pow2_gap(ls[ls.len() - 3], ls[ls.len() - 2]);
                lemma_sum_merge(ls);
                assert(forall|i: int|
                    0 <= i < merge_once_lens(ls).len() - 1 ==> merge_once_lens(ls)[i] == ls[i]);
            }
            let pn = self.merge_inner(Finalization::NotRoot);
            proof {
                self.closed@ = true;
            }
            StateFinish::Parent(pn)
        } else if k == 2 {
            let root_len = self.total_len;
            proof {
                lemma_sum_merge(self.entry_lens());
            }
            let pn = self.merge_inner(Finalization::Root(root_len));
            proof {
                self.closed@ = true;
            }
            StateFinish::Parent(pn)
        } else {
            let h = stack_get(&self.subtrees, 0);
            StateFinish::Root(h)
        }
    }

    /// Drive `merge_finish` to completion, discard the parent bytes, and
    /// return the root digest: the fold of the pushed subtree digests.
    #[verifier::rlimit(60)]
    #[verifier::loop_isolation(false)]
    pub fn finish(&mut self) -> (r: [u8; 32])
        requires
            old(self).wf(),
            old(self).digests().len() >= 1,
        ensures
            r@ == fold_finish(old(self).digests(), old(self).total() as nat),
    {
        let ghost d0 = self.digests();
        let ghost t0 = self.total_len;
        loop
            invariant
                self.wf(),
                self.digests().len() >= 1,
                self.total_len == t0,
                fold_finish(self.digests(), t0 as nat) == fold_finish(d0, t0 as nat),
            decreases self.digests().len(),
        {
            let ghost cur = self.digests();
            match self.merge_finish() {
                StateFinish::Parent(_) => {
                    proof {
                        if cur.len() >= 3 {
                            assert(fold_finish(cur, t0 as nat) == fold_finish(
                                merge_once_digests(cur, Finalization::NotRoot),
                                t0 as nat,
                            ));
                        } else {
                            assert(cur.len() == 2);
                            let root_fin = Finalization::Root(t0);
                            assert(self.digests() == merge_once_digests(cur, root_fin));
                            assert(merge_once_digests(cur, root_fin) == cur.take(0).push(
                                spec_parent_hash(cur[0], cur[1], root_fin),
                            ));
                            assert(self.digests()[0] == spec_parent_hash(cur[0], cur[1], root_fin));
                            assert((t0 as nat) as u64 == t0);
                            assert(fold_finish(cur, t0 as nat) == spec_parent_hash(
                                cur[0],
                                cur[1],
                                root_fin,
                            ));
                            assert(fold_finish(self.digests(), t0 as nat) == self.digests()[0]);
                        }
                    }
                },
                StateFinish::Root(root) => {
                    proof {
                        assert(cur.len() == 1);
                        assert(fold_finish(cur, t0 as nat) == cur[0]);
                        assert(root@ == cur[0]);
                        assert(root@ == fold_finish(d0, t0 as nat));
                    }
                    return root;
                },
            }
        }
    }
}

} // verus!
