use vstd::arithmetic::power2::{
    lemma2_to64, lemma_pow2_strictly_increases, lemma_pow2_unfold, pow2,
};
use vstd::prelude::*;

use crate::hierarchy::mapped::{map_anonymous, mapped_byte, mapped_bytes, set_mapped_byte};
use memmap2::MmapMut;

verus! {

/// Largest number of elements a union-find can hold: parents are stored as `u32`.
pub open spec fn max_elements() -> int {
    0x1_0000_0000
}

/// Storage for the parent and rank of every element of a union-find.
pub trait UnionFindBackend: Sized {
    /// Parent of each element.
    spec fn parents(&self) -> Seq<u32>;

    /// Rank of each element.
    spec fn ranks(&self) -> Seq<u8>;

    /// What the backend needs of its own representation.
    spec fn backend_wf(&self) -> bool;

    fn get_parent(&self, i: usize) -> (r: u32)
        requires
            self.backend_wf(),
            i < self.parents().len(),
        ensures
            r == self.parents()[i as int],
    ;

    fn set_parent(&mut self, i: usize, parent: u32)
        requires
            old(self).backend_wf(),
            i < old(self).parents().len(),
        ensures
            final(self).backend_wf(),
            final(self).parents() == old(self).parents().update(i as int, parent),
            final(self).ranks() == old(self).ranks(),
    ;

    fn get_rank(&self, i: usize) -> (r: u8)
        requires
            self.backend_wf(),
            i < self.ranks().len(),
        ensures
            r == self.ranks()[i as int],
    ;

    fn set_rank(&mut self, i: usize, rank: u8)
        requires
            old(self).backend_wf(),
            i < old(self).ranks().len(),
        ensures
            final(self).backend_wf(),
            final(self).ranks() == old(self).ranks().update(i as int, rank),
            final(self).parents() == old(self).parents(),
    ;

    fn size(&self) -> (r: usize)
        requires
            self.backend_wf(),
        ensures
            r == self.parents().len(),
    ;
}

/// In-memory backend: parent and rank packed side by side.
#[derive(Debug)]
pub struct VecBackend {
    data: Vec<(u32, u8)>,
}

impl VecBackend {
    /// Every element its own parent, every rank zero.
    fn new(size: usize) -> (b: Self)
        requires
            size <= max_elements(),
        ensures
            b.backend_wf(),
            b.parents() == Seq::new(size as nat, |i: int| i as u32),
            b.ranks() == Seq::new(size as nat, |i: int| 0u8),
    {
        let mut data: Vec<(u32, u8)> = Vec::with_capacity(size);
        let mut i: usize = 0;
        while i < size
            invariant
                i <= size,
                size <= max_elements(),
                data@.len() == i,
                forall|j: int| 0 <= j < i ==> #[trigger] data@[j] == (j as u32, 0u8),
            decreases size - i,
        {
            data.push((i as u32, 0u8));
            i = i + 1;
        }
        let b = VecBackend { data };
        assert(b.parents() =~= Seq::new(size as nat, |i: int| i as u32));
        assert(b.ranks() =~= Seq::new(size as nat, |i: int| 0u8));
        b
    }

    /// Element-wise copy.
    fn copy(&self) -> (b: Self)
        ensures
            b.data@ == self.data@,
    {
        let n = self.data.len();
        let mut data: Vec<(u32, u8)> = Vec::with_capacity(n);
        let mut i: usize = 0;
        while i < n
            invariant
                i <= n,
                n == self.data@.len(),
                data@ == self.data@.subrange(0, i as int),
            decreases n - i,
        {
            data.push(self.data[i]);
            i = i + 1;
            assert(data@ =~= self.data@.subrange(0, i as int));
        }
        assert(data@ =~= self.data@);
        VecBackend { data }
    }
}

impl UnionFindBackend for VecBackend {
    closed spec fn parents(&self) -> Seq<u32> {
        self.data@.map_values(|e: (u32, u8)| e.0)
    }

    closed spec fn ranks(&self) -> Seq<u8> {
        self.data@.map_values(|e: (u32, u8)| e.1)
    }

    closed spec fn backend_wf(&self) -> bool {
        true
    }

    fn get_parent(&self, i: usize) -> (r: u32) {
        self.data[i].0
    }

    fn set_parent(&mut self, i: usize, parent: u32) {
        let rank = self.data[i].1;
        self.data.set(i, (parent, rank));
        assert(self.parents() =~= old(self).parents().update(i as int, parent));
        assert(self.ranks() =~= old(self).ranks());
    }

    fn get_rank(&self, i: usize) -> (r: u8) {
        self.data[i].1
    }

    fn set_rank(&mut self, i: usize, rank: u8) {
        let parent = self.data[i].0;
        self.data.set(i, (parent, rank));
        assert(self.ranks() =~= old(self).ranks().update(i as int, rank));
        assert(self.parents() =~= old(self).parents());
    }

    fn size(&self) -> (r: usize) {
        self.data.len()
    }
}

/// The little-endian `u32` stored at `off`.
pub open spec fn decode_parent(b: Seq<u8>, off: int) -> u32 {
    (b[off] as u32) | ((b[off + 1] as u32) << 8u32) | ((b[off + 2] as u32) << 16u32) | ((
    b[off + 3] as u32) << 24u32)
}

/// Backend held in an anonymous memory mapping, for element counts that are
/// better left to the operating system's paging.
#[derive(Debug)]
pub struct MmapBackend {
    mmap: MmapMut,
    size: usize,
}

proof fn lemma_le_bytes_roundtrip(p: u32)
    ensures
        ((p & 0xff) as u8 as u32) | ((((p >> 8u32) & 0xff) as u8 as u32) << 8u32) | ((((p
            >> 16u32) & 0xff) as u8 as u32) << 16u32) | ((((p >> 24u32) & 0xff) as u8 as u32)
            << 24u32) == p,
{
    assert(((p & 0xff) as u8 as u32) | ((((p >> 8u32) & 0xff) as u8 as u32) << 8u32) | ((((p
        >> 16u32) & 0xff) as u8 as u32) << 16u32) | ((((p >> 24u32) & 0xff) as u8 as u32)
        << 24u32) == p) by (bit_vector);
}

impl MmapBackend {
    /// Write the parent of element `i` into its slot.
    fn write_parent(&mut self, i: usize, parent: u32)
        requires
            old(self).backend_wf(),
            i < old(self).size,
        ensures
            final(self).size == old(self).size,
            final(self).backend_wf(),
            mapped_bytes(final(self).mmap) == {
                let b = mapped_bytes(old(self).mmap);
                let off = 5 * i;
                b.update(off, (parent & 0xff) as u8).update(off + 1, ((parent >> 8u32) & 0xff) as u8)
                .update(off + 2, ((parent >> 16u32) & 0xff) as u8).update(off + 3, ((parent >> 24u32) & 0xff) as u8)
            },
    {
        let off = i * 5;
        set_mapped_byte(&mut self.mmap, off, (parent & 0xff) as u8);
        set_mapped_byte(&mut self.mmap, off + 1, ((parent >> 8u32) & 0xff) as u8);
        set_mapped_byte(&mut self.mmap, off + 2, ((parent >> 16u32) & 0xff) as u8);
        set_mapped_byte(&mut self.mmap, off + 3, ((parent >> 24u32) & 0xff) as u8);
    }

    /// Every element its own parent, every rank zero, in a fresh anonymous mapping.
    fn new(size: usize) -> (r: Result<Self, std::io::Error>)
        requires
            size <= max_elements(),
            5 * size <= usize::MAX,
        ensures
            r matches Ok(b) ==> {
                &&& b.backend_wf()
                &&& b.parents() == Seq::new(size as nat, |i: int| i as u32)
                &&& b.ranks() == Seq::new(size as nat, |i: int| 0u8)
            },
    {
        let mmap = match map_anonymous(size * 5) {
            Ok(m) => m,
            Err(e) => {
                return Err(e);
            },
        };
        let mut b = MmapBackend { mmap, size };
        assert(b.backend_wf());
        let mut i: usize = 0;
        while i < size
            invariant
                i <= size,
                b.size == size,
                size <= max_elements(),
                b.backend_wf(),
                forall|j: int|
                    0 <= j < i ==> #[trigger] decode_parent(mapped_bytes(b.mmap), 5 * j) == j as u32,
                forall|j: int| 0 <= j < i ==> #[trigger] mapped_bytes(b.mmap)[5 * j + 4] == 0u8,
            decreases size - i,
        {
            let ghost before = mapped_bytes(b.mmap);
            b.write_parent(i, i as u32);
            let ghost mid = mapped_bytes(b.mmap);
            set_mapped_byte(&mut b.mmap, i * 5 + 4, 0u8);
            proof {
                let after = mapped_bytes(b.mmap);
                let p = i as u32;
                lemma_le_bytes_roundtrip(p);
                assert(after[5 * i] == (p & 0xff) as u8);
                assert(after[5 * i + 1] == ((p >> 8u32) & 0xff) as u8);
                assert(after[5 * i + 2] == ((p >> 16u32) & 0xff) as u8);
                assert(after[5 * i + 3] == ((p >> 24u32) & 0xff) as u8);
                assert(decode_parent(after, 5 * i) == p);
                assert forall|j: int| 0 <= j < i + 1 implies #[trigger] decode_parent(after, 5 * j)
                    == j as u32 by {
                    if j < i {
                        assert(after[5 * j] == before[5 * j]);
                        assert(after[5 * j + 1] == before[5 * j + 1]);
                        assert(after[5 * j + 2] == before[5 * j + 2]);
                        assert(after[5 * j + 3] == before[5 * j + 3]);
                        assert(decode_parent(before, 5 * j) == j as u32);
                    }
                }
                assert forall|j: int| 0 <= j < i + 1 implies #[trigger] after[5 * j + 4] == 0u8 by {
                    if j < i {
                        assert(before[5 * j + 4] == 0u8);
                    }
                }
            }
            i = i + 1;
        }
        assert forall|j: int| 0 <= j < size implies #[trigger] b.parents()[j] == j as u32 by {
            assert(decode_parent(mapped_bytes(b.mmap), 5 * j) == j as u32);
        }
        assert forall|j: int| 0 <= j < size implies #[trigger] b.ranks()[j] == 0u8 by {
            assert(mapped_bytes(b.mmap)[5 * j + 4] == 0u8);
        }
        assert(b.parents() =~= Seq::new(size as nat, |i: int| i as u32));
        assert(b.ranks() =~= Seq::new(size as nat, |i: int| 0u8));
        Ok(b)
    }
}

impl UnionFindBackend for MmapBackend {
    closed spec fn parents(&self) -> Seq<u32> {
        Seq::new(self.size as nat, |i: int| decode_parent(mapped_bytes(self.mmap), 5 * i))
    }

    closed spec fn ranks(&self) -> Seq<u8> {
        Seq::new(self.size as nat, |i: int| mapped_bytes(self.mmap)[5 * i + 4])
    }

    closed spec fn backend_wf(&self) -> bool {
        &&& mapped_bytes(self.mmap).len() == 5 * self.size
        &&& 5 * self.size <= usize::MAX
    }

    fn get_parent(&self, i: usize) -> (r: u32) {
        let off = i * 5;
        let b0 = mapped_byte(&self.mmap, off) as u32;
        let b1 = mapped_byte(&self.mmap, off + 1) as u32;
        let b2 = mapped_byte(&self.mmap, off + 2) as u32;
        let b3 = mapped_byte(&self.mmap, off + 3) as u32;
        b0 | (b1 << 8u32) | (b2 << 16u32) | (b3 << 24u32)
    }

    fn set_parent(&mut self, i: usize, parent: u32) {
        let ghost before = mapped_bytes(self.mmap);
        self.write_parent(i, parent);
        proof {
            let after = mapped_bytes(self.mmap);
            lemma_le_bytes_roundtrip(parent);
            assert forall|j: int| 0 <= j < self.size implies #[trigger] self.parents()[j] == old(
                self,
            ).parents().update(i as int, parent)[j] by {
                if j != i {
                    assert(after[5 * j] == before[5 * j]);
                    assert(after[5 * j + 1] == before[5 * j + 1]);
                    assert(after[5 * j + 2] == before[5 * j + 2]);
                    assert(after[5 * j + 3] == before[5 * j + 3]);
                }
            }
            assert(self.parents() =~= old(self).parents().update(i as int, parent));
            assert forall|j: int| 0 <= j < self.size implies #[trigger] self.ranks()[j] == old(
                self,
            ).ranks()[j] by {
                assert(after[5 * j + 4] == before[5 * j + 4]);
            }
            assert(self.ranks() =~= old(self).ranks());
        }
    }

    fn get_rank(&self, i: usize) -> (r: u8) {
        mapped_byte(&self.mmap, i * 5 + 4)
    }

    fn set_rank(&mut self, i: usize, rank: u8) {
        let ghost before = mapped_bytes(self.mmap);
        set_mapped_byte(&mut self.mmap, i * 5 + 4, rank);
        proof {
            let after = mapped_bytes(self.mmap);
            assert forall|j: int| 0 <= j < self.size implies #[trigger] self.parents()[j] == old(
                self,
            ).parents()[j] by {
                assert(after[5 * j] == before[5 * j]);
                assert(after[5 * j + 1] == before[5 * j + 1]);
                assert(after[5 * j + 2] == before[5 * j + 2]);
                assert(after[5 * j + 3] == before[5 * j + 3]);
            }
            assert(self.parents() =~= old(self).parents());
            assert(self.ranks() =~= old(self).ranks().update(i as int, rank));
        }
    }

    fn size(&self) -> (r: usize) {
        self.size
    }
}

/// Sum of a sequence of naturals.
pub open spec fn seq_sum(s: Seq<nat>) -> nat
    decreases s.len(),
{
    if s.len() == 0 {
        0
    } else {
        seq_sum(s.drop_last()) + s.last()
    }
}

proof fn lemma_sum_update(s: Seq<nat>, i: int, v: nat)
    requires
        0 <= i < s.len(),
    ensures
        seq_sum(s.update(i, v)) + s[i] == seq_sum(s) + v,
    decreases s.len(),
{
    let t = s.update(i, v);
    if i == s.len() - 1 {
        assert(t.drop_last() =~= s.drop_last());
    } else {
        lemma_sum_update(s.drop_last(), i, v);
        assert(t.drop_last() =~= s.drop_last().update(i, v));
    }
}

proof fn lemma_elem_le_sum(s: Seq<nat>, i: int)
    requires
        0 <= i < s.len(),
    ensures
        s[i] <= seq_sum(s),
    decreases s.len(),
{
    if i < s.len() - 1 {
        lemma_elem_le_sum(s.drop_last(), i);
    }
}

proof fn lemma_two_le_sum(s: Seq<nat>, i: int, j: int)
    requires
        0 <= i < s.len(),
        0 <= j < s.len(),
        i != j,
    ensures
        s[i] + s[j] <= seq_sum(s),
{
    lemma_sum_update(s, i, 0);
    lemma_elem_le_sum(s.update(i, 0), j);
}

proof fn lemma_sum_ones(n: nat)
    ensures
        seq_sum(Seq::new(n, |i: int| 1nat)) == n,
    decreases n,
{
    if n > 0 {
        lemma_sum_ones((n - 1) as nat);
        assert(Seq::new(n, |i: int| 1nat).drop_last() =~= Seq::new((n - 1) as nat, |i: int| 1nat));
    }
}

/// `reps` maps each element to a representative that maps to itself.
pub open spec fn canonical(reps: Seq<int>) -> bool {
    forall|i: int|
        0 <= i < reps.len() ==> 0 <= #[trigger] reps[i] < reps.len() && reps[reps[i]] == reps[i]
}

/// The classes of `a` and `b` merged under `winner`; every other element keeps its representative.
pub open spec fn merged_reps(reps: Seq<int>, a: int, b: int, winner: int) -> Seq<int> {
    Seq::new(reps.len(), |i: int| if reps[i] == a || reps[i] == b { winner } else { reps[i] })
}

/// Disjoint-set forest with union by rank and path halving over a pluggable backend.
///
/// Its view maps every element to the representative of its set: the root
/// that `find` returns.
pub struct UnionFind<B: UnionFindBackend> {
    backend: B,
    reps: Ghost<Seq<int>>,
    counts: Ghost<Seq<nat>>,
}

impl<B: UnionFindBackend> View for UnionFind<B> {
    type V = Seq<int>;

    closed spec fn view(&self) -> Seq<int> {
        self.reps@
    }
}

impl<B: UnionFindBackend> UnionFind<B> {
    /// Ranks of all elements.
    pub closed spec fn ranks_view(&self) -> Seq<u8> {
        self.backend.ranks()
    }

    /// Rank of element `i` (an upper bound on the height of its subtree).
    pub open spec fn rank_of(&self, i: int) -> int {
        self.ranks_view()[i] as int
    }

    /// The representative that wins when the sets rooted at `a` and `b` are united.
    pub open spec fn union_winner(&self, a: int, b: int) -> int {
        if self.rank_of(a) < self.rank_of(b) {
            b
        } else {
            a
        }
    }

    /// The forest invariant: parents stay in range, following parents keeps
    /// the representative and strictly raises the rank, roots are their own
    /// representatives, and every root of rank `k` stands for at least `2^k`
    /// elements.
    pub closed spec fn wf(&self) -> bool {
        let p = self.backend.parents();
        let rk = self.backend.ranks();
        let rep = self.reps@;
        let cnt = self.counts@;
        let n = p.len();
        &&& self.backend.backend_wf()
        &&& rk.len() == n
        &&& rep.len() == n
        &&& cnt.len() == n
        &&& n <= max_elements()
        &&& forall|i: int| 0 <= i < n ==> (#[trigger] p[i] as int) < n
        &&& forall|i: int| 0 <= i < n ==> 0 <= #[trigger] rep[i] < n && p[rep[i]] == rep[i]
        &&& forall|i: int| 0 <= i < n ==> rep[#[trigger] p[i] as int] == rep[i]
        &&& forall|i: int| 0 <= i < n && #[trigger] p[i] == i ==> rep[i] == i
        &&& forall|i: int| 0 <= i < n && #[trigger] p[i] != i ==> rk[p[i] as int] > rk[i]
        &&& forall|i: int| 0 <= i < n && #[trigger] p[i] == i ==> pow2(rk[i] as nat) <= cnt[i]
        &&& seq_sum(cnt) == n
    }

    /// A well-formed union-find has a canonical view.
    pub proof fn lemma_canonical(&self)
        requires
            self.wf(),
        ensures
            canonical(self@),
            self@.len() <= max_elements(),
    {
        let p = self.backend.parents();
        let rep = self.reps@;
        assert forall|i: int| 0 <= i < rep.len() implies 0 <= #[trigger] rep[i] < rep.len()
            && rep[rep[i]] == rep[i] by {
            let r = rep[i];
            assert(p[r] == r);
        }
    }

    fn from_backend(backend: B, Ghost(n): Ghost<nat>) -> (uf: Self)
        requires
            backend.backend_wf(),
            n <= max_elements(),
            backend.parents() == Seq::new(n, |i: int| i as u32),
            backend.ranks() == Seq::new(n, |i: int| 0u8),
        ensures
            uf.wf(),
            uf@ == Seq::new(n, |i: int| i),
            uf.ranks_view() == Seq::new(n, |i: int| 0u8),
    {
        let uf = UnionFind {
            backend,
            reps: Ghost(Seq::new(n, |i: int| i)),
            counts: Ghost(Seq::new(n, |i: int| 1nat)),
        };
        proof {
            lemma_sum_ones(n);
            lemma2_to64();
            let p = uf.backend.parents();
            assert forall|i: int| 0 <= i < n implies #[trigger] p[i] == i by {
                assert((i as u32) as int == i);
            }
        }
        uf
    }

    /// Representative of the set holding `x`; halves the path on the way up.
    pub fn find(&mut self, x: usize) -> (r: usize)
        requires
            old(self).wf(),
            x < old(self)@.len(),
        ensures
            final(self).wf(),
            r == old(self)@[x as int],
            final(self)@ == old(self)@,
            final(self).ranks_view() == old(self).ranks_view(),
    {
        let mut x = x;
        let ghost x0 = x as int;
        let ghost target = self@[x0];
        while self.backend.get_parent(x) != x as u32
            invariant
                self.wf(),
                x < self@.len(),
                self@ == old(self)@,
                self.reps == old(self).reps,
                self.counts == old(self).counts,
                self.backend.ranks() == old(self).backend.ranks(),
                self@[x as int] == target,
            decreases 256 - self.backend.ranks()[x as int],
        {
            let ghost p = self.backend.parents();
            let ghost rk = self.backend.ranks();
            let ghost rep = self.reps@;
            let ghost n = p.len();
            let parent = self.backend.get_parent(x) as usize;
            let grandparent = self.backend.get_parent(parent);
            proof {
                assert(p[x as int] != x);
                assert(rk[parent as int] > rk[x as int]);
                assert(rep[parent as int] == rep[x as int]);
                assert(rep[grandparent as int] == rep[parent as int]);
                if p[parent as int] != parent {
                    assert(rk[grandparent as int] > rk[parent as int]);
                }
                assert(rk[grandparent as int] > rk[x as int]);
            }
            self.backend.set_parent(x, grandparent);
            proof {
                let p2 = self.backend.parents();
                assert(p2 == p.update(x as int, grandparent));
                assert forall|i: int| 0 <= i < n implies (#[trigger] p2[i] as int) < n by {
                    if i == x {
                    } else {
                        assert(p2[i] == p[i]);
                    }
                }
                assert forall|i: int| 0 <= i < n implies 0 <= #[trigger] rep[i] < n && p2[rep[i]]
                    == rep[i] by {
                    let r = rep[i];
                    assert(p[r] == r);
                    assert(r != x);
                }
                assert forall|i: int| 0 <= i < n implies rep[#[trigger] p2[i] as int] == rep[i] by {
                    if i == x {
                    } else {
                        assert(p2[i] == p[i]);
                    }
                }
                assert forall|i: int| 0 <= i < n && #[trigger] p2[i] == i implies rep[i] == i by {
                    if i == x {
                    } else {
                        assert(p2[i] == p[i]);
                    }
                }
                assert forall|i: int| 0 <= i < n && #[trigger] p2[i] != i implies rk[p2[i] as int]
                    > rk[i] by {
                    if i == x {
                    } else {
                        assert(p2[i] == p[i]);
                    }
                }
                assert forall|i: int| 0 <= i < n && #[trigger] p2[i] == i implies pow2(
                    rk[i] as nat,
                ) <= self.counts@[i] by {
                    if i == x {
                    } else {
                        assert(p2[i] == p[i]);
                    }
                }
            }
            x = grandparent as usize;
        }
        proof {
            let p = self.backend.parents();
            assert(p[x as int] == x);
        }
        x
    }

    /// Unite the sets holding `x` and `y`; the root of lower rank is attached
    /// under the other. Returns whether the two were in different sets.
    pub fn union(&mut self, x: usize, y: usize) -> (merged: bool)
        requires
            old(self).wf(),
            x < old(self)@.len(),
            y < old(self)@.len(),
        ensures
            final(self).wf(),
            merged == (old(self)@[x as int] != old(self)@[y as int]),
            final(self)@ == merged_reps(
                old(self)@,
                old(self)@[x as int],
                old(self)@[y as int],
                old(self).union_winner(old(self)@[x as int], old(self)@[y as int]),
            ),
            final(self)@[x as int] == final(self)@[y as int],
            final(self).ranks_view() == if merged && old(self).rank_of(old(self)@[x as int]) == old(self).rank_of(
                old(self)@[y as int],
            ) {
                old(self).ranks_view().update(
                    old(self)@[x as int],
                    (old(self).rank_of(old(self)@[x as int]) + 1) as u8,
                )
            } else {
                old(self).ranks_view()
            },
            forall|i: int, j: int|
                0 <= i < old(self)@.len() && 0 <= j < old(self)@.len() && old(self)@[i] == old(self)@[j] ==> #[trigger] final(self)@[i]
                    == #[trigger] final(self)@[j],
            forall|i: int, j: int|
                0 <= i < old(self)@.len() && 0 <= j < old(self)@.len() && #[trigger] final(self)@[i] == #[trigger] final(self)@[j]
                    ==> old(self)@[i] == old(self)@[j] || ((old(self)@[i] == old(self)@[x as int] || old(self)@[i]
                    == old(self)@[y as int]) && (old(self)@[j] == old(self)@[x as int] || old(self)@[j] == old(self)@[y as int])),
    {
        let ghost old_reps = self@;
        proof {
            self.lemma_canonical();
        }
        let root_x = self.find(x);
        let root_y = self.find(y);
        if root_x == root_y {
            proof {
                assert(merged_reps(old_reps, root_x as int, root_y as int, root_x as int)
                    =~= old_reps);
            }
            return false;
        }
        let ghost p = self.backend.parents();
        let ghost rk = self.backend.ranks();
        let ghost rep = self.reps@;
        let ghost cnt = self.counts@;
        let ghost n = p.len();
        let rank_x = self.backend.get_rank(root_x);
        let rank_y = self.backend.get_rank(root_y);
        proof {
            assert(old(self).rank_of(root_x as int) == rank_x);
            assert(old(self).rank_of(root_y as int) == rank_y);
            assert(p[root_x as int] == root_x);
            assert(p[root_y as int] == root_y);
            lemma_two_le_sum(cnt, root_x as int, root_y as int);
        }
        let ghost winner: int;
        let ghost loser: int;
        if rank_x < rank_y {
            self.backend.set_parent(root_x, root_y as u32);
            proof {
                winner = root_y as int;
                loser = root_x as int;
            }
        } else if rank_x > rank_y {
            self.backend.set_parent(root_y, root_x as u32);
            proof {
                winner = root_x as int;
                loser = root_y as int;
            }
        } else {
            self.backend.set_parent(root_y, root_x as u32);
            proof {
                winner = root_x as int;
                loser = root_y as int;
                let k = rank_x as nat;
                lemma_pow2_unfold(k + 1);
                lemma2_to64();
                if k + 1 > 32 {
                    lemma_pow2_strictly_increases(32, k + 1);
                }
                assert(k + 1 <= 32);
            }
            self.backend.set_rank(root_x, rank_x + 1);
        }
        let ghost new_reps = merged_reps(rep, root_x as int, root_y as int, winner);
        let ghost new_cnt = cnt.update(winner, cnt[root_x as int] + cnt[root_y as int]).update(
            loser,
            0nat,
        );
        self.reps = Ghost(new_reps);
        self.counts = Ghost(new_cnt);
        proof {
            let p2 = self.backend.parents();
            let rk2 = self.backend.ranks();
            assert(p2 == p.update(loser, winner as u32));
            assert((winner as u32) as int == winner);
            lemma_sum_update(cnt, winner, cnt[root_x as int] + cnt[root_y as int]);
            lemma_sum_update(
                cnt.update(winner, cnt[root_x as int] + cnt[root_y as int]),
                loser,
                0nat,
            );
            assert forall|i: int| 0 <= i < n implies (#[trigger] p2[i] as int) < n by {
                if i != loser {
                    assert(p2[i] == p[i]);
                }
            }
            assert forall|i: int| 0 <= i < n implies 0 <= #[trigger] new_reps[i] < n && p2[new_reps[i]]
                == new_reps[i] by {
                let r = rep[i];
                assert(p[r] == r);
            }
            assert forall|i: int| 0 <= i < n implies new_reps[#[trigger] p2[i] as int] == new_reps[i] by {
                if i != loser {
                    assert(p2[i] == p[i]);
                    assert(rep[p[i] as int] == rep[i]);
                } else {
                    assert(rep[loser] == loser);
                    assert(rep[winner] == winner);
                }
            }
            assert forall|i: int| 0 <= i < n && #[trigger] p2[i] == i implies new_reps[i] == i by {
                if i != loser {
                    assert(p2[i] == p[i]);
                    assert(rep[i] == i);
                }
            }
            assert forall|i: int| 0 <= i < n && #[trigger] p2[i] != i implies rk2[p2[i] as int]
                > rk2[i] by {
                if i != loser {
                    assert(p2[i] == p[i]);
                    assert(rk[p[i] as int] > rk[i]);
                }
            }
            assert forall|i: int| 0 <= i < n && #[trigger] p2[i] == i implies pow2(rk2[i] as nat)
                <= new_cnt[i] by {
                if i != loser {
                    assert(p2[i] == p[i]);
                    if i == winner {
                        if rank_x == rank_y {
                            lemma_pow2_unfold(rank_x as nat + 1);
                        }
                    }
                }
            }
            assert(self@ =~= merged_reps(
                old_reps,
                old_reps[x as int],
                old_reps[y as int],
                old(self).union_winner(old_reps[x as int], old_reps[y as int]),
            ));
        }
        true
    }

    /// Whether `x` and `y` are in the same set.
    pub fn connected(&mut self, x: usize, y: usize) -> (same: bool)
        requires
            old(self).wf(),
            x < old(self)@.len(),
            y < old(self)@.len(),
        ensures
            final(self).wf(),
            final(self)@ == old(self)@,
            same == (old(self)@[x as int] == old(self)@[y as int]),
    {
        let a = self.find(x);
        let b = self.find(y);
        a == b
    }

    /// Number of elements.
    pub fn len(&self) -> (n: usize)
        requires
            self.wf(),
        ensures
            n == self@.len(),
    {
        self.backend.size()
    }

    /// Whether there are no elements.
    pub fn is_empty(&self) -> (b: bool)
        requires
            self.wf(),
        ensures
            b == (self@.len() == 0),
    {
        self.backend.size() == 0
    }

    /// All sets, each listed in ascending order of its elements; the sets
    /// come in order of their smallest element.
    pub fn get_all_components(&mut self) -> (comps: Vec<Vec<usize>>)
        requires
            old(self).wf(),
        ensures
            final(self).wf(),
            final(self)@ == old(self)@,
            is_partition_into_classes(nested_view(comps@), old(self)@),
    {
        let n = self.backend.size();
        let ghost reps = self@;
        proof {
            self.lemma_canonical();
        }
        let mut slot: Vec<Option<usize>> = Vec::with_capacity(n);
        let mut k: usize = 0;
        while k < n
            invariant
                k <= n,
                slot@.len() == k,
                forall|j: int| 0 <= j < k ==> #[trigger] slot@[j] == None::<usize>,
            decreases n - k,
        {
            slot.push(None);
            k = k + 1;
        }
        let mut comps: Vec<Vec<usize>> = Vec::new();
        let ghost mut crep: Seq<int> = Seq::empty();
        let mut e: usize = 0;
        while e < n
            invariant
                self.wf(),
                self@ == reps,
                canonical(reps),
                n == reps.len(),
                e <= n,
                slot@.len() == n,
                comps@.len() == crep.len(),
                forall|c: int|
                    0 <= c < comps@.len() ==> {
                        &&& (#[trigger] comps@[c])@.len() > 0
                        &&& 0 <= crep[c] < n
                        &&& slot@[crep[c]] == Some(c as usize)
                        &&& forall|a: int, b: int|
                            0 <= a < b < comps@[c]@.len() ==> comps@[c]@[a] < comps@[c]@[b]
                        &&& forall|j: int|
                            0 <= j < comps@[c]@.len() ==> comps@[c]@[j] < e && reps[comps@[c]@[j] as int]
                                == crep[c]
                    },
                forall|r: int|
                    0 <= r < n ==> match #[trigger] slot@[r] {
                        Some(c) => c < comps@.len() && crep[c as int] == r,
                        None => true,
                    },
                forall|x: int|
                    0 <= x < e ==> (#[trigger] slot@[reps[x]]) is Some && comps@[slot@[reps[x]]->0 as int]@.contains(
                        x as usize,
                    ),
            decreases n - e,
        {
            let root = self.find(e);
            match slot[root] {
                None => {
                    let ghost old_comps = comps@;
                    let c = comps.len();
                    let mut v: Vec<usize> = Vec::new();
                    v.push(e);
                    comps.push(v);
                    slot.set(root, Some(c));
                    proof {
                        crep = crep.push(root as int);
                        assert(comps@[c as int]@[0] == e);
                        assert forall|x: int| 0 <= x < e + 1 implies (#[trigger] slot@[reps[x]]) is Some
                            && comps@[slot@[reps[x]]->0 as int]@.contains(x as usize) by {
                            if x == e {
                                assert(comps@[c as int]@[0] == e);
                            } else {
                                assert(old_comps[slot@[reps[x]]->0 as int] == comps@[slot@[reps[x]]->0 as int]);
                            }
                        }
                    }
                },
                Some(c) => {
                    let ghost old_comps = comps@;
                    comps[c].push(e);
                    proof {
                        assert(comps@[c as int]@ == old_comps[c as int]@.push(e));
                        assert forall|cc: int| 0 <= cc < comps@.len() && cc != c implies comps@[cc]
                            == old_comps[cc] by {}
                        assert forall|x: int| 0 <= x < e + 1 implies (#[trigger] slot@[reps[x]]) is Some
                            && comps@[slot@[reps[x]]->0 as int]@.contains(x as usize) by {
                            if x == e {
                                assert(comps@[c as int]@[old_comps[c as int]@.len() as int] == e);
                            } else {
                                let cx = slot@[reps[x]]->0 as int;
                                if cx == c {
                                    let w = choose|w: int| 0 <= w < old_comps[c as int]@.len() && old_comps[c as int]@[w] == x as usize;
                                    assert(comps@[c as int]@[w] == x as usize);
                                }
                            }
                        }
                    }
                },
            }
            e = e + 1;
        }
        proof {
            let cs = nested_view(comps@);
            assert forall|c: int| 0 <= c < cs.len() implies (#[trigger] cs[c]).len() > 0 by {
                assert(cs[c] == comps@[c]@);
                assert(comps@[c]@.len() > 0);
            }
            assert forall|c: int, a: int, b: int|
                0 <= c < cs.len() && 0 <= a < b < cs[c].len() implies #[trigger] cs[c][a]
                < #[trigger] cs[c][b] by {
                assert(cs[c] == comps@[c]@);
                assert(comps@[c]@.len() > 0);
            }
            assert forall|c: int, j: int|
                0 <= c < cs.len() && 0 <= j < cs[c].len() implies (#[trigger] cs[c][j] as int)
                < reps.len() && reps[cs[c][j] as int] == reps[cs[c][0] as int] by {
                assert(cs[c] == comps@[c]@);
                assert(comps@[c]@.len() > 0);
                assert(reps[comps@[c]@[j] as int] == crep[c]);
                assert(reps[comps@[c]@[0] as int] == crep[c]);
            }
            assert forall|c1: int, c2: int|
                0 <= c1 < cs.len() && 0 <= c2 < cs.len() && c1 != c2 implies reps[
                #[trigger] cs[c1][0] as int] != reps[#[trigger] cs[c2][0] as int] by {
                assert(comps@.len() == comps.len());
                assert(cs[c1] == comps@[c1]@);
                assert(cs[c2] == comps@[c2]@);
                assert(comps@[c1]@.len() > 0);
                assert(comps@[c2]@.len() > 0);
                assert(reps[comps@[c1]@[0] as int] == crep[c1]);
                assert(reps[comps@[c2]@[0] as int] == crep[c2]);
                assert(comps@[c1]@.len() > 0);
                assert(comps@[c2]@.len() > 0);
                assert(cs[c1] == comps@[c1]@);
                assert(cs[c2] == comps@[c2]@);
                assert(slot@[crep[c1]] == Some(c1 as usize));
                assert(slot@[crep[c2]] == Some(c2 as usize));
            }
            assert forall|x: int| 0 <= x < n implies #[trigger] listed(cs, x) by {
                let c = slot@[reps[x]]->0 as int;
                assert(comps@[c]@.contains(x as usize));
                let j = choose|j: int| 0 <= j < comps@[c]@.len() && comps@[c]@[j] == x as usize;
                assert(cs[c][j] == x);
            }
            assert(reps == old(self)@);
            assert(is_partition_into_classes(cs, reps));
        }
        comps
    }
}

/// The element sequences of a list of vectors.
pub open spec fn nested_view(v: Seq<Vec<usize>>) -> Seq<Seq<usize>> {
    v.map_values(|c: Vec<usize>| c@)
}

/// `comps` lists every element `0..reps.len()` exactly once, grouped by
/// representative: each group is non-empty and strictly ascending, holds one
/// class only, and no two groups hold the same class.
pub open spec fn is_partition_into_classes(comps: Seq<Seq<usize>>, reps: Seq<int>) -> bool {
    &&& forall|c: int| 0 <= c < comps.len() ==> (#[trigger] comps[c]).len() > 0
    &&& forall|c: int, a: int, b: int|
        0 <= c < comps.len() && 0 <= a < b < comps[c].len() ==> #[trigger] comps[c][a]
            < #[trigger] comps[c][b]
    &&& forall|c: int, j: int|
        0 <= c < comps.len() && 0 <= j < comps[c].len() ==> (#[trigger] comps[c][j] as int) < reps.len()
            && reps[comps[c][j] as int] == reps[comps[c][0] as int]
    &&& forall|c1: int, c2: int|
        0 <= c1 < comps.len() && 0 <= c2 < comps.len() && c1 != c2 ==> reps[#[trigger] comps[c1][0] as int]
            != reps[#[trigger] comps[c2][0] as int]
    &&& forall|x: int| 0 <= x < reps.len() ==> #[trigger] listed(comps, x)
}

/// `x` occurs in one of the groups.
pub open spec fn listed(comps: Seq<Seq<usize>>, x: int) -> bool {
    exists|c: int, j: int| 0 <= c < comps.len() && 0 <= j < comps[c].len() && #[trigger] comps[c][j] == x
}

impl UnionFind<VecBackend> {
    /// Every element of `0..size` in a set of its own, held in memory.
    pub fn new_vec(size: usize) -> (uf: Self)
        requires
            size <= max_elements(),
        ensures
            uf.wf(),
            uf@ == Seq::new(size as nat, |i: int| i),
            uf.ranks_view() == Seq::new(size as nat, |i: int| 0u8),
    {
        let backend = VecBackend::new(size);
        Self::from_backend(backend, Ghost(size as nat))
    }

    /// An independent copy with the same sets and the same forest.
    pub fn copy(&self) -> (c: Self)
        requires
            self.wf(),
        ensures
            c.wf(),
            c@ == self@,
            c.ranks_view() == self.ranks_view(),
    {
        UnionFind { backend: self.backend.copy(), reps: self.reps, counts: self.counts }
    }
}

impl UnionFind<MmapBackend> {
    /// Every element of `0..size` in a set of its own, held in an anonymous
    /// memory mapping; fails when the mapping cannot be made.
    pub fn new_mmap(size: usize) -> (r: Result<Self, std::io::Error>)
        requires
            size <= max_elements(),
            5 * size <= usize::MAX,
        ensures
            r matches Ok(uf) ==> uf.wf() && uf@ == Seq::new(size as nat, |i: int| i) && uf.ranks_view() == Seq::new(
                size as nat,
                |i: int| 0u8,
            ),
    {
        match MmapBackend::new(size) {
            Ok(backend) => Ok(Self::from_backend(backend, Ghost(size as nat))),
            Err(e) => Err(e),
        }
    }
}

/// Union-find held in a memory mapping.
pub type MmapUnionFind = UnionFind<MmapBackend>;

} // verus!
