//! Reading and writing files on FAT32 volumes.
use vstd::prelude::*;

use crate::bytes;
use crate::fat::{Fat, Fat32Bpb, FatView, FAT_EOC, FAT_EOC_MIN};

verus! {

/// Most clusters of a file that this driver writes.
pub const MAX_CHAIN: usize = 256;

/// An open file or directory.
#[derive(Clone, Copy)]
pub struct OpenNode {
    pub is_dir: bool,
    pub start_cluster: u32,
    pub file_size: u32,
    /// Directory cluster that holds the entry.
    pub dir_cluster: u32,
    /// Byte offset of the entry in that cluster.
    pub entry_offset: u32,
    /// Volume that the file is on.
    pub vol: u64,
}

/// A write in progress: `data` at `offset` of a file of `old_size` bytes that will
/// have `new_size`.
pub struct WritePlan {
    pub data: Seq<u8>,
    pub offset: int,
    pub old_size: int,
    pub new_size: int,
    /// Clusters that the file had before.
    pub old_clusters: int,
    /// Clusters that it needs.
    pub needed: int,
}

impl WritePlan {
    /// Position after the last byte written.
    pub open spec fn end(self) -> int {
        self.offset + self.data.len()
    }

    /// The byte at position `pos` of the file, in cluster `i`, where `was` is the byte
    /// that stood there.
    pub open spec fn byte_at(self, i: int, pos: int, was: u8) -> u8 {
        if self.offset <= pos < self.end() {
            self.data[pos - self.offset]
        } else if self.old_size <= pos < self.offset {
            0
        } else if self.new_size > self.old_size && i + 1 == self.needed && pos >= self.new_size {
            0
        } else {
            was
        }
    }

    /// The new contents of cluster `i` of the file.
    pub open spec fn image(self, cb: int, i: int, was: Seq<u8>) -> Seq<u8> {
        Seq::new(cb as nat, |k: int| self.byte_at(i, i * cb + k, was[k]))
    }

    /// Whether cluster `i` is overwritten from end to end.
    pub open spec fn covers(self, cb: int, i: int) -> bool {
        i * cb >= self.offset && (i + 1) * cb <= self.end()
    }

    /// Whether cluster `i` stays as it is.
    pub open spec fn keeps(self, cb: int, i: int) -> bool {
        &&& i < self.old_clusters
        &&& ((i + 1) * cb <= self.offset || i * cb >= self.end())
        &&& (i + 1) * cb <= self.old_size
    }
}

impl FatView {
    /// Goes to the cluster that covers `offset`: `at` is the position of cluster `c`.
    pub open spec fn skip_to(self, b: Fat32Bpb, c: u32, at: int, offset: int) -> (FatView, Option<(u32, int)>)
        decreases offset - at,
    {
        if b.cb() <= 0 || at + b.cb() > offset {
            (self, Some((c, at)))
        } else {
            let (s, next) = self.fat_get(b, c);
            if next >= FAT_EOC_MIN {
                (s, None)
            } else {
                s.skip_to(b, next, at + b.cb(), offset)
            }
        }
    }

    /// Reads on from cluster `c` at position `at` until `out` has `want` bytes or the
    /// chain ends.
    pub open spec fn gather(
        self,
        b: Fat32Bpb,
        c: u32,
        at: int,
        offset: int,
        want: int,
        out: Seq<u8>,
    ) -> (FatView, Option<Seq<u8>>)
        decreases want - out.len(),
    {
        let skip = if offset > at {
            offset - at
        } else {
            0
        };
        let take = if want - out.len() < b.cb() - skip {
            want - out.len()
        } else {
            b.cb() - skip
        };
        if out.len() >= want || take <= 0 {
            (self, Some(out))
        } else {
            match self.cluster(b, c) {
                None => (self, None),
                Some(d) => {
                    let out2 = out + d.subrange(skip, skip + take);
                    if out2.len() >= want || out2.len() <= out.len() {
                        (self, Some(out2))
                    } else {
                        let (s, next) = self.fat_get(b, c);
                        if next >= FAT_EOC_MIN {
                            (s, Some(out2))
                        } else {
                            s.gather(b, next, at + b.cb(), offset, want, out2)
                        }
                    }
                },
            }
        }
    }

    /// The bytes of a file of `size` bytes from `offset` on, at most `count`. A chain
    /// that is too short gives what it has.
    pub open spec fn read_range(self, b: Fat32Bpb, start: u32, size: u32, offset: u32, count: u32) -> (
        FatView,
        Option<Seq<u8>>,
    ) {
        if offset >= size {
            (self, Some(Seq::empty()))
        } else {
            let want = if count < size - offset {
                count as int
            } else {
                size - offset
            };
            let (s, at) = self.skip_to(b, start, 0, offset as int);
            match at {
                None => (s, Some(Seq::empty())),
                Some((c, pos)) => s.gather(b, c, pos, offset as int, want, Seq::empty()),
            }
        }
    }

    /// The clusters of the chain from `c` on, after those in `chain`; `None` when there
    /// are too many.
    pub open spec fn chain_from(self, b: Fat32Bpb, c: u32, chain: Seq<u32>) -> (
        FatView,
        Option<Seq<u32>>,
    )
        decreases MAX_CHAIN - chain.len(),
    {
        if c == 0 || c >= FAT_EOC_MIN {
            (self, Some(chain))
        } else if chain.len() >= MAX_CHAIN {
            (self, None)
        } else {
            let (s, next) = self.fat_get(b, c);
            s.chain_from(b, next, chain.push(c))
        }
    }

    /// New clusters appended to `chain` until it has `needed`.
    pub open spec fn extend_chain(self, b: Fat32Bpb, chain: Seq<u32>, needed: int) -> (
        FatView,
        Option<Seq<u32>>,
    )
        decreases needed - chain.len(),
    {
        if chain.len() >= needed {
            (self, Some(chain))
        } else {
            let (s, free) = self.find_free(b);
            match free {
                None => (s, None),
                Some(f) => {
                    let (s1, ok1) = if chain.len() > 0 {
                        s.fat_set(b, chain.last(), f)
                    } else {
                        (s, true)
                    };
                    if !ok1 {
                        (s1, None)
                    } else {
                        let (s2, ok2) = s1.fat_set(b, f, FAT_EOC);
                        if !ok2 {
                            (s2, None)
                        } else {
                            s2.extend_chain(b, chain.push(f), needed)
                        }
                    }
                },
            }
        }
    }

    /// Cluster `i` of the chain brought up to date.
    pub open spec fn write_one(self, b: Fat32Bpb, chain: Seq<u32>, p: WritePlan, i: int) -> (
        FatView,
        bool,
    ) {
        if p.covers(b.cb(), i) {
            self.put_cluster(
                b,
                chain[i],
                p.data.subrange(i * b.cb() - p.offset, (i + 1) * b.cb() - p.offset),
            )
        } else if p.keeps(b.cb(), i) {
            (self, true)
        } else if i < p.old_clusters {
            match self.cluster(b, chain[i]) {
                None => (self, false),
                Some(was) => self.put_cluster(b, chain[i], p.image(b.cb(), i, was)),
            }
        } else {
            self.put_cluster(b, chain[i], p.image(b.cb(), i, bytes::zeros(b.cb())))
        }
    }

    /// Clusters `i` and up of the chain brought up to date.
    pub open spec fn write_all(self, b: Fat32Bpb, chain: Seq<u32>, p: WritePlan, i: int) -> (
        FatView,
        bool,
    )
        decreases p.needed - i,
    {
        if i >= p.needed {
            (self, true)
        } else {
            let (s, ok) = self.write_one(b, chain, p, i);
            if ok {
                s.write_all(b, chain, p, i + 1)
            } else {
                (s, false)
            }
        }
    }

    /// Clusters that `size` bytes take.
    pub open spec fn clusters_for(b: Fat32Bpb, size: int) -> int {
        (size + b.cb() - 1) / b.cb()
    }

    /// `data` written at `offset` of an open file: the volume and the node after it;
    /// `None` when it failed. Gaps are filled with zeros, new clusters are appended,
    /// and the directory entry follows.
    pub open spec fn write_range(self, b: Fat32Bpb, node: OpenNode, offset: u32, data: Seq<u8>) -> (
        FatView,
        Option<OpenNode>,
    ) {
        let end = if offset + data.len() > u32::MAX {
            u32::MAX as int
        } else {
            offset + data.len()
        };
        let new_size = if node.file_size > end {
            node.file_size as int
        } else {
            end
        };
        let needed = Self::clusters_for(b, new_size);
        if data.len() == 0 {
            (self, Some(node))
        } else {
            let (s1, chain) = self.chain_from(b, node.start_cluster, Seq::empty());
            match chain {
                None => (s1, None),
                Some(old_chain) => if needed > MAX_CHAIN {
                    (s1, None)
                } else {
                    let (s2, full) = s1.extend_chain(b, old_chain, needed);
                    match full {
                        None => (s2, None),
                        Some(ch) => {
                            let p = WritePlan {
                                data,
                                offset: offset as int,
                                old_size: node.file_size as int,
                                new_size,
                                old_clusters: old_chain.len() as int,
                                needed,
                            };
                            let (s3, ok3) = s2.write_all(b, ch, p, 0);
                            let node2 = OpenNode {
                                start_cluster: ch[0],
                                file_size: new_size as u32,
                                ..node
                            };
                            if !ok3 {
                                (s3, None)
                            } else if node2.start_cluster == node.start_cluster && node2.file_size
                                == node.file_size {
                                (s3, Some(node2))
                            } else {
                                let (s4, ok4) = s3.update_entry(
                                    b,
                                    node.dir_cluster,
                                    node.entry_offset,
                                    node2.start_cluster,
                                    node2.file_size,
                                );
                                if ok4 {
                                    (s4, Some(node2))
                                } else {
                                    (s4, None)
                                }
                            }
                        },
                    }
                },
            }
        }
    }
}

impl Fat {
    /// Reads at most `count` bytes at `offset` of a file.
    #[verifier::loop_isolation(false)]
    pub fn read_file_range(&mut self, b: &Fat32Bpb, start: u32, size: u32, offset: u32, count: u32) -> (r:
        Option<Vec<u8>>)
        requires
            old(self).inv(),
            b.wf(),
        ensures
            final(self).inv(),
            (final(self)@, bytes::opt(r)) == old(self)@.read_range(*b, start, size, offset, count),
            r matches Some(v) ==> v@.len() <= count,
    {
        let mut out: Vec<u8> = Vec::new();
        if offset >= size {
            assert(out@ =~= Seq::empty());
            return Some(out);
        }
        let want: u64 = if count < size - offset {
            count as u64
        } else {
            (size - offset) as u64
        };
        let cb: u64 = b.cluster_bytes() as u64;
        let mut c: u32 = start;
        let mut at: u64 = 0;
        let ghost goal = old(self)@.read_range(*b, start, size, offset, count);
        let ghost seek = old(self)@.skip_to(*b, start, 0, offset as int);
        while at + cb <= offset as u64
            invariant
                self.inv(),
                b.wf(),
                cb == b.cb(),
                cb > 0,
                cb <= 65536,
                at <= offset,
                out@ == Seq::<u8>::empty(),
                self@.skip_to(*b, c, at as int, offset as int) == seek,
                seek.1 is None ==> goal == (seek.0, Some(Seq::<u8>::empty())),
                goal == old(self)@.read_range(*b, start, size, offset, count),
            decreases offset - at,
        {
            let next: u32 = self.read_fat_entry(b, c);
            at = at + cb;
            if next >= FAT_EOC_MIN {
                return Some(out);
            }
            c = next;
        }
        assert(out@ =~= Seq::empty());
        loop
            invariant
                self.inv(),
                b.wf(),
                cb == b.cb(),
                0 < cb <= 65536,
                out.len() <= want,
                want <= count,
                out.len() == 0 ==> at <= offset && offset < at + cb,
                out.len() > 0 ==> at >= offset,
                at <= 0x1_0000_0000 + 65536 + out.len() * 65536,
                want <= 0xFFFF_FFFF,
                self@.gather(*b, c, at as int, offset as int, want as int, out@) == goal,
                goal == old(self)@.read_range(*b, start, size, offset, count),
            decreases want - out.len(),
        {
            if out.len() as u64 >= want {
                return Some(out);
            }
            let d: Vec<u8> = match self.read_cluster(b, c) {
                Some(v) => v,
                None => {
                    return None;
                },
            };
            let skip: u64 = if offset as u64 > at {
                offset as u64 - at
            } else {
                0
            };
            let take: u64 = if want - (out.len() as u64) < cb - skip {
                want - out.len() as u64
            } else {
                cb - skip
            };
            let ghost before = out@;
            let mut piece: Vec<u8> = bytes::slice_copy(&d, skip as usize, (skip + take) as usize);
            out.append(&mut piece);
            assert(out@ =~= before + d@.subrange(skip as int, skip + take));
            at = at + cb;
            if out.len() as u64 >= want {
                return Some(out);
            }
            let next: u32 = self.read_fat_entry(b, c);
            if next >= FAT_EOC_MIN {
                return Some(out);
            }
            c = next;
        }
    }

    /// Collects the clusters of the chain that starts at `start`.
    #[verifier::loop_isolation(false)]
    fn collect_chain(&mut self, b: &Fat32Bpb, start: u32) -> (r: Option<Vec<u32>>)
        requires
            old(self).inv(),
        ensures
            final(self).inv(),
            final(self)@ == old(self)@.chain_from(*b, start, Seq::empty()).0,
            match r {
                Some(v) => old(self)@.chain_from(*b, start, Seq::empty()).1 == Some(v@) && v.len()
                    <= MAX_CHAIN,
                None => old(self)@.chain_from(*b, start, Seq::empty()).1 is None,
            },
    {
        let mut chain: Vec<u32> = Vec::new();
        let mut c: u32 = start;
        let ghost goal = old(self)@.chain_from(*b, start, Seq::empty());
        assert(chain@ =~= Seq::empty());
        while c != 0 && c < FAT_EOC_MIN
            invariant
                self.inv(),
                chain.len() <= MAX_CHAIN,
                self@.chain_from(*b, c, chain@) == goal,
                goal == old(self)@.chain_from(*b, start, Seq::empty()),
            decreases MAX_CHAIN - chain.len(),
        {
            if chain.len() >= MAX_CHAIN {
                return None;
            }
            chain.push(c);
            c = self.read_fat_entry(b, c);
        }
        Some(chain)
    }

    /// Appends new clusters to `chain` until it has `needed`.
    #[verifier::loop_isolation(false)]
    fn lengthen(&mut self, b: &Fat32Bpb, chain: &mut Vec<u32>, needed: usize) -> (r: bool)
        requires
            old(self).inv(),
            b.wf(),
        ensures
            final(self).inv(),
            final(self)@ == old(self)@.extend_chain(*b, old(chain)@, needed as int).0,
            r == (old(self)@.extend_chain(*b, old(chain)@, needed as int).1 is Some),
            r ==> old(self)@.extend_chain(*b, old(chain)@, needed as int).1 == Some(final(chain)@)
                && final(chain).len() >= needed,
    {
        let ghost goal = old(self)@.extend_chain(*b, old(chain)@, needed as int);
        while chain.len() < needed
            invariant
                self.inv(),
                b.wf(),
                self@.extend_chain(*b, chain@, needed as int) == goal,
                goal == old(self)@.extend_chain(*b, old(chain)@, needed as int),
            decreases needed - chain.len(),
        {
            let free: u32 = match self.find_free_cluster(b) {
                Some(f) => f,
                None => {
                    return false;
                },
            };
            if chain.len() > 0 {
                let last: u32 = chain[chain.len() - 1];
                if !self.write_fat_entry(b, last, free) {
                    return false;
                }
            }
            if !self.write_fat_entry(b, free, FAT_EOC) {
                return false;
            }
            chain.push(free);
        }
        true
    }

    /// Brings cluster `i` of a file up to date with a write.
    fn write_file_cluster(
        &mut self,
        b: &Fat32Bpb,
        c: u32,
        i: u32,
        offset: u32,
        data: &Vec<u8>,
        old_size: u32,
        new_size: u32,
        old_clusters: u32,
        needed: u32,
        Ghost(chain): Ghost<Seq<u32>>,
        Ghost(p): Ghost<WritePlan>,
    ) -> (r: bool)
        requires
            old(self).inv(),
            b.wf(),
            p == (WritePlan {
                data: data@,
                offset: offset as int,
                old_size: old_size as int,
                new_size: new_size as int,
                old_clusters: old_clusters as int,
                needed: needed as int,
            }),
            i < needed <= MAX_CHAIN,
            new_size <= 0x100_0000,
            old_size <= new_size,
            offset + data.len() <= new_size,
            data.len() > 0,
            i < chain.len(),
            chain[i as int] == c,
        ensures
            final(self).inv(),
            (final(self)@, r) == old(self)@.write_one(*b, chain, p, i as int),
    {
        let cb: u32 = b.cluster_bytes();
        proof {
            assert(0 <= i * cb <= 255 * 65536) by (nonlinear_arith)
                requires
                    0 <= i <= 255,
                    0 <= cb <= 65536,
            ;
            assert((i + 1) * cb == i * cb + cb) by (nonlinear_arith);
        }
        let cs: u32 = i * cb;
        let ce: u32 = cs + cb;
        let end: u32 = offset + data.len() as u32;
        if cs >= offset && ce <= end {
            let image: Vec<u8> = bytes::slice_copy(data, (cs - offset) as usize, (ce - offset) as usize);
            return self.write_cluster(b, c, &image);
        }
        let ws: u32 = if cs > offset {
            cs
        } else {
            offset
        };
        let we: u32 = if ce < end {
            ce
        } else {
            end
        };
        let has_write: bool = ws < we;
        if i < old_clusters && !has_write && ce <= old_size {
            return true;
        }
        let mut image: Vec<u8> = if i < old_clusters {
            match self.read_cluster(b, c) {
                Some(v) => v,
                None => {
                    return false;
                },
            }
        } else {
            bytes::zero_vec(cb as usize)
        };
        let ghost was = image@;
        if offset > old_size {
            let gs: u32 = if cs > old_size {
                cs
            } else {
                old_size
            };
            let ge: u32 = if ce < offset {
                ce
            } else {
                offset
            };
            if gs < ge {
                bytes::zero_bytes(&mut image, (gs - cs) as usize, (ge - gs) as usize);
            }
        }
        if has_write {
            bytes::copy_into(
                &mut image,
                (ws - cs) as usize,
                data,
                (ws - offset) as usize,
                (we - ws) as usize,
            );
        }
        if new_size > old_size && i + 1 == needed && new_size < ce {
            if new_size >= cs {
                bytes::zero_bytes(&mut image, (new_size - cs) as usize, (ce - new_size) as usize);
            } else {
                bytes::zero_bytes(&mut image, 0, cb as usize);
            }
        }
        assert(image@ =~= p.image(b.cb(), i as int, was));
        self.write_cluster(b, c, &image)
    }

    /// Writes `data` at `offset` of an open file. On success the node has the new first
    /// cluster and size; on failure it stays as it is.
    #[verifier::loop_isolation(false)]
    pub fn write_file_range(&mut self, b: &Fat32Bpb, node: &mut OpenNode, offset: u32, data: &Vec<u8>) -> (r:
        bool)
        requires
            old(self).inv(),
            b.wf(),
            data.len() <= u32::MAX,
            old(node).entry_offset % 32 == 0,
        ensures
            final(self).inv(),
            final(self)@ == old(self)@.write_range(*b, *old(node), offset, data@).0,
            r == (old(self)@.write_range(*b, *old(node), offset, data@).1 is Some),
            r ==> old(self)@.write_range(*b, *old(node), offset, data@).1 == Some(*final(node)),
            !r ==> *final(node) == *old(node),
    {
        if data.len() == 0 {
            return true;
        }
        let cb: u32 = b.cluster_bytes();
        let end: u32 = offset.saturating_add(data.len() as u32);
        let new_size: u32 = if node.file_size > end {
            node.file_size
        } else {
            end
        };
        let mut chain: Vec<u32> = match self.collect_chain(b, node.start_cluster) {
            Some(v) => v,
            None => {
                return false;
            },
        };
        let ghost s1 = self@;
        let ghost old_chain = chain@;
        let old_clusters: u32 = chain.len() as u32;
        let needed64: u64 = (new_size as u64 + cb as u64 - 1) / cb as u64;
        if needed64 > MAX_CHAIN as u64 {
            return false;
        }
        let needed: u32 = needed64 as u32;
        proof {
            let n = needed as int;
            let k = cb as int;
            let z = new_size as int;
            vstd::arithmetic::div_mod::lemma_fundamental_div_mod(z + k - 1, k);
            assert(z <= n * k && n * k <= 256 * 65536 && n > 0) by (nonlinear_arith)
                requires
                    n == (z + k - 1) / k,
                    z + k - 1 == k * ((z + k - 1) / k) + (z + k - 1) % k,
                    0 <= (z + k - 1) % k < k,
                    n <= 256,
                    0 < k <= 65536,
                    z > 0,
            ;
            assert(end == offset + data@.len());
        }
        if !self.lengthen(b, &mut chain, needed as usize) {
            return false;
        }
        let ghost s2 = self@;
        let ghost p = WritePlan {
            data: data@,
            offset: offset as int,
            old_size: node.file_size as int,
            new_size: new_size as int,
            old_clusters: old_clusters as int,
            needed: needed as int,
        };
        let old_size: u32 = node.file_size;
        let mut i: u32 = 0;
        let ghost goal = s2.write_all(*b, chain@, p, 0);
        while i < needed
            invariant
                i <= needed <= MAX_CHAIN,
                self.inv(),
                b.wf(),
                chain.len() >= needed,
                data.len() > 0,
                old_size <= new_size <= 0x100_0000,
                offset + data.len() <= new_size,
                old_size == node.file_size,
                *node == *old(node),
                p == (WritePlan {
                    data: data@,
                    offset: offset as int,
                    old_size: old_size as int,
                    new_size: new_size as int,
                    old_clusters: old_clusters as int,
                    needed: needed as int,
                }),
                self@.write_all(*b, chain@, p, i as int) == goal,
                !goal.1 ==> old(self)@.write_range(*b, *old(node), offset, data@) == (
                    goal.0,
                    None::<OpenNode>,
                ),
            decreases needed - i,
        {
            let c: u32 = chain[i as usize];
            if !self.write_file_cluster(
                b,
                c,
                i,
                offset,
                data,
                old_size,
                new_size,
                old_clusters,
                needed,
                Ghost(chain@),
                Ghost(p),
            ) {
                return false;
            }
            i = i + 1;
        }
        let new_start: u32 = chain[0];
        if node.start_cluster != new_start || node.file_size != new_size {
            if !self.update_dir_entry(b, node.dir_cluster, node.entry_offset, new_start, new_size) {
                return false;
            }
        }
        node.start_cluster = new_start;
        node.file_size = new_size;
        true
    }
}

} // verus!
