use crate::stream::{DirRawStream, StreamView};
use vstd::prelude::*;

verus! {

/// The directories of a volume: the stream of each, found by the first cluster
/// of its chain (0 for the root directory), and the chains that removals have
/// released, in the order of the removals.
pub struct FsView {
    pub dirs: Map<u32, StreamView>,
    pub released: Seq<u32>,
}

/// The stream of a directory whose chain is not on the volume: no bytes.
pub open spec fn no_stream() -> StreamView {
    StreamView { bytes: Seq::empty(), chunk_len: 32, chunk_pos: Seq::empty(), growable: false, pos: 0 }
}

impl FsView {
    /// The stream of the directory whose chain starts at `first_cluster`.
    pub open spec fn stream_of(self, first_cluster: u32) -> StreamView {
        if self.dirs.dom().contains(first_cluster) {
            self.dirs[first_cluster]
        } else {
            no_stream()
        }
    }

    /// The bytes of the directory whose chain starts at `first_cluster`.
    pub open spec fn bytes_of(self, first_cluster: u32) -> Seq<u8> {
        self.stream_of(first_cluster).bytes
    }
}

struct DirNode {
    first_cluster: u32,
    stream: DirRawStream,
}

/// The directory streams of one volume, held in memory.
pub struct FileSystem {
    nodes: Vec<DirNode>,
    released: Vec<u32>,
}

impl View for FileSystem {
    type V = FsView;

    closed spec fn view(&self) -> FsView {
        FsView {
            dirs: Map::new(
                |c: u32| self.has_node(c),
                |c: u32| self.nodes@[self.node_of(c)].stream@,
            ),
            released: self.released@,
        }
    }
}

impl FileSystem {
    spec fn has_node(&self, c: u32) -> bool {
        exists|i: int| 0 <= i < self.nodes@.len() && (#[trigger] self.nodes@[i]).first_cluster == c
    }

    spec fn node_of(&self, c: u32) -> int {
        choose|i: int| 0 <= i < self.nodes@.len() && (#[trigger] self.nodes@[i]).first_cluster == c
    }

    /// No two streams have the same first cluster, and every stream is well
    /// formed, with its cursor at the start.
    pub closed spec fn wf(&self) -> bool {
        &&& forall|i: int, j: int|
            0 <= i < j < self.nodes@.len() ==> (#[trigger] self.nodes@[i]).first_cluster != (
            #[trigger] self.nodes@[j]).first_cluster
        &&& forall|i: int|
            0 <= i < self.nodes@.len() ==> (#[trigger] self.nodes@[i]).stream@.wf()
                && self.nodes@[i].stream@.pos == 0
    }

    proof fn lemma_node(&self, i: int)
        requires
            self.wf(),
            0 <= i < self.nodes@.len(),
        ensures
            self.has_node(self.nodes@[i].first_cluster),
            self.node_of(self.nodes@[i].first_cluster) == i,
            self@.dirs.dom().contains(self.nodes@[i].first_cluster),
            self@.dirs[self.nodes@[i].first_cluster] == self.nodes@[i].stream@,
    {
    }

    /// A volume with the given stream of its root directory and no other.
    pub fn new(root: DirRawStream) -> (r: FileSystem)
        requires
            root@.wf(),
        ensures
            r.wf(),
            r@.dirs == Map::<u32, StreamView>::empty().insert(0, StreamView { pos: 0, ..root@ }),
            r@.released == Seq::<u32>::empty(),
    {
        let mut nodes: Vec<DirNode> = Vec::new();
        nodes.push(DirNode { first_cluster: 0, stream: root.rewound() });
        let r = FileSystem { nodes, released: Vec::new() };
        proof {
            r.lemma_node(0);
            assert(r@.dirs =~= Map::<u32, StreamView>::empty().insert(
                0,
                StreamView { pos: 0, ..root@ },
            ));
        }
        r
    }

    fn find_index(&self, first_cluster: u32) -> (r: Option<usize>)
        requires
            self.wf(),
        ensures
            r is Some <==> self@.dirs.dom().contains(first_cluster),
            r is Some ==> {
                &&& r->Some_0 < self.nodes@.len()
                &&& self.nodes@[r->Some_0 as int].first_cluster == first_cluster
                &&& self.nodes@[r->Some_0 as int].stream@ == self@.dirs[first_cluster]
            },
    {
        let mut i: usize = 0;
        while i < self.nodes.len()
            invariant
                self.wf(),
                i <= self.nodes@.len(),
                forall|j: int| 0 <= j < i ==> (#[trigger] self.nodes@[j]).first_cluster != first_cluster,
            decreases self.nodes@.len() - i,
        {
            if self.nodes[i].first_cluster == first_cluster {
                proof {
                    self.lemma_node(i as int);
                }
                return Some(i);
            }
            i = i + 1;
        }
        None
    }

    /// Whether the volume holds the stream of the directory whose chain
    /// starts at `first_cluster`.
    pub fn has_dir(&self, first_cluster: u32) -> (r: bool)
        requires
            self.wf(),
        ensures
            r == self@.dirs.dom().contains(first_cluster),
    {
        self.find_index(first_cluster).is_some()
    }

    /// Puts the stream of the directory whose chain starts at `first_cluster`
    /// on the volume, in place of the one that was there, if any. The stream
    /// is kept with its cursor at the start.
    pub fn add_dir(&mut self, first_cluster: u32, stream: DirRawStream)
        requires
            old(self).wf(),
            stream@.wf(),
        ensures
            final(self).wf(),
            final(self)@ == (FsView {
                dirs: old(self)@.dirs.insert(first_cluster, StreamView { pos: 0, ..stream@ }),
                ..old(self)@
            }),
    {
        let stream = stream.rewound();
        match self.find_index(first_cluster) {
            Some(i) => {
                self.nodes[i].stream = stream;
                proof {
                    self.lemma_replaced(*old(self), i as int);
                }
            },
            None => {
                self.nodes.push(DirNode { first_cluster, stream });
                proof {
                    let n = old(self).nodes@.len() as int;
                    assert forall|i: int, j: int| 0 <= i < j < self.nodes@.len() implies (
                    #[trigger] self.nodes@[i]).first_cluster != (
                    #[trigger] self.nodes@[j]).first_cluster by {
                        if j == n {
                            assert(self.nodes@[i] == old(self).nodes@[i]);
                            old(self).lemma_node(i);
                        } else {
                            assert(self.nodes@[i] == old(self).nodes@[i]);
                            assert(self.nodes@[j] == old(self).nodes@[j]);
                        }
                    }
                    assert forall|i: int| 0 <= i < self.nodes@.len() implies (
                    #[trigger] self.nodes@[i]).stream@.wf() && self.nodes@[i].stream@.pos == 0 by {
                        if i < n {
                            assert(self.nodes@[i] == old(self).nodes@[i]);
                        }
                    }
                    assert forall|c: u32|
                        self@.dirs.dom().contains(c) <==> old(self)@.dirs.insert(
                            first_cluster,
                            stream@,
                        ).dom().contains(c) by {
                        if old(self).has_node(c) {
                            let i = old(self).node_of(c);
                            assert(self.nodes@[i] == old(self).nodes@[i]);
                        }
                        if c == first_cluster {
                            assert(self.nodes@[n].first_cluster == c);
                        }
                        if self.has_node(c) {
                            let i = self.node_of(c);
                            if i < n {
                                assert(self.nodes@[i] == old(self).nodes@[i]);
                            }
                        }
                    }
                    assert forall|c: u32| self@.dirs.dom().contains(c) implies self@.dirs[c]
                        == old(self)@.dirs.insert(first_cluster, stream@)[c] by {
                        let i = self.node_of(c);
                        self.lemma_node(i);
                        if i < n {
                            assert(self.nodes@[i] == old(self).nodes@[i]);
                            old(self).lemma_node(i);
                        }
                    }
                    assert(self@.dirs =~= old(self)@.dirs.insert(first_cluster, stream@));
                }
            },
        }
    }

    /// After the stream of node `i` alone has changed, the volume is the old
    /// one with that stream in place of the old.
    proof fn lemma_replaced(&self, before: FileSystem, i: int)
        requires
            before.wf(),
            0 <= i < before.nodes@.len(),
            self.nodes@.len() == before.nodes@.len(),
            self.released@ == before.released@,
            self.nodes@[i].first_cluster == before.nodes@[i].first_cluster,
            self.nodes@[i].stream@.wf(),
            self.nodes@[i].stream@.pos == 0,
            forall|j: int|
                0 <= j < before.nodes@.len() && j != i ==> self.nodes@[j] == before.nodes@[j],
        ensures
            self.wf(),
            self@ == (FsView {
                dirs: before@.dirs.insert(before.nodes@[i].first_cluster, self.nodes@[i].stream@),
                ..before@
            }),
    {
        assert forall|a: int, b: int| 0 <= a < b < self.nodes@.len() implies (
        #[trigger] self.nodes@[a]).first_cluster != (#[trigger] self.nodes@[b]).first_cluster by {
            assert(self.nodes@[a].first_cluster == before.nodes@[a].first_cluster);
            assert(self.nodes@[b].first_cluster == before.nodes@[b].first_cluster);
        }
        assert forall|j: int| 0 <= j < self.nodes@.len() implies (
        #[trigger] self.nodes@[j]).stream@.wf() && self.nodes@[j].stream@.pos == 0 by {
            if j != i {
                assert(self.nodes@[j] == before.nodes@[j]);
            }
        }
        let key = before.nodes@[i].first_cluster;
        let want = before@.dirs.insert(key, self.nodes@[i].stream@);
        assert forall|c: u32| self@.dirs.dom().contains(c) <==> want.dom().contains(c) by {
            if before.has_node(c) {
                let j = before.node_of(c);
                assert(self.nodes@[j].first_cluster == c);
            }
            if self.has_node(c) {
                let j = self.node_of(c);
                assert(before.nodes@[j].first_cluster == c);
            }
            before.lemma_node(i);
        }
        assert forall|c: u32| self@.dirs.dom().contains(c) implies self@.dirs[c] == want[c] by {
            let j = self.node_of(c);
            self.lemma_node(j);
            assert(before.nodes@[j].first_cluster == c);
            before.lemma_node(j);
        }
        assert(self@.dirs =~= want);
    }

    /// A copy of the stream of a directory; a stream without bytes where the
    /// volume holds none for `first_cluster`.
    pub fn stream(&self, first_cluster: u32) -> (r: DirRawStream)
        requires
            self.wf(),
        ensures
            r@ == self@.stream_of(first_cluster),
            r@.wf(),
            r@.pos == 0,
    {
        match self.find_index(first_cluster) {
            Some(i) => self.nodes[i].stream.rewound(),
            None => {
                let r = DirRawStream::new(Vec::new(), 32, Vec::new(), false);
                r.unwrap()
            },
        }
    }

    /// The first clusters of the chains that removals have released, in the
    /// order of the removals.
    pub fn released(&self) -> (r: &Vec<u32>)
        ensures
            r@ == self@.released,
    {
        &self.released
    }

    /// Notes that the chain which starts at `first_cluster` is no longer in use.
    pub fn release(&mut self, first_cluster: u32)
        requires
            old(self).wf(),
        ensures
            final(self).wf(),
            final(self)@ == (FsView {
                released: old(self)@.released.push(first_cluster),
                ..old(self)@
            }),
    {
        self.released.push(first_cluster);
        proof {
            assert forall|c: u32| self.has_node(c) == old(self).has_node(c) by {
                if old(self).has_node(c) {
                    let i = old(self).node_of(c);
                    assert(self.nodes@[i].first_cluster == c);
                }
                if self.has_node(c) {
                    let i = self.node_of(c);
                    assert(old(self).nodes@[i].first_cluster == c);
                }
            }
            assert(self@.dirs =~= old(self)@.dirs);
        }
    }

    /// Hands out the chains that removals have released and forgets them.
    pub fn take_released(&mut self) -> (r: Vec<u32>)
        requires
            old(self).wf(),
        ensures
            final(self).wf(),
            r@ == old(self)@.released,
            final(self)@ == (FsView { released: Seq::empty(), ..old(self)@ }),
    {
        let mut out: Vec<u32> = Vec::new();
        core::mem::swap(&mut out, &mut self.released);
        proof {
            assert forall|c: u32| self.has_node(c) == old(self).has_node(c) by {
                if old(self).has_node(c) {
                    let i = old(self).node_of(c);
                    assert(self.nodes@[i].first_cluster == c);
                }
                if self.has_node(c) {
                    let i = self.node_of(c);
                    assert(old(self).nodes@[i].first_cluster == c);
                }
            }
            assert(self@.dirs =~= old(self)@.dirs);
        }
        out
    }
}

} // verus!
