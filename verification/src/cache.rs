use vstd::prelude::*;
use crate::constant::PAGE_SIZE;

verus! {

/// Failure of a cache allocation.
#[derive(Debug)]
pub enum Error {
    Alloc,
}

/// `bytes` rounded up to a whole number of 64-byte cache lines.
pub fn align_with_hw_cache(bytes: usize) -> (r: usize)
    requires
        bytes + 64 <= usize::MAX,
    ensures
        r == if bytes % 64 == 0 { bytes as int } else { 64 * (bytes / 64 + 1) },
        r % 64 == 0,
        bytes <= r < bytes + 64,
{
    if bytes % 64 == 0 {
        bytes
    } else {
        64 * (bytes / 64 + 1)
    }
}

/// A free chunk of `bytes` bytes at address `addr`.
#[derive(Clone, Copy, Debug)]
pub struct FreeNode {
    pub addr: usize,
    pub bytes: usize,
}

impl FreeNode {
    /// One past the last byte of the chunk.
    pub open spec fn end(self) -> int {
        self.addr + self.bytes
    }

    /// A nonempty chunk that ends inside the address space.
    pub open spec fn wf(self) -> bool {
        self.bytes > 0 && self.end() <= usize::MAX
    }

    /// The bytes of the chunk.
    pub open spec fn range(self) -> Set<int> {
        Set::new(|x: int| self.addr <= x < self.end())
    }

    /// The free node that describes the chunk of `bytes` bytes at `addr`.
    pub fn construct_at(addr: usize, bytes: usize) -> (n: FreeNode)
        ensures
            n.addr == addr,
            n.bytes == bytes,
    {
        FreeNode { addr, bytes }
    }

    pub fn bytes(&self) -> (r: usize)
        ensures
            r == self.bytes,
    {
        self.bytes
    }

    /// Address of the chunk.
    pub fn addr(&self) -> (r: usize)
        ensures
            r == self.addr,
    {
        self.addr
    }

    /// Address of the chunk.
    pub fn as_ptr(&self) -> (r: usize)
        ensures
            r == self.addr,
    {
        self.addr
    }

    /// Address of the chunk.
    pub fn as_mut_ptr(&mut self) -> (r: usize)
        ensures
            r == old(self).addr,
            *final(self) == *old(self),
    {
        self.addr
    }

    /// The chunk holds the byte at `ptr`.
    pub fn contains(&self, ptr: usize) -> (r: bool)
        requires
            self.wf(),
        ensures
            r == self.range().contains(ptr as int),
    {
        self.addr <= ptr && ptr < self.addr + self.bytes
    }

    /// Takes the first `bytes` bytes of the chunk, and returns what is left after them,
    /// when anything is.
    pub fn alloc_bytes(&self, bytes: usize) -> (r: Option<FreeNode>)
        requires
            self.wf(),
        ensures
            r == if bytes < self.bytes {
                Some(FreeNode { addr: (self.addr + bytes) as usize, bytes: (self.bytes - bytes) as usize })
            } else {
                None::<FreeNode>
            },
    {
        if bytes < self.bytes {
            Some(FreeNode { addr: self.addr + bytes, bytes: self.bytes - bytes })
        } else {
            None
        }
    }

    /// Cuts the whole pages out of a chunk of at least a page: the chunk keeps the part
    /// before its first page boundary, and the result holds the address of the first
    /// whole page, their number, and the part after the last whole page, when nonempty.
    pub fn shrink(&mut self) -> (r: (usize, usize, Option<FreeNode>))
        requires
            old(self).wf(),
            old(self).bytes >= if old(self).addr % PAGE_SIZE > 0 { PAGE_SIZE - old(self).addr % PAGE_SIZE } else { 0 },
        ensures
            ({
                let a = old(self).addr as int;
                let head = if a % PAGE_SIZE as int > 0 { PAGE_SIZE - a % PAGE_SIZE as int } else { 0 };
                let count = (old(self).bytes - head) / PAGE_SIZE as int;
                let tail = a + head + PAGE_SIZE * count;
                &&& final(self).addr == old(self).addr
                &&& final(self).bytes == head
                &&& r.0 == a + head
                &&& r.1 == count
                &&& r.2 == if old(self).end() - tail > 0 {
                        Some(FreeNode { addr: tail as usize, bytes: (old(self).end() - tail) as usize })
                    } else {
                        None::<FreeNode>
                    }
            }),
    {
        let self_ptr = self.addr;
        let self_offset = self_ptr % PAGE_SIZE;
        let self_size = if self_offset > 0 { PAGE_SIZE - self_offset } else { 0 };
        let total = self.bytes;
        self.bytes = self_size;
        let ptr = self_ptr + self_size;
        let count = (total - self_size) / PAGE_SIZE;
        assert(PAGE_SIZE * count <= total - self_size) by (nonlinear_arith)
            requires count == (total - self_size) / 4096, total >= self_size;
        let node_ptr = ptr + PAGE_SIZE * count;
        let node_size = total - (node_ptr - self_ptr);
        let new_node = if node_size > 0 {
            Some(FreeNode { addr: node_ptr, bytes: node_size })
        } else {
            None
        };
        (ptr, count, new_node)
    }
}

/// Nodes in order of address.
pub open spec fn sorted(s: Seq<FreeNode>) -> bool {
    forall|i: int, j: int| 0 <= i < j < s.len() ==> (#[trigger] s[i]).addr <= (#[trigger] s[j]).addr
}

/// Every node is a nonempty chunk inside the address space.
pub open spec fn nodes_wf(s: Seq<FreeNode>) -> bool {
    forall|i: int| 0 <= i < s.len() ==> (#[trigger] s[i]).wf()
}

/// `i` is where a node at address `a` goes: after every node at or below `a`, before the
/// first node above it.
pub open spec fn is_insert_pos(s: Seq<FreeNode>, a: usize, i: int) -> bool {
    &&& 0 <= i <= s.len()
    &&& forall|j: int| 0 <= j < i ==> (#[trigger] s[j]).addr <= a
    &&& i < s.len() ==> s[i].addr > a
}

pub open spec fn insert_pos(s: Seq<FreeNode>, a: usize) -> int {
    choose|i: int| is_insert_pos(s, a, i)
}

/// The chunk made of `a` followed by `b`.
pub open spec fn joined(a: FreeNode, b: FreeNode) -> FreeNode {
    FreeNode { addr: a.addr, bytes: (a.bytes + b.bytes) as usize }
}

/// Node `i` takes in the node after it when that node starts where node `i` ends.
pub open spec fn merge_next(s: Seq<FreeNode>, i: int) -> Seq<FreeNode> {
    if 0 <= i && i + 1 < s.len() && s[i].end() == s[i + 1].addr {
        s.update(i, joined(s[i], s[i + 1])).remove(i + 1)
    } else {
        s
    }
}

/// The node before node `i` takes it in when node `i` starts where that node ends.
pub open spec fn merge_prev(s: Seq<FreeNode>, i: int) -> Seq<FreeNode> {
    if 0 < i < s.len() && s[i - 1].end() == s[i].addr {
        s.update(i - 1, joined(s[i - 1], s[i])).remove(i)
    } else {
        s
    }
}

/// Node `i` merged with the adjacent nodes on either side.
pub open spec fn merge_around(s: Seq<FreeNode>, i: int) -> Seq<FreeNode> {
    merge_prev(merge_next(s, i), i)
}

/// The list after inserting `n` in address order and merging it with its neighbours.
pub open spec fn insert_seq(s: Seq<FreeNode>, n: FreeNode) -> Seq<FreeNode> {
    if s.len() == 0 {
        seq![n]
    } else {
        merge_around(s.insert(insert_pos(s, n.addr), n), insert_pos(s, n.addr))
    }
}

/// The bytes of all nodes.
pub open spec fn covered(s: Seq<FreeNode>) -> Set<int> {
    Set::new(|x: int| exists|i: int| 0 <= i < s.len() && (#[trigger] s[i]).range().contains(x))
}

/// Only one place fits a node among sorted nodes.
pub proof fn lemma_insert_pos_unique(s: Seq<FreeNode>, a: usize, i: int)
    requires
        is_insert_pos(s, a, i),
    ensures
        insert_pos(s, a) == i,
{
    let k = insert_pos(s, a);
    assert(is_insert_pos(s, a, k));
    if k < i {
        assert(s[k].addr <= a);
    } else if i < k {
        assert(s[i].addr <= a);
    }
}

proof fn lemma_covered_merge_next(s: Seq<FreeNode>, i: int)
    requires
        nodes_wf(s),
    ensures
        covered(merge_next(s, i)) == covered(s),
{
    let t = merge_next(s, i);
    if t != s {
        assert forall|x: int| covered(t).contains(x) <==> covered(s).contains(x) by {
            if covered(t).contains(x) {
                let k = choose|k: int| 0 <= k < t.len() && (#[trigger] t[k]).range().contains(x);
                if k < i {
                    assert(s[k].range().contains(x));
                } else if k == i {
                    if x < s[i].end() {
                        assert(s[i].range().contains(x));
                    } else {
                        assert(s[i + 1].range().contains(x));
                    }
                } else {
                    assert(t[k] == s[k + 1]);
                    assert(s[k + 1].range().contains(x));
                }
            }
            if covered(s).contains(x) {
                let k = choose|k: int| 0 <= k < s.len() && (#[trigger] s[k]).range().contains(x);
                if k < i {
                    assert(t[k].range().contains(x));
                } else if k == i || k == i + 1 {
                    assert(t[i].range().contains(x));
                } else {
                    assert(t[k - 1] == s[k]);
                    assert(t[k - 1].range().contains(x));
                }
            }
        }
        assert(covered(t) =~= covered(s));
    }
}

proof fn lemma_covered_merge_prev(s: Seq<FreeNode>, i: int)
    requires
        nodes_wf(s),
    ensures
        covered(merge_prev(s, i)) == covered(s),
{
    if 0 < i < s.len() && s[i - 1].end() == s[i].addr {
        lemma_covered_merge_next(s, i - 1);
        assert(merge_prev(s, i) == merge_next(s, i - 1));
    }
}

/// Inserting a free chunk adds exactly its bytes to the bytes the list holds, whatever
/// merging of neighbours takes place.
pub proof fn lemma_insert_covers(s: Seq<FreeNode>, n: FreeNode)
    requires
        sorted(s),
        nodes_wf(s),
        n.wf(),
    ensures
        covered(insert_seq(s, n)) == covered(s).union(n.range()),
{
    if s.len() == 0 {
        assert forall|x: int| covered(seq![n]).contains(x) <==> covered(s).union(n.range()).contains(x) by {
            if n.range().contains(x) {
                assert(seq![n][0].range().contains(x));
            }
        }
        assert(covered(seq![n]) =~= covered(s).union(n.range()));
    } else {
        let i = insert_pos(s, n.addr);
        lemma_first_above(s, n.addr);
        lemma_insert_pos_unique(s, n.addr, first_above(s, n.addr));
        let t = s.insert(i, n);
        assert forall|x: int| covered(t).contains(x) <==> covered(s).union(n.range()).contains(x) by {
            if covered(t).contains(x) {
                let k = choose|k: int| 0 <= k < t.len() && (#[trigger] t[k]).range().contains(x);
                if k < i {
                    assert(s[k].range().contains(x));
                } else if k > i {
                    assert(t[k] == s[k - 1]);
                    assert(s[k - 1].range().contains(x));
                }
            }
            if covered(s).contains(x) {
                let k = choose|k: int| 0 <= k < s.len() && (#[trigger] s[k]).range().contains(x);
                if k < i {
                    assert(t[k].range().contains(x));
                } else {
                    assert(t[k + 1] == s[k]);
                    assert(t[k + 1].range().contains(x));
                }
            }
            if n.range().contains(x) {
                assert(t[i].range().contains(x));
            }
        }
        assert(covered(t) =~= covered(s).union(n.range()));
        assert(nodes_wf(t)) by {
            assert forall|a: int| 0 <= a < t.len() implies (#[trigger] t[a]).wf() by {
                if a < i { assert(t[a] == s[a]); } else if a > i { assert(t[a] == s[a - 1]); }
            }
        }
        lemma_covered_merge_next(t, i);
        let t1 = merge_next(t, i);
        assert(nodes_wf(t1)) by {
            assert forall|a: int| 0 <= a < t1.len() implies (#[trigger] t1[a]).wf() by {
                if t1 != t {
                    if a < i { assert(t1[a] == t[a]); } else if a > i { assert(t1[a] == t[a + 1]); }
                    else { assert(t[i + 1].wf()); }
                }
            }
        }
        lemma_covered_merge_prev(t1, i);
    }
}

/// First index of a node above `a`, or the length.
spec fn first_above(s: Seq<FreeNode>, a: usize) -> int
    decreases s.len(),
{
    if s.len() == 0 {
        0
    } else if first_above(s.drop_last(), a) < s.len() - 1 {
        first_above(s.drop_last(), a)
    } else if s.last().addr > a {
        s.len() - 1
    } else {
        s.len() as int
    }
}

proof fn lemma_first_above(s: Seq<FreeNode>, a: usize)
    requires
        sorted(s),
    ensures
        is_insert_pos(s, a, first_above(s, a)),
    decreases s.len(),
{
    if s.len() > 0 {
        let t = s.drop_last();
        assert(sorted(t)) by {
            assert forall|i: int, j: int| 0 <= i < j < t.len() implies (#[trigger] t[i]).addr <= (#[trigger] t[j]).addr by {
                assert(t[i] == s[i] && t[j] == s[j]);
            }
        }
        lemma_first_above(t, a);
        let k = first_above(t, a);
        if k < s.len() - 1 {
            assert(s[k] == t[k]);
            assert forall|j: int| 0 <= j < k implies (#[trigger] s[j]).addr <= a by {
                assert(s[j] == t[j]);
            }
        } else {
            assert forall|j: int| 0 <= j < s.len() - 1 implies (#[trigger] s[j]).addr <= a by {
                assert(s[j] == t[j]);
            }
        }
    }
}

/// Among sorted nodes, some place fits a node.
pub proof fn lemma_insert_pos_exists(s: Seq<FreeNode>, a: usize)
    requires
        sorted(s),
    ensures
        is_insert_pos(s, a, insert_pos(s, a)),
{
    lemma_first_above(s, a);
    lemma_insert_pos_unique(s, a, first_above(s, a));
}

/// Free chunks in order of address, with adjacent chunks merged as they come in.
pub struct FreeList {
    nodes: Vec<FreeNode>,
}

impl View for FreeList {
    type V = Seq<FreeNode>;

    closed spec fn view(&self) -> Seq<FreeNode> {
        self.nodes@
    }
}

impl FreeList {
    pub open spec fn wf(&self) -> bool {
        sorted(self@) && nodes_wf(self@)
    }

    pub fn new() -> (l: FreeList)
        ensures
            l@ == Seq::<FreeNode>::empty(),
            l.wf(),
    {
        FreeList { nodes: Vec::new() }
    }

    /// Number of nodes.
    pub fn count(&self) -> (n: usize)
        ensures
            n == self@.len(),
    {
        self.nodes.len()
    }

    /// The node at the highest address, if any.
    pub fn last(&self) -> (r: Option<FreeNode>)
        ensures
            r == if self@.len() == 0 { None::<FreeNode> } else { Some(self@.last()) },
    {
        let n = self.nodes.len();
        if n == 0 {
            None
        } else {
            Some(self.nodes[n - 1])
        }
    }

    /// The node at the lowest address, if any.
    pub fn head(&self) -> (r: Option<FreeNode>)
        ensures
            r == if self@.len() == 0 { None::<FreeNode> } else { Some(self@[0]) },
    {
        if self.nodes.len() == 0 {
            None
        } else {
            Some(self.nodes[0])
        }
    }

    /// The nodes, in order.
    pub fn iter(&self) -> (v: Vec<FreeNode>)
        ensures
            v@ == self@,
    {
        let mut v: Vec<FreeNode> = Vec::new();
        let mut i: usize = 0;
        while i < self.nodes.len()
            invariant
                i <= self.nodes@.len(),
                v@ == self.nodes@.subrange(0, i as int),
            decreases self.nodes@.len() - i,
        {
            v.push(self.nodes[i]);
            i = i + 1;
            assert(v@ =~= self.nodes@.subrange(0, i as int));
        }
        assert(v@ =~= self.nodes@);
        v
    }

    /// Some node holds the byte at `ptr`.
    pub fn check_double_free(&self, ptr: usize) -> (r: bool)
        requires
            self.wf(),
        ensures
            r == covered(self@).contains(ptr as int),
    {
        let mut i: usize = 0;
        while i < self.nodes.len()
            invariant
                self.wf(),
                i <= self@.len(),
                forall|j: int| 0 <= j < i ==> !(#[trigger] self@[j]).range().contains(ptr as int),
            decreases self@.len() - i,
        {
            if self.nodes[i].contains(ptr) {
                assert(self@[i as int].range().contains(ptr as int));
                return true;
            }
            i = i + 1;
        }
        false
    }

    /// Index of the first node on which `f` holds, if any.
    fn position_if<F: Fn(&FreeNode) -> bool>(&self, f: &F) -> (r: Option<usize>)
        requires
            forall|n: &FreeNode| #[trigger] f.requires((n,)),
        ensures
            match r {
                Some(i) => i < self@.len() && f.ensures((&self@[i as int],), true)
                    && forall|j: int| 0 <= j < i ==> f.ensures((&self@[j],), false),
                None => forall|j: int| 0 <= j < self@.len() ==> f.ensures((&self@[j],), false),
            },
    {
        let mut i: usize = 0;
        while i < self.nodes.len()
            invariant
                forall|n: &FreeNode| #[trigger] f.requires((n,)),
                i <= self@.len(),
                forall|j: int| 0 <= j < i ==> f.ensures((&self@[j],), false),
            decreases self@.len() - i,
        {
            let b = f(&self.nodes[i]);
            if b {
                return Some(i);
            }
            i = i + 1;
        }
        None
    }

    /// The first node on which `f` holds, if any.
    pub fn find_if<F: Fn(&FreeNode) -> bool>(&self, f: F) -> (r: Option<FreeNode>)
        requires
            forall|n: &FreeNode| #[trigger] f.requires((n,)),
        ensures
            match r {
                Some(n) => exists|i: int| 0 <= i < self@.len() && self@[i] == n
                    && f.ensures((&self@[i],), true)
                    && forall|j: int| 0 <= j < i ==> f.ensures((&self@[j],), false),
                None => forall|j: int| 0 <= j < self@.len() ==> f.ensures((&self@[j],), false),
            },
    {
        match self.position_if(&f) {
            Some(i) => Some(self.nodes[i]),
            None => None,
        }
    }

    /// Takes the first node on which `f` holds off the list, and returns it.
    pub fn remove_if<F: Fn(&FreeNode) -> bool>(&mut self, f: F) -> (r: Option<FreeNode>)
        requires
            old(self).wf(),
            forall|n: &FreeNode| #[trigger] f.requires((n,)),
        ensures
            final(self).wf(),
            match r {
                Some(n) => exists|i: int| 0 <= i < old(self)@.len() && old(self)@[i] == n
                    && f.ensures((&old(self)@[i],), true)
                    && (forall|j: int| 0 <= j < i ==> f.ensures((&old(self)@[j],), false))
                    && final(self)@ == old(self)@.remove(i),
                None => (forall|j: int| 0 <= j < old(self)@.len() ==> f.ensures((&old(self)@[j],), false))
                    && final(self)@ == old(self)@,
            },
    {
        match self.position_if(&f) {
            Some(i) => {
                let ghost s0 = self@;
                let n = self.nodes.remove(i);
                proof {
                    let s1 = self@;
                    assert(s1 == s0.remove(i as int));
                    assert forall|a: int, b: int| 0 <= a < b < s1.len() implies (#[trigger] s1[a]).addr <= (#[trigger] s1[b]).addr by {
                        let aa = if a < i { a } else { a + 1 };
                        let bb = if b < i { b } else { b + 1 };
                        assert(s1[a] == s0[aa] && s1[b] == s0[bb]);
                    }
                    assert forall|a: int| 0 <= a < s1.len() implies (#[trigger] s1[a]).wf() by {
                        if a < i { assert(s1[a] == s0[a]); } else { assert(s1[a] == s0[a + 1]); }
                    }
                }
                Some(n)
            },
            None => None,
        }
    }

    /// Merges node `i` with the adjacent nodes on either side.
    fn try_merge_at(&mut self, i: usize)
        requires
            old(self).wf(),
            i < old(self)@.len(),
        ensures
            final(self)@ == merge_around(old(self)@, i as int),
            final(self).wf(),
    {
        self.merge_next_at(i);
        self.merge_prev_at(i);
    }

    /// Node `i` takes in the next node when that node starts where node `i` ends.
    fn merge_next_at(&mut self, i: usize)
        requires
            old(self).wf(),
            i < old(self)@.len(),
        ensures
            final(self)@ == merge_next(old(self)@, i as int),
            final(self).wf(),
    {
        let ghost s0 = self@;
        if i < self.nodes.len() - 1 && self.nodes[i].addr + self.nodes[i].bytes == self.nodes[i + 1].addr {
            let next = self.nodes.remove(i + 1);
            let cur = self.nodes[i];
            self.nodes.set(i, FreeNode { addr: cur.addr, bytes: cur.bytes + next.bytes });
            assert(self@ =~= s0.update(i as int, joined(s0[i as int], s0[i + 1])).remove(i + 1));
            let ghost s1 = self@;
            assert forall|a: int, b: int| 0 <= a < b < s1.len() implies (#[trigger] s1[a]).addr <= (#[trigger] s1[b]).addr by {
                let aa = if a <= i { a } else { a + 1 };
                let bb = if b <= i { b } else { b + 1 };
                assert(s1[a].addr == s0[aa].addr);
                assert(s1[b].addr == s0[bb].addr);
            }
            assert forall|a: int| 0 <= a < s1.len() implies (#[trigger] s1[a]).wf() by {
                if a < i { assert(s1[a] == s0[a]); } else if a > i { assert(s1[a] == s0[a + 1]); }
                else { assert(s0[a + 1].wf()); }
            }
        }
    }

    /// Node `i` goes into the node before it when it starts where that node ends.
    fn merge_prev_at(&mut self, i: usize)
        requires
            old(self).wf(),
        ensures
            final(self)@ == merge_prev(old(self)@, i as int),
            final(self).wf(),
    {
        let ghost s0 = self@;
        if i > 0 && i < self.nodes.len() && self.nodes[i - 1].addr + self.nodes[i - 1].bytes == self.nodes[i].addr {
            let cur = self.nodes.remove(i);
            let prev = self.nodes[i - 1];
            self.nodes.set(i - 1, FreeNode { addr: prev.addr, bytes: prev.bytes + cur.bytes });
            assert(self@ =~= s0.update(i - 1, joined(s0[i - 1], s0[i as int])).remove(i as int));
            let ghost s1 = self@;
            assert forall|a: int, b: int| 0 <= a < b < s1.len() implies (#[trigger] s1[a]).addr <= (#[trigger] s1[b]).addr by {
                let aa = if a < i { a } else { a + 1 };
                let bb = if b < i { b } else { b + 1 };
                assert(s1[a].addr == s0[aa].addr);
                assert(s1[b].addr == s0[bb].addr);
            }
            assert forall|a: int| 0 <= a < s1.len() implies (#[trigger] s1[a]).wf() by {
                if a < i - 1 { assert(s1[a] == s0[a]); } else if a >= i { assert(s1[a] == s0[a + 1]); }
                else { assert(s0[i as int].wf()); }
            }
        }
    }

    /// Inserts `node` in address order and merges it with the nodes right before and
    /// after it when they are adjacent.
    pub fn insert(&mut self, node: FreeNode)
        requires
            old(self).wf(),
            node.wf(),
        ensures
            final(self).wf(),
            final(self)@ == insert_seq(old(self)@, node),
    {
        let ghost s0 = self@;
        let len = self.nodes.len();
        if len == 0 {
            self.nodes.push(node);
            assert(self@ =~= seq![node]);
            return;
        }
        let mut k: usize = 0;
        while k < len && self.nodes[k].addr <= node.addr
            invariant
                self@ == s0,
                len == s0.len(),
                k <= len,
                forall|j: int| 0 <= j < k ==> (#[trigger] s0[j]).addr <= node.addr,
            decreases len - k,
        {
            k = k + 1;
        }
        proof { lemma_insert_pos_unique(s0, node.addr, k as int); }
        self.nodes.insert(k, node);
        let ghost s1 = self@;
        assert(s1 == s0.insert(k as int, node));
        assert(sorted(s1) && nodes_wf(s1)) by {
            assert forall|a: int, b: int| 0 <= a < b < s1.len() implies (#[trigger] s1[a]).addr <= (#[trigger] s1[b]).addr by {
                if a < k && b < k {
                    assert(s1[a] == s0[a] && s1[b] == s0[b]);
                } else if a < k && b == k {
                    assert(s1[a] == s0[a]);
                } else if a < k {
                    assert(s1[a] == s0[a] && s1[b] == s0[b - 1]);
                } else if a == k {
                    assert(s1[b] == s0[b - 1]);
                    assert(s0[k as int].addr <= s0[b - 1].addr);
                } else {
                    assert(s1[a] == s0[a - 1] && s1[b] == s0[b - 1]);
                }
            }
            assert forall|a: int| 0 <= a < s1.len() implies (#[trigger] s1[a]).wf() by {
                if a < k { assert(s1[a] == s0[a]); } else if a > k { assert(s1[a] == s0[a - 1]); }
            }
        }
        self.try_merge_at(k);
    }
}

} // verus!
