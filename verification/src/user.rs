use vstd::prelude::*;
use vstd::layout::size_of;
use crate::constant::PAGE_SIZE;
use crate::errno::Errno;
use crate::util::{virt_to_phys, spec_virt_to_phys};
use crate::page_allocator::{PageAllocator, GFP, alloc_high_outcome};
use crate::buddy_allocator::alloc_outcome;

verus! {

broadcast use vstd::layout::layout_of_primitives;

/// Kind of an entry of the auxiliary vector handed to a new process.
#[derive(Clone, Copy, Debug, PartialEq, Eq, Structural)]
pub enum AuxEntryType {
    Null,
    Ignore,
    Phdr,
    Phent,
    Phnum,
    Pagesz,
    Base,
    Entry,
    Execfn,
}

impl AuxEntryType {
    /// Number of the kind in the auxiliary vector.
    pub open spec fn spec_code(self) -> usize {
        match self {
            AuxEntryType::Null => 0,
            AuxEntryType::Ignore => 1,
            AuxEntryType::Phdr => 3,
            AuxEntryType::Phent => 4,
            AuxEntryType::Phnum => 5,
            AuxEntryType::Pagesz => 6,
            AuxEntryType::Base => 7,
            AuxEntryType::Entry => 9,
            AuxEntryType::Execfn => 31,
        }
    }

    /// Number of the kind in the auxiliary vector.
    pub fn code(&self) -> (c: usize)
        ensures
            c == self.spec_code(),
    {
        match self {
            AuxEntryType::Null => 0,
            AuxEntryType::Ignore => 1,
            AuxEntryType::Phdr => 3,
            AuxEntryType::Phent => 4,
            AuxEntryType::Phnum => 5,
            AuxEntryType::Pagesz => 6,
            AuxEntryType::Base => 7,
            AuxEntryType::Entry => 9,
            AuxEntryType::Execfn => 31,
        }
    }
}

/// Entry of the auxiliary vector: a kind and a value.
#[derive(Clone, Copy, Debug, PartialEq, Eq, Structural)]
pub struct AuxEntry {
    pub kind: AuxEntryType,
    pub value: usize,
}

impl AuxEntry {
    /// The entry that ends the vector.
    pub fn new_null() -> (e: AuxEntry)
        ensures
            e.kind == AuxEntryType::Null,
            e.value == 0,
    {
        AuxEntry { kind: AuxEntryType::Null, value: 0 }
    }

    pub fn new(kind: AuxEntryType, value: usize) -> (e: AuxEntry)
        ensures
            e.kind == kind,
            e.value == value,
    {
        AuxEntry { kind, value }
    }

    /// The words of the entry in the order they are pushed: value, then kind.
    pub fn serialize(&self) -> (r: [usize; 2])
        ensures
            r@ == seq![self.value, self.kind.spec_code()],
    {
        let r = [self.value, self.kind.code()];
        assert(r@ =~= seq![self.value, self.kind.spec_code()]);
        r
    }
}

/// Words per page.
pub open spec fn words_per_page() -> int {
    PAGE_SIZE as int / size_of::<usize>() as int
}

/// What pushing the word `data` onto `s0`, with pages from `p0`, leaves in `s1` and `p1`
/// and returns: the word goes on the last page, or on a fresh page from high memory (or
/// the linear map) when the last page is full; `ENOMEM` and nothing pushed when no page
/// comes.
pub open spec fn push_outcome(s0: UserStack, s1: UserStack, p0: PageAllocator, p1: PageAllocator, data: usize,
    r: Result<(), Errno>) -> bool {
    let w = size_of::<usize>() as int;
    if s0.spec_next_offset() != PAGE_SIZE {
        &&& r == Ok::<(), Errno>(())
        &&& p1 == p0
        &&& s1.spec_pages() == s0.spec_pages()
        &&& s1.spec_words() == s0.spec_words().push(data)
        &&& s1.spec_next_offset() == if s0.spec_next_offset() == 0 { PAGE_SIZE as int } else { s0.spec_next_offset() - w }
    } else {
        exists|ra: Result<usize, ()>| #[trigger] alloc_high_outcome(p0, p1, 0, ra) && match ra {
            Ok(a) => {
                &&& r == Ok::<(), Errno>(())
                &&& s1.spec_pages() == s0.spec_pages().push(spec_virt_to_phys(a as int) as usize)
                &&& s1.spec_words() == s0.spec_words().push(data)
                &&& s1.spec_next_offset() == PAGE_SIZE - 2 * w
            },
            Err(_) => {
                &&& r == Err::<(), Errno>(Errno::ENOMEM)
                &&& s1.spec_pages() == s0.spec_pages()
                &&& s1.spec_words() == s0.spec_words()
                &&& s1.spec_next_offset() == s0.spec_next_offset()
            },
        }
    }
}

/// The stack of a new process, built downwards page by page: the physical pages, taken
/// as they are needed, the words pushed so far, and the offset in the last page where the
/// next word goes (`PAGE_SIZE` when the next word needs a new page).
pub struct UserStack {
    pages: Vec<usize>,
    words: Vec<usize>,
    next_offset: usize,
}

impl UserStack {
    /// The physical pages, first page first.
    pub closed spec fn spec_pages(&self) -> Seq<usize> {
        self.pages@
    }

    /// The words pushed, first word first.
    pub closed spec fn spec_words(&self) -> Seq<usize> {
        self.words@
    }

    pub closed spec fn spec_next_offset(&self) -> usize {
        self.next_offset
    }

    pub closed spec fn wf(&self) -> bool {
        &&& self.next_offset <= PAGE_SIZE
        &&& (self.next_offset as int) % (size_of::<usize>() as int) == 0
        &&& (size_of::<usize>() == 4 || size_of::<usize>() == 8)
    }

    /// An empty stack.
    pub fn new() -> (s: UserStack)
        ensures
            s.wf(),
            s.spec_pages() == Seq::<usize>::empty(),
            s.spec_words() == Seq::<usize>::empty(),
            s.spec_next_offset() == PAGE_SIZE,
    {
        proof { crate::util::lemma_modulus_is_pow2(); }
        UserStack { pages: Vec::new(), words: Vec::new(), next_offset: PAGE_SIZE }
    }

    /// Pushes the word `data`, on a new page from high memory (or the linear map when high
    /// memory has none) when the last page is full.
    pub fn push(&mut self, data: usize, pa: &mut PageAllocator) -> (r: Result<(), Errno>)
        requires
            old(self).wf(),
            old(pa).wf(),
        ensures
            final(self).wf(),
            final(pa).wf(),
            old(self).spec_next_offset() != PAGE_SIZE ==> *final(pa) == *old(pa) && r is Ok,
            r is Err ==> r == Err::<(), Errno>(Errno::ENOMEM) && final(self).spec_words() == old(self).spec_words()
                && final(self).spec_pages() == old(self).spec_pages()
                && final(self).spec_next_offset() == old(self).spec_next_offset(),
            r is Ok ==> ({
                let o = if old(self).spec_next_offset() == PAGE_SIZE {
                    PAGE_SIZE - size_of::<usize>()
                } else {
                    old(self).spec_next_offset() as int
                };
                &&& final(self).spec_words() == old(self).spec_words().push(data)
                &&& old(self).spec_next_offset() == PAGE_SIZE ==> final(self).spec_pages().len() == old(self).spec_pages().len() + 1
                    && final(self).spec_pages().drop_last() == old(self).spec_pages()
                &&& old(self).spec_next_offset() != PAGE_SIZE ==> final(self).spec_pages() == old(self).spec_pages()
                &&& final(self).spec_next_offset() == if o == 0 { PAGE_SIZE as int } else { o - size_of::<usize>() }
            }),
            old(self).spec_next_offset() == PAGE_SIZE ==>
                (r is Ok <==> old(pa).high().can_serve(0) || old(pa).normal().can_serve(0)),
            push_outcome(*old(self), *final(self), *old(pa), *final(pa), data, r),
    {
        let w = core::mem::size_of::<usize>();
        if self.next_offset == PAGE_SIZE {
            let ra = pa.alloc_page(0, GFP::High);
            proof {
                assert(alloc_high_outcome(*old(pa), *pa, 0, ra));
            }
            match ra {
                Ok(a) => {
                    self.pages.push(virt_to_phys(a));
                },
                Err(_) => {
                    return Err(Errno::ENOMEM);
                },
            }
            self.next_offset = self.next_offset - w;
        }
        self.words.push(data);
        if self.next_offset == 0 {
            self.next_offset = PAGE_SIZE;
        } else {
            self.next_offset = self.next_offset - w;
        }
        proof {
            assert(self.pages@.drop_last() =~= old(self).pages@ || self.pages@ == old(self).pages@);
        }
        Ok(())
    }

    /// Pushes the words of `aux`: its value, then its kind.
    pub fn push_aux_entry(&mut self, aux: AuxEntry, pa: &mut PageAllocator) -> (r: Result<(), Errno>)
        requires
            old(self).wf(),
            old(pa).wf(),
        ensures
            final(self).wf(),
            final(pa).wf(),
            r is Ok ==> final(self).spec_words() == old(self).spec_words().push(aux.value).push(aux.kind.spec_code()),
            r is Err ==> r == Err::<(), Errno>(Errno::ENOMEM),
            r is Err && old(self).spec_next_offset() == PAGE_SIZE ==>
                final(self).spec_words() == old(self).spec_words() && final(self).spec_pages() == old(self).spec_pages()
                && final(self).spec_next_offset() == old(self).spec_next_offset(),
            r is Err && old(self).spec_next_offset() != PAGE_SIZE ==>
                final(self).spec_words() == old(self).spec_words().push(aux.value)
                && final(self).spec_pages() == old(self).spec_pages() && final(self).spec_next_offset() == PAGE_SIZE,
            r is Ok <==> ({
                let can = old(pa).high().can_serve(0) || old(pa).normal().can_serve(0);
                &&& old(self).spec_next_offset() == PAGE_SIZE ==> can
                &&& old(self).spec_next_offset() == 0 ==> can
            }),
            exists|mid: UserStack, pmid: PageAllocator, r1: Result<(), Errno>|
                #[trigger] push_outcome(*old(self), mid, *old(pa), pmid, aux.value, r1) && if r1 is Ok {
                    push_outcome(mid, *final(self), pmid, *final(pa), aux.kind.spec_code(), r)
                } else {
                    r == r1 && *final(self) == mid && *final(pa) == pmid
                },
    {
        let data = aux.serialize();
        let r1 = self.push(data[0], pa);
        let ghost mid = *self;
        let ghost pmid = *pa;
        if r1.is_err() {
            assert(push_outcome(*old(self), mid, *old(pa), pmid, aux.value, r1));
            return r1;
        }
        let r2 = self.push(data[1], pa);
        assert(push_outcome(*old(self), mid, *old(pa), pmid, aux.value, r1));
        r2
    }

    /// The address of the last word pushed, when the pages sit right below `base`.
    pub fn get_stack_pointer(&self, base: usize) -> (sp: usize)
        requires
            self.wf(),
            self.spec_pages().len() * PAGE_SIZE <= base,
            base - self.spec_pages().len() * PAGE_SIZE + self.spec_next_offset() + size_of::<usize>() <= usize::MAX,
        ensures
            sp == base - self.spec_pages().len() * PAGE_SIZE + self.spec_next_offset() + size_of::<usize>(),
    {
        base - self.pages.len() * PAGE_SIZE + self.next_offset + core::mem::size_of::<usize>()
    }

    /// Takes the first page off the stack.
    pub fn pop_page(&mut self) -> (r: Option<usize>)
        ensures
            old(self).spec_pages().len() == 0 ==> r is None && *final(self) == *old(self),
            old(self).spec_pages().len() > 0 ==> r == Some(old(self).spec_pages()[0])
                && final(self).spec_pages() == old(self).spec_pages().drop_first()
                && final(self).spec_words() == old(self).spec_words()
                && final(self).spec_next_offset() == old(self).spec_next_offset(),
    {
        if self.pages.len() == 0 {
            None
        } else {
            let p = self.pages.remove(0);
            assert(self.pages@ =~= old(self).pages@.drop_first());
            Some(p)
        }
    }
}

/// The views of the strings.
pub open spec fn views(v: Seq<Vec<u8>>) -> Seq<Seq<u8>> {
    v.map_values(|x: Vec<u8>| x@)
}

/// The strings one after the other, each ended by a zero byte.
pub open spec fn joined(strs: Seq<Seq<u8>>) -> Seq<u8>
    decreases strs.len(),
{
    if strs.len() == 0 {
        Seq::empty()
    } else {
        joined(strs.drop_last()) + strs.last() + seq![0u8]
    }
}

/// Where each string starts in `joined(strs)`.
pub open spec fn offsets(strs: Seq<Seq<u8>>) -> Seq<usize>
    decreases strs.len(),
{
    if strs.len() == 0 {
        Seq::empty()
    } else {
        offsets(strs.drop_last()).push(joined(strs.drop_last()).len() as usize)
    }
}

/// Some string does not fit in `max_bytes` bytes together with the strings before it.
pub open spec fn too_big(strs: Seq<Seq<u8>>, max_bytes: int) -> bool {
    exists|k: int| 0 <= k < strs.len() && (#[trigger] strs[k]).len() + joined(strs.take(k)).len() > max_bytes
}

/// Where a string starts is the length of the strings before it, each with its zero byte,
/// when the strings fit in the address space.
pub proof fn lemma_offsets_at(strs: Seq<Seq<u8>>, k: int)
    requires
        0 <= k < strs.len(),
        !too_big(strs, usize::MAX as int),
    ensures
        offsets(strs).len() == strs.len(),
        offsets(strs)[k] == joined(strs.take(k)).len(),
    decreases strs.len(),
{
    let d = strs.drop_last();
    assert(d.take(d.len() as int) =~= d);
    assert(strs.take(d.len() as int) =~= d);
    assert(!too_big(d, usize::MAX as int)) by {
        assert forall|j: int| 0 <= j < d.len() implies !((#[trigger] d[j]).len() + joined(d.take(j)).len() > usize::MAX) by {
            assert(d.take(j) =~= strs.take(j));
            assert(d[j] == strs[j]);
        }
    }
    assert(strs[d.len() as int].len() + joined(strs.take(d.len() as int)).len() <= usize::MAX);
    if k < strs.len() - 1 {
        lemma_offsets_at(d, k);
        assert(d.take(k) =~= strs.take(k));
    } else if d.len() > 0 {
        lemma_offsets_at(d, 0);
    }
}

/// The little-endian bytes of the words `ws`, one word after the other.
pub open spec fn le_bytes(ws: Seq<usize>) -> Seq<u8>
    decreases ws.len(),
{
    if ws.len() == 0 {
        Seq::empty()
    } else {
        le_bytes(ws.drop_last()) + word_bytes(ws.last())
    }
}

/// The little-endian bytes of `w`.
pub open spec fn word_bytes(w: usize) -> Seq<u8> {
    Seq::new(size_of::<usize>(), |j: int| ((w >> ((8 * j) as usize)) & 0xff) as u8)
}

/// The words as they lie in memory, least significant byte first.
pub fn words_to_bytes(ws: &Vec<usize>) -> (b: Vec<u8>)
    ensures
        b@ == le_bytes(ws@),
{
    let n = core::mem::size_of::<usize>();
    let mut b: Vec<u8> = Vec::new();
    let mut i: usize = 0;
    while i < ws.len()
        invariant
            i <= ws@.len(),
            n == size_of::<usize>(),
            n == 4 || n == 8,
            b@ == le_bytes(ws@.take(i as int)),
        decreases ws@.len() - i,
    {
        let w = ws[i];
        let ghost b0 = b@;
        let mut j: usize = 0;
        while j < n
            invariant
                j <= n,
                n == size_of::<usize>(),
                n == 4 || n == 8,
                b@ == b0 + word_bytes(w).take(j as int),
            decreases n - j,
        {
            b.push(((w >> (8 * j)) & 0xff) as u8);
            j = j + 1;
            assert(b@ =~= b0 + word_bytes(w).take(j as int));
        }
        assert(word_bytes(w).take(n as int) =~= word_bytes(w));
        assert(ws@.take(i + 1).drop_last() =~= ws@.take(i as int));
        i = i + 1;
    }
    assert(ws@.take(ws@.len() as int) =~= ws@);
    b
}

/// Argument or environment strings packed for a new process: the bytes of all strings,
/// each ended by a zero byte, and where each string starts.
pub struct StringVec {
    pub data: Vec<u8>,
    pub index: Vec<usize>,
}

impl StringVec {
    /// No string.
    pub fn new_null() -> (v: StringVec)
        ensures
            v.data@ == Seq::<u8>::empty(),
            v.index@ == Seq::<usize>::empty(),
    {
        StringVec { data: Vec::new(), index: Vec::new() }
    }

    /// Packs `strings`, failing with `E2BIG` when a string does not fit in `max_bytes`
    /// bytes together with the strings before it.
    #[verifier::rlimit(40)]
    pub fn new(strings: &Vec<Vec<u8>>, max_bytes: usize) -> (r: Result<StringVec, Errno>)
        ensures
            match r {
                Ok(v) => !too_big(views(strings@), max_bytes as int) && v.data@ == joined(views(strings@))
                    && v.index@ == offsets(views(strings@)),
                Err(e) => e == Errno::E2BIG && too_big(views(strings@), max_bytes as int),
            },
    {
        let ghost strs = views(strings@);
        let mut data: Vec<u8> = Vec::new();
        let mut index: Vec<usize> = Vec::new();
        let mut k: usize = 0;
        while k < strings.len()
            invariant
                strs == views(strings@),
                k <= strings@.len(),
                data@ == joined(strs.take(k as int)),
                index@ == offsets(strs.take(k as int)),
                data@.len() <= max_bytes + 1,
                !too_big(strs.take(k as int), max_bytes as int),
            decreases strings@.len() - k,
        {
            let s = &strings[k];
            assert(strs.take(k + 1).drop_last() =~= strs.take(k as int));
            assert(strs.take(k + 1).last() == s@);
            if data.len() > max_bytes || s.len() > max_bytes - data.len() {
                assert(strs[k as int].len() + joined(strs.take(k as int)).len() > max_bytes);
                return Err(Errno::E2BIG);
            }
            let start = data.len();
            let mut j: usize = 0;
            while j < s.len()
                invariant
                    j <= s@.len(),
                    data@ == joined(strs.take(k as int)) + s@.subrange(0, j as int),
                    start == joined(strs.take(k as int)).len(),
                decreases s@.len() - j,
            {
                data.push(s[j]);
                j = j + 1;
                assert(data@ =~= joined(strs.take(k as int)) + s@.subrange(0, j as int));
            }
            data.push(0u8);
            index.push(start);
            assert(data@ =~= joined(strs.take(k + 1)));
            proof {
                assert forall|i: int| 0 <= i < k + 1 implies
                    !((#[trigger] strs.take(k + 1)[i]).len() + joined(strs.take(k + 1).take(i)).len() > max_bytes) by {
                    if i < k {
                        assert(strs.take(k + 1).take(i) =~= strs.take(k as int).take(i));
                        assert(strs.take(k + 1)[i] == strs.take(k as int)[i]);
                    } else {
                        assert(strs.take(k + 1).take(i) =~= strs.take(k as int));
                    }
                }
            }
            k = k + 1;
        }
        assert(strs.take(strs.len() as int) =~= strs);
        Ok(StringVec { data, index })
    }

    /// Number of strings.
    pub fn len(&self) -> (n: usize)
        ensures
            n == self.index@.len(),
    {
        self.index.len()
    }
}

/// A page laid out as `offset` zeros, `data`, then zeros up to the end of the page.
pub open spec fn zero_extended(offset: int, data: Seq<u8>) -> Seq<u8> {
    Seq::new(offset as nat, |j: int| 0u8) + data + Seq::new((PAGE_SIZE - offset - data.len()) as nat, |j: int| 0u8)
}

/// The bytes of one page to write: `data` at `offset`, zeros around it.
pub struct ZeroExtendedChunk {
    pub offset: usize,
    pub data: Vec<u8>,
}

impl ZeroExtendedChunk {
    pub fn new(data: Vec<u8>, offset: usize) -> (c: ZeroExtendedChunk)
        requires
            data@.len() + offset <= PAGE_SIZE,
        ensures
            c.offset == offset,
            c.data@ == data@,
    {
        ZeroExtendedChunk { offset, data }
    }

    /// Writes the page at `at` in `page`.
    pub fn write_to_page(&self, page: &mut Vec<u8>, at: usize)
        requires
            self.data@.len() + self.offset <= PAGE_SIZE,
            at + PAGE_SIZE <= old(page)@.len(),
        ensures
            final(page)@ == old(page)@.subrange(0, at as int) + zero_extended(self.offset as int, self.data@)
                + old(page)@.subrange(at + PAGE_SIZE, old(page)@.len() as int),
    {
        let ghost want = zero_extended(self.offset as int, self.data@);
        let len = page.len();
        let mut j: usize = 0;
        while j < PAGE_SIZE
            invariant
                j <= PAGE_SIZE,
                page@.len() == len,
                want == zero_extended(self.offset as int, self.data@),
                self.data@.len() + self.offset <= PAGE_SIZE,
                at + PAGE_SIZE <= page@.len(),
                page@.len() == old(page)@.len(),
                forall|i: int| 0 <= i < at ==> #[trigger] page@[i] == old(page)@[i],
                forall|i: int| at + PAGE_SIZE <= i < page@.len() ==> #[trigger] page@[i] == old(page)@[i],
                forall|i: int| 0 <= i < j ==> #[trigger] page@[at + i] == want[i],
            decreases PAGE_SIZE - j,
        {
            let b = if j < self.offset || j >= self.offset + self.data.len() { 0u8 } else { self.data[j - self.offset] };
            assert(b == want[j as int]);
            page.set(at + j, b);
            j = j + 1;
        }
        assert(want.len() == PAGE_SIZE);
        assert forall|i: int| 0 <= i < page@.len() implies page@[i] == (old(page)@.subrange(0, at as int) + want
            + old(page)@.subrange(at + PAGE_SIZE, old(page)@.len() as int))[i] by {
            if at <= i < at + PAGE_SIZE {
                assert(page@[at + (i - at)] == want[i - at]);
            }
        }
        assert(page@ =~= old(page)@.subrange(0, at as int) + want + old(page)@.subrange(at + PAGE_SIZE, old(page)@.len() as int));
    }
}

/// Data to lay out on pages from an address that need not be page aligned: each page
/// gets its part of the data, zeros before it on the first page, and zeros after the end
/// of the data, for `remain_bytes` bytes from the start address in all.
pub struct PageAlignedChunk {
    next_offset: usize,
    remain_bytes: usize,
    data: Vec<u8>,
    pos: usize,
}

impl PageAlignedChunk {
    /// Offset in its page where the next chunk starts.
    pub closed spec fn spec_next_offset(&self) -> usize {
        self.next_offset
    }

    /// Bytes still to lay out.
    pub closed spec fn spec_remain(&self) -> usize {
        self.remain_bytes
    }

    /// Data still to lay out.
    pub closed spec fn spec_data(&self) -> Seq<u8> {
        self.data@.subrange(self.pos as int, self.data@.len() as int)
    }

    pub closed spec fn wf(&self) -> bool {
        self.pos <= self.data@.len() && self.next_offset < PAGE_SIZE
    }

    pub fn new(start_addr: usize, data: &[u8], total_bytes: usize) -> (c: PageAlignedChunk)
        ensures
            c.wf(),
            c.spec_next_offset() == start_addr % PAGE_SIZE,
            c.spec_remain() == total_bytes,
            c.spec_data() == data@,
    {
        let mut v: Vec<u8> = Vec::new();
        let mut i: usize = 0;
        while i < data.len()
            invariant
                i <= data@.len(),
                v@ == data@.subrange(0, i as int),
            decreases data@.len() - i,
        {
            v.push(data[i]);
            i = i + 1;
            assert(v@ =~= data@.subrange(0, i as int));
        }
        assert(v@.subrange(0, v@.len() as int) =~= data@);
        PageAlignedChunk { next_offset: start_addr % PAGE_SIZE, remain_bytes: total_bytes, data: v, pos: 0 }
    }

    /// The next page to write, if any bytes remain: as much of the data as fits from the
    /// current offset to the end of the page.
    pub fn next(&mut self) -> (r: Option<ZeroExtendedChunk>)
        requires
            old(self).wf(),
        ensures
            final(self).wf(),
            old(self).spec_remain() == 0 ==> r is None && final(self).spec_remain() == 0
                && final(self).spec_data() == old(self).spec_data()
                && final(self).spec_next_offset() == old(self).spec_next_offset(),
            old(self).spec_remain() > 0 ==> ({
                let room = PAGE_SIZE - old(self).spec_next_offset();
                let n = if old(self).spec_data().len() < room { old(self).spec_data().len() as int } else { room };
                &&& r matches Some(c) && c.offset == old(self).spec_next_offset()
                    && c.data@ == old(self).spec_data().subrange(0, n)
                    && c.data@.len() + c.offset <= PAGE_SIZE
                &&& final(self).spec_data() == old(self).spec_data().subrange(n, old(self).spec_data().len() as int)
                &&& final(self).spec_next_offset() == 0
                &&& final(self).spec_remain() == if old(self).spec_remain() >= room { old(self).spec_remain() - room } else { 0 }
            }),
    {
        if self.remain_bytes == 0 {
            return None;
        }
        let room = PAGE_SIZE - self.next_offset;
        let avail = self.data.len() - self.pos;
        let n = if avail < room { avail } else { room };
        let mut chunk: Vec<u8> = Vec::new();
        let dlen = self.data.len();
        let mut i: usize = 0;
        while i < n
            invariant
                i <= n,
                self.data@.len() == dlen,
                self.pos + n <= self.data@.len(),
                chunk@ == self.data@.subrange(self.pos as int, self.pos + i),
            decreases n - i,
        {
            chunk.push(self.data[self.pos + i]);
            i = i + 1;
            assert(chunk@ =~= self.data@.subrange(self.pos as int, self.pos + i));
        }
        let c = ZeroExtendedChunk::new(chunk, self.next_offset);
        self.remain_bytes = if self.remain_bytes >= room { self.remain_bytes - room } else { 0 };
        self.next_offset = 0;
        self.pos = self.pos + n;
        assert(c.data@ =~= old(self).spec_data().subrange(0, n as int));
        assert(self.spec_data() =~= old(self).spec_data().subrange(n as int, old(self).spec_data().len() as int));
        Some(c)
    }
}


/// The kinds carry the numbers of the ELF auxiliary vector: `AT_NULL` 0, `AT_IGNORE` 1,
/// `AT_PHDR` 3, `AT_PHENT` 4, `AT_PHNUM` 5, `AT_PAGESZ` 6, `AT_BASE` 7, `AT_ENTRY` 9 and
/// `AT_EXECFN` 31, each kind its own.
pub proof fn lemma_aux_kind_numbers(k: AuxEntryType)
    ensures
        k == AuxEntryType::Null ==> k.spec_code() == 0,
        k == AuxEntryType::Ignore ==> k.spec_code() == 1,
        k == AuxEntryType::Phdr ==> k.spec_code() == 3,
        k == AuxEntryType::Phent ==> k.spec_code() == 4,
        k == AuxEntryType::Phnum ==> k.spec_code() == 5,
        k == AuxEntryType::Pagesz ==> k.spec_code() == 6,
        k == AuxEntryType::Base ==> k.spec_code() == 7,
        k == AuxEntryType::Entry ==> k.spec_code() == 9,
        k == AuxEntryType::Execfn ==> k.spec_code() == 31,
        forall|j: AuxEntryType| #[trigger] j.spec_code() == k.spec_code() ==> j == k,
{
}

} // verus!
