use lib::errno::Errno;
use lib::page_allocator::PageAllocator;
use lib::user::{AuxEntry, AuxEntryType, PageAlignedChunk, StringVec, UserStack, ZeroExtendedChunk};
use lib::vmemory::VMemory;

const PAGE_SIZE: usize = 4096;

struct Lcg {
    state: u32,
}

impl Lcg {
    fn new(seed: u32) -> Lcg {
        Lcg { state: seed }
    }

    fn rand(&mut self) -> u32 {
        self.state = self.state.wrapping_mul(1103515245).wrapping_add(12345);
        self.state >> 16
    }
}

fn write_chunks(buffer: &mut Vec<u8>, start: usize, data: &[u8], total: usize, max_pages: usize) {
    let mut chunks = PageAlignedChunk::new(start, data, total);
    let mut i = 0;
    while let Some(chunk) = chunks.next() {
        assert!(i < max_pages);
        chunk.write_to_page(buffer, i * PAGE_SIZE);
        i += 1;
    }
}

#[test]
fn page_chunk_basic() {
    let mut buffer = vec![42u8; PAGE_SIZE * 2];
    write_chunks(&mut buffer, 0, &[1, 2, 3, 4], 4, 1);

    assert_eq!(buffer[0], 1);
    assert_eq!(buffer[1], 2);
    assert_eq!(buffer[2], 3);
    assert_eq!(buffer[3], 4);
    for ch in &buffer[4..PAGE_SIZE] {
        assert_eq!(*ch, 0);
    }
    for ch in &buffer[PAGE_SIZE..] {
        assert_eq!(*ch, 42);
    }
}

#[test]
fn page_chunk_misalign_onepage() {
    let mut buffer = vec![42u8; PAGE_SIZE * 2];
    write_chunks(&mut buffer, 1, &[1, 2, 3, 4], 4, 1);

    assert_eq!(buffer[0], 0);
    assert_eq!(buffer[1], 1);
    assert_eq!(buffer[2], 2);
    assert_eq!(buffer[3], 3);
    assert_eq!(buffer[4], 4);
    for ch in &buffer[5..PAGE_SIZE] {
        assert_eq!(*ch, 0);
    }
    for ch in &buffer[PAGE_SIZE..] {
        assert_eq!(*ch, 42);
    }
}

#[test]
fn page_chunk_misalign_multipage() {
    let mut buffer = vec![42u8; PAGE_SIZE * 3];
    let mut data = Vec::new();
    let mut rng = Lcg::new(42);
    for _ in 0..5000 {
        data.push(rng.rand() as u8);
    }

    write_chunks(&mut buffer, 42, &data, data.len(), 2);

    for ch in &buffer[..42] {
        assert_eq!(*ch, 0);
    }
    for (a, b) in data.iter().zip(&buffer[42..42 + data.len()]) {
        assert_eq!(*a, *b);
    }
    for ch in &buffer[42 + data.len()..2 * PAGE_SIZE] {
        assert_eq!(*ch, 0);
    }
    for ch in &buffer[2 * PAGE_SIZE..] {
        assert_eq!(*ch, 42);
    }
}

#[test]
fn page_chunk_extend() {
    let mut buffer = vec![42u8; PAGE_SIZE * 2];
    write_chunks(&mut buffer, 0, &[1, 2, 3, 4], 6, 1);

    assert_eq!(buffer[0], 1);
    assert_eq!(buffer[1], 2);
    assert_eq!(buffer[2], 3);
    assert_eq!(buffer[3], 4);
    for ch in &buffer[4..PAGE_SIZE] {
        assert_eq!(*ch, 0);
    }
    for ch in &buffer[PAGE_SIZE..] {
        assert_eq!(*ch, 42);
    }
}

#[test]
fn page_chunk_extend_misaligned() {
    let mut buffer = vec![42u8; PAGE_SIZE * 2];
    write_chunks(&mut buffer, 1, &[1, 2, 3, 4], 6, 1);

    assert_eq!(buffer[0], 0);
    assert_eq!(buffer[1], 1);
    assert_eq!(buffer[2], 2);
    assert_eq!(buffer[3], 3);
    assert_eq!(buffer[4], 4);
    for ch in &buffer[5..PAGE_SIZE] {
        assert_eq!(*ch, 0);
    }
    for ch in &buffer[PAGE_SIZE..] {
        assert_eq!(*ch, 42);
    }
}

#[test]
fn page_chunk_zero_length_writes_nothing() {
    let mut chunks = PageAlignedChunk::new(0x1234, &[1, 2], 0);
    assert!(chunks.next().is_none());
}

#[test]
fn zero_extended_chunk_layout() {
    let mut buffer = vec![7u8; PAGE_SIZE * 2];
    let chunk = ZeroExtendedChunk::new(vec![9, 8], 10);
    chunk.write_to_page(&mut buffer, PAGE_SIZE);
    assert!(buffer[..PAGE_SIZE].iter().all(|b| *b == 7));
    assert!(buffer[PAGE_SIZE..PAGE_SIZE + 10].iter().all(|b| *b == 0));
    assert_eq!(buffer[PAGE_SIZE + 10], 9);
    assert_eq!(buffer[PAGE_SIZE + 11], 8);
    assert!(buffer[PAGE_SIZE + 12..].iter().all(|b| *b == 0));
}

#[test]
fn aux_entry_serialize() {
    assert_eq!(AuxEntry::new_null().serialize(), [0, 0]);
    assert_eq!(AuxEntry::new(AuxEntryType::Pagesz, 4096).serialize(), [4096, 6]);
    assert_eq!(AuxEntry::new(AuxEntryType::Execfn, 0x1000).serialize(), [0x1000, 31]);
    assert_eq!(AuxEntryType::Entry.code(), 9);
}

fn pages(normal_frames: usize) -> PageAllocator {
    let vm = VMemory { normal_pfn: 0..normal_frames, vmalloc_pfn: 0..0, high_pfn: 0..0 };
    PageAllocator::init(&vm, 1024)
}

#[test]
fn user_stack_push_pages() {
    let word = core::mem::size_of::<usize>();
    let mut pa = pages(1024);
    let mut stack = UserStack::new();
    stack.push(0x11, &mut pa).unwrap();
    // one page taken, the word sits at its top
    assert_eq!(stack.get_stack_pointer(0x10_0000), 0x10_0000 - word);
    stack.push_aux_entry(AuxEntry::new(AuxEntryType::Pagesz, 4096), &mut pa).unwrap();
    assert_eq!(stack.get_stack_pointer(0x10_0000), 0x10_0000 - 3 * word);

    // fill the first page: the next push needs a second page
    for i in 0..(PAGE_SIZE / word - 3) {
        stack.push(i, &mut pa).unwrap();
    }
    // a full page: the next word needs a new page
    assert_eq!(stack.get_stack_pointer(0x10_0000), 0x10_0000 + word);
    stack.push(0x22, &mut pa).unwrap();
    assert_eq!(stack.get_stack_pointer(0x10_0000), 0x10_0000 - PAGE_SIZE - word);
    assert!(stack.pop_page().is_some());
    assert!(stack.pop_page().is_some());
    assert!(stack.pop_page().is_none());
}

#[test]
fn user_stack_out_of_memory() {
    let mut pa = pages(0);
    let mut stack = UserStack::new();
    assert_eq!(stack.push(1, &mut pa), Err(Errno::ENOMEM));
    assert!(stack.pop_page().is_none());
}

#[test]
fn user_stack_aux_entry_out_of_memory() {
    let mut pa = pages(0);
    let mut stack = UserStack::new();
    assert_eq!(stack.push_aux_entry(AuxEntry::new(AuxEntryType::Entry, 0x8048000), &mut pa), Err(Errno::ENOMEM));
    assert!(stack.pop_page().is_none());
    let mut pa = pages(1024);
    assert_eq!(stack.push_aux_entry(AuxEntry::new(AuxEntryType::Entry, 0x8048000), &mut pa), Ok(()));
}

#[test]
fn string_vec_packs_strings() {
    let strings = vec![b"ls".to_vec(), b"-l".to_vec(), Vec::new()];
    let v = StringVec::new(&strings, 100).unwrap();
    assert_eq!(v.data, b"ls\0-l\0\0".to_vec());
    assert_eq!(v.index, vec![0, 3, 6]);
    assert_eq!(v.len(), 3);
    let empty = StringVec::new_null();
    assert_eq!(empty.len(), 0);
}

#[test]
fn string_vec_too_big() {
    let strings = vec![b"abc".to_vec(), b"defg".to_vec()];
    assert!(StringVec::new(&strings, 8).is_ok());
    assert!(matches!(StringVec::new(&strings, 7), Err(Errno::E2BIG)));
}

#[test]
fn string_vec_without_limit() {
    let strings = vec![b"x".to_vec(), b"yz".to_vec()];
    let v = StringVec::new(&strings, usize::MAX).unwrap();
    assert_eq!(v.data, b"x\0yz\0".to_vec());
    assert_eq!(v.index, vec![0, 2]);
}
