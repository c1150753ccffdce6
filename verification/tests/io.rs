//! Files, buffers and the rules of file access.
use paddock_core::error::IoErrorKind;
use paddock_core::io::aligned_buf::{round_up, AlignedBuf, BufferPool, PAGE_SIZE};
use paddock_core::io::direct::{Alignment, Transfer};
use paddock_core::io::linux_vfs::LinuxVfs;
use paddock_core::io::mmap::{check_range, mapping_len};
use paddock_core::io::read_only::OneFileVfs;
use paddock_core::io::uring::{check_room, Completion};
use paddock_core::io::vfs::{read_vec, MemVfs, Vfs, VfsFile};
use paddock_core::Error;

fn kind_of(e: Error) -> IoErrorKind {
    match e {
        Error::Io(e) => e.kind,
        other => panic!("not an I/O error: {other:?}"),
    }
}

#[test]
fn round_up_handles_aligned_and_unaligned() {
    assert_eq!(round_up(0, 4096), 0);
    assert_eq!(round_up(1, 4096), 4096);
    assert_eq!(round_up(4095, 4096), 4096);
    assert_eq!(round_up(4096, 4096), 4096);
    assert_eq!(round_up(4097, 4096), 8192);
}

#[test]
fn aligned_buf_pointer_is_page_aligned() {
    let buf = AlignedBuf::new(8192).unwrap();
    assert_eq!(buf.as_slice().as_ptr() as usize % PAGE_SIZE, 0);
    assert_eq!(buf.len(), 8192);
    assert_eq!(buf.alignment(), PAGE_SIZE);
}

#[test]
fn aligned_buf_rounds_length_up() {
    let buf = AlignedBuf::new(1).unwrap();
    assert_eq!(buf.len(), PAGE_SIZE);
    let buf = AlignedBuf::new(PAGE_SIZE + 1).unwrap();
    assert_eq!(buf.len(), 2 * PAGE_SIZE);
}

#[test]
fn aligned_buf_zero_length_request_yields_one_page() {
    let buf = AlignedBuf::new(0).unwrap();
    assert_eq!(buf.len(), PAGE_SIZE);
    assert!(!buf.is_empty());
}

#[test]
fn aligned_buf_is_zero_initialised() {
    let buf = AlignedBuf::new(8192).unwrap();
    assert!(buf.as_slice().iter().all(|&b| b == 0));
}

#[test]
fn aligned_buf_supports_mutation_via_deref() {
    let mut buf = AlignedBuf::new(4096).unwrap();
    buf.as_mut_slice()[0] = 0xAA;
    buf.as_mut_slice()[4095] = 0xBB;
    assert_eq!(buf.as_slice()[0], 0xAA);
    assert_eq!(buf.as_slice()[4095], 0xBB);
}

#[test]
fn aligned_buf_begins_at_the_first_aligned_address() {
    let storage: Vec<u8> = (0..24u8).collect();
    // From address 1005 on, the first multiple of eight is 1008.
    let buf = AlignedBuf::at_address(storage, 1005, 16, 8);
    let expected: Vec<u8> = (3..19u8).collect();
    assert_eq!(buf.as_slice(), expected.as_slice());
    assert_eq!(buf.alignment(), 8);
    let buf = AlignedBuf::at_address((0..24u8).collect(), 1000, 16, 8);
    assert_eq!(buf.as_slice()[0], 0);
}

#[test]
fn aligned_buf_too_large_for_any_allocation_is_none() {
    assert!(AlignedBuf::new(usize::MAX).is_none());
    assert!(AlignedBuf::with_alignment(isize::MAX as usize - 63, 64).is_none());
    assert!(BufferPool::new(isize::MAX as usize, 64, 1).acquire().is_none());
}

#[test]
fn aligned_buf_custom_alignment_64_is_cache_line() {
    let buf = AlignedBuf::with_alignment(128, 64).unwrap();
    assert_eq!(buf.as_slice().as_ptr() as usize % 64, 0);
    assert_eq!(buf.len(), 128);
    assert_eq!(buf.alignment(), 64);
}

#[test]
fn buffer_pool_acquires_fresh_then_recycles() {
    let mut pool = BufferPool::new(4096, PAGE_SIZE, 4);
    assert_eq!(pool.idle_count(), 0);

    let buf_a = pool.acquire().unwrap();
    assert_eq!(buf_a.len(), 4096);
    pool.release(buf_a);
    assert_eq!(pool.idle_count(), 1);

    let buf_b = pool.acquire().unwrap();
    assert_eq!(pool.idle_count(), 0);
    pool.release(buf_b);
}

#[test]
fn buffer_pool_caps_at_capacity() {
    let mut pool = BufferPool::new(4096, PAGE_SIZE, 2);
    for _ in 0..5u32 {
        let b = pool.acquire().unwrap();
        pool.release(b);
    }
    assert_eq!(pool.idle_count(), 1);
}

#[test]
fn buffer_pool_rejects_mismatched_buffer_on_release() {
    let mut pool = BufferPool::new(4096, PAGE_SIZE, 4);
    // Wrong size.
    let foreign = AlignedBuf::new(8192).unwrap();
    pool.release(foreign);
    assert_eq!(pool.idle_count(), 0);
}

#[test]
fn buffer_pool_drops_what_is_over_its_capacity() {
    let mut pool = BufferPool::new(4096, PAGE_SIZE, 2);
    let bufs: Vec<AlignedBuf> = (0..3u32).map(|_| pool.acquire().unwrap()).collect();
    for b in bufs {
        pool.release(b);
    }
    assert_eq!(pool.idle_count(), 2);
    let mut blocks = BufferPool::for_sstable_blocks();
    assert_eq!(blocks.acquire().unwrap().alignment(), PAGE_SIZE);
}

#[test]
fn vfs_append_then_read_round_trips() {
    let mut vfs = MemVfs::new();
    let f = vfs.open_writable("/wal/000001.log").unwrap();
    let off_a = f.append(&mut vfs, b"hello").unwrap();
    let off_b = f.append(&mut vfs, b" world").unwrap();
    assert_eq!(off_a, 0);
    assert_eq!(off_b, 5);
    assert_eq!(f.size(&vfs).unwrap(), 11);

    let reader = vfs.open_readonly("/wal/000001.log").unwrap();
    let mut buf = [0u8; 11];
    reader.read_at(&vfs, &mut buf, 0).unwrap();
    assert_eq!(&buf, b"hello world");
}

#[test]
fn read_past_end_is_error() {
    let mut vfs = MemVfs::new();
    let w = vfs.open_writable("a").unwrap();
    w.append(&mut vfs, b"abc").unwrap();
    let r = vfs.open_readonly("a").unwrap();
    let mut buf = [0u8; 10];
    let err = r.read_at(&vfs, &mut buf, 0).unwrap_err();
    assert!(matches!(err, Error::Io(e) if e.kind == IoErrorKind::UnexpectedEof));
}

#[test]
fn rename_moves_content_atomically() {
    let mut vfs = MemVfs::new();
    let f = vfs.open_writable("tmp").unwrap();
    f.append(&mut vfs, b"draft").unwrap();
    vfs.rename("tmp", "final").unwrap();
    let r = vfs.open_readonly("final").unwrap();
    assert_eq!(r.size(&vfs).unwrap(), 5);
    assert!(matches!(vfs.open_readonly("tmp").err().unwrap(), Error::Io(_)));
}

#[test]
fn remove_is_idempotent() {
    let mut vfs = MemVfs::new();
    vfs.remove("nope").unwrap();
    let f = vfs.open_writable("doomed").unwrap();
    f.append(&mut vfs, b"x").unwrap();
    vfs.remove("doomed").unwrap();
    vfs.remove("doomed").unwrap();
}

#[test]
fn list_filters_to_immediate_children_of_dir() {
    let mut vfs = MemVfs::new();
    for path in ["wal/1.log", "wal/2.log", "sst/a.sst", "wal/sub/3.log"] {
        let f = vfs.open_writable(path).unwrap();
        f.append(&mut vfs, b"x").unwrap();
    }
    let mut wal = vfs.list("wal").unwrap();
    wal.sort();
    assert_eq!(wal, vec!["1.log".to_owned(), "2.log".to_owned()]);
    let mut sst = vfs.list("sst").unwrap();
    sst.sort();
    assert_eq!(sst, vec!["a.sst".to_owned()]);
}

#[test]
fn shared_handle_sees_appends_from_other_writer() {
    let mut vfs = MemVfs::new();
    let a = vfs.open_writable("shared").unwrap();
    let b = vfs.open_writable("shared").unwrap();
    a.append(&mut vfs, b"AAA").unwrap();
    b.append(&mut vfs, b"BBB").unwrap();
    assert_eq!(a.size(&vfs).unwrap(), 6);
    assert_eq!(b.size(&vfs).unwrap(), 6);
}

#[test]
fn write_at_overwrites_existing_range() {
    let mut vfs = MemVfs::new();
    let f = vfs.open_writable("overlay").unwrap();
    f.append(&mut vfs, &[0u8; 32]).unwrap();
    f.write_at(&mut vfs, b"BACKFILL", 4).unwrap();
    f.sync(&mut vfs).unwrap();

    let r = vfs.open_readonly("overlay").unwrap();
    let buf = read_vec(&r, &vfs, 32, 0).unwrap();
    assert_eq!(&buf[..4], &[0, 0, 0, 0]);
    assert_eq!(&buf[4..12], b"BACKFILL");
    assert_eq!(&buf[12..], &[0u8; 20]);
}

#[test]
fn write_at_does_not_grow_the_file() {
    let mut vfs = MemVfs::new();
    let f = vfs.open_writable("short").unwrap();
    f.append(&mut vfs, b"abcd").unwrap();
    let err = f.write_at(&mut vfs, b"xyz", 2).unwrap_err();
    assert!(matches!(err, Error::Io(_)));
    assert_eq!(read_vec(&f, &vfs, 4, 0).unwrap(), b"abcd".to_vec());
}

#[test]
fn rename_then_remove() {
    let mut vfs = MemVfs::new();
    let f = vfs.open_writable("first").unwrap();
    f.append(&mut vfs, b"data").unwrap();

    vfs.rename("first", "second").unwrap();
    assert!(vfs.open_readonly("first").is_err());
    let r = vfs.open_readonly("second").unwrap();
    assert_eq!(r.size(&vfs).unwrap(), 4);

    vfs.remove("second").unwrap();
    assert!(vfs.open_readonly("second").is_err());
    // A second remove succeeds.
    vfs.remove("second").unwrap();
    assert_eq!(kind_of(vfs.rename("second", "third").unwrap_err()), IoErrorKind::NotFound);
}

#[test]
fn one_file_answers_to_every_path_and_takes_no_writes() {
    let mut vfs = OneFileVfs::new(b"payload");
    let r = vfs.open_readonly("any/path").unwrap();
    assert_eq!(r.size(&vfs).unwrap(), 7);
    assert_eq!(read_vec(&r, &vfs, 3, 3).unwrap(), b"loa".to_vec());
    assert!(r.append(&mut vfs, b"x").is_err());
    assert!(r.write_at(&mut vfs, b"x", 0).is_err());
    let err = vfs.open_writable("any/path").unwrap_err();
    assert_eq!(err.to_string(), "io: OneFileVfs is read-only");
    assert_eq!(kind_of(err), IoErrorKind::Unsupported);
    vfs.rename("a", "b").unwrap();
    vfs.remove("a").unwrap();
    assert!(vfs.list("").unwrap().is_empty());
    // The file is there under every path all the same.
    assert_eq!(vfs.open_readonly("a").unwrap().size(&vfs).unwrap(), 7);
}

#[test]
fn alignment_checks_reject_unaligned_offset() {
    let alignment = Alignment::new();
    let buf = AlignedBuf::new(4096).unwrap();
    let err = alignment.check(buf.len(), 1).unwrap_err();
    assert_eq!(err.to_string(), "io: offset 1 not aligned to block size 4096");
    assert!(matches!(err, Error::Io(_)));
    assert!(alignment.check(buf.len(), 8192).is_ok());
}

#[test]
fn alignment_checks_reject_unaligned_length() {
    let mut alignment = Alignment::default();
    assert_eq!(alignment.block_size(), 4096);
    alignment.set_block_size(8192);
    let buf = AlignedBuf::new(4096).unwrap();
    let err = alignment.check(buf.len(), 0).unwrap_err();
    assert_eq!(
        err.to_string(),
        "io: buffer length 4096 not a multiple of block size 8192"
    );
    assert!(matches!(err, Error::Io(_)));
}

#[test]
fn transfer_goes_on_until_everything_is_moved() {
    let mut t = Transfer::new(10, 100);
    assert!(!t.is_complete());
    assert_eq!(t.position().unwrap(), 100);
    t.wrote(4).unwrap();
    assert_eq!(t.done(), 4);
    assert_eq!(t.position().unwrap(), 104);
    t.read(6).unwrap();
    assert!(t.is_complete());
    assert!(Transfer::new(0, 0).is_complete());
}

#[test]
fn transfer_that_stalls_is_an_error() {
    let mut w = Transfer::new(10, 0);
    assert_eq!(kind_of(w.wrote(0).unwrap_err()), IoErrorKind::WriteZero);
    let mut r = Transfer::new(10, 0);
    assert_eq!(kind_of(r.read(0).unwrap_err()), IoErrorKind::UnexpectedEof);
    let mut far = Transfer::new(10, u64::MAX);
    assert_eq!(far.position().unwrap(), u64::MAX);
    far.wrote(1).unwrap();
    assert_eq!(kind_of(far.position().unwrap_err()), IoErrorKind::InvalidInput);
}

#[test]
fn advise_range_rejects_oversized_request() {
    let err = check_range(4096, 0, 8192).unwrap_err();
    assert!(matches!(err, Error::Io(_)));
    assert!(check_range(4096, 1024, 3072).is_ok());
    assert!(check_range(4096, usize::MAX, 1).is_err());
}

#[test]
fn empty_file_is_rejected() {
    let err = mapping_len(0).unwrap_err();
    assert!(matches!(err, Error::Io(_)));
    assert_eq!(mapping_len(27).unwrap(), 27);
}

#[test]
fn completion_results() {
    let done = Completion { user_data: 0x42, result: 4096, flags: 0 };
    assert!(done.ok());
    assert_eq!(done.bytes(), Some(4096));
    assert_eq!(done.errno(), None);
    let failed = Completion { user_data: 1, result: -5, flags: 0 };
    assert!(!failed.ok());
    assert_eq!(failed.bytes(), None);
    assert_eq!(failed.errno(), Some(5));
    assert!(check_room(8, 6, 2).is_ok());
    assert_eq!(kind_of(check_room(8, 7, 2).unwrap_err()), IoErrorKind::WouldBlock);
}

#[test]
fn resolve_refuses_path_escape() {
    let vfs = LinuxVfs::new("/var/lib/paddock");
    assert!(vfs.resolve("../escaped").is_err());
    assert!(vfs.resolve("/etc/passwd").is_err());
    assert!(vfs.resolve("a/../../b").is_err());
    assert!(vfs.resolve("a/..").is_err());
    assert!(vfs.resolve("").is_err());
    assert_eq!(vfs.resolve("..a/b..").unwrap(), "/var/lib/paddock/..a/b..");
}

#[test]
fn resolve_puts_the_path_under_the_root() {
    let vfs = LinuxVfs::new("/data");
    assert_eq!(vfs.root(), "/data");
    assert_eq!(vfs.resolve("00000001.sst").unwrap(), "/data/00000001.sst");
    assert_eq!(LinuxVfs::new("/data/").resolve("x").unwrap(), "/data/x");
    assert_eq!(LinuxVfs::new("").resolve("x").unwrap(), "x");
    assert_eq!(vfs.list_target("").unwrap(), "/data");
    assert_eq!(vfs.list_target(".").unwrap(), "/data");
    assert_eq!(vfs.list_target("sub").unwrap(), "/data/sub");
    assert!(vfs.list_target("..").is_err());
}
