//! Whatever the bytes are, parsers answer: with an error, or with something
//! that can be read.
use paddock_core::checksum::Algorithm;
use paddock_core::filter::BlockedBloom;
use paddock_core::io::read_only::OneFileVfs;
use paddock_core::io::vfs::{read_vec, MemVfs, Vfs, VfsFile};
use paddock_core::sstable::format::RecordOp;
use paddock_core::sstable::{SstReader, SstWriter};
use paddock_core::wal::batch::WriteBatch;
use paddock_core::wal::reader::{ReadOutcome, SegmentReader};
use paddock_core::wal::writer::SegmentWriter;

struct Noise(u64);

impl Noise {
    fn next(&mut self) -> u64 {
        self.0 = self.0.wrapping_mul(6_364_136_223_846_793_005).wrapping_add(1_442_695_040_888_963_407);
        self.0 >> 33
    }

    fn bytes(&mut self, limit: u64) -> Vec<u8> {
        let n = self.next() % limit;
        (0..n).map(|_| self.next() as u8).collect()
    }

    /// Change a few bytes, or cut the tail.
    fn damage(&mut self, bytes: &[u8]) -> Vec<u8> {
        let mut out = bytes.to_vec();
        if self.next() % 4 == 0 {
            out.truncate((self.next() % (out.len() as u64 + 1)) as usize);
        }
        for _ in 0..1 + self.next() % 3 {
            if !out.is_empty() {
                let at = (self.next() % out.len() as u64) as usize;
                out[at] = self.next() as u8;
            }
        }
        out
    }
}

fn content(vfs: &MemVfs, path: &str) -> Vec<u8> {
    let f = vfs.open_readonly(path).unwrap();
    let size = f.size(vfs).unwrap() as usize;
    read_vec(&f, vfs, size, 0).unwrap()
}

fn read_table(bytes: &[u8]) {
    let vfs = OneFileVfs::new(bytes);
    let file = vfs.open_readonly("table").unwrap();
    if let Ok(reader) = SstReader::open(&vfs, file) {
        let probes: [&[u8]; 6] = [b"", b"a", b"key", b"\xff\xff", b"random", b"key-00007"];
        for k in probes {
            let _ = reader.get(&vfs, k, u64::MAX);
        }
        let _ = reader.scan(&vfs);
    }
}

fn read_segment(bytes: &[u8]) {
    let vfs = OneFileVfs::new(bytes);
    let file = vfs.open_readonly("segment").unwrap();
    if let Ok(mut reader) = SegmentReader::open(&vfs, file) {
        // Each record takes room in the file.
        for _ in 0..=bytes.len() {
            match reader.next_record(&vfs) {
                Ok(ReadOutcome::Record(_)) => {}
                Ok(_) | Err(_) => return,
            }
        }
        panic!("more records than bytes");
    }
}

#[test]
fn tables_from_noise_and_from_damage() {
    let mut vfs = MemVfs::new();
    let file = vfs.open_writable("sst").unwrap();
    let mut w = SstWriter::create(&mut vfs, file, Algorithm::Crc32c).unwrap();
    w.set_block_size(256);
    for i in 0..60u32 {
        let k = format!("key-{i:05}");
        w.add(&mut vfs, k.as_bytes(), b"value", u64::from(i + 1), RecordOp::Put).unwrap();
    }
    let _ = w.finish(&mut vfs).unwrap();
    let good = content(&vfs, "sst");
    read_table(&good);
    let mut noise = Noise(1);
    for _ in 0..300u32 {
        read_table(&noise.bytes(6000));
        let damaged = noise.damage(&good);
        read_table(&damaged);
    }
}

#[test]
fn segments_from_noise_and_from_damage() {
    let mut vfs = MemVfs::new();
    let file = vfs.open_writable("wal").unwrap();
    let mut w = SegmentWriter::create(&mut vfs, file, 1, 1).unwrap();
    for i in 0..50u64 {
        w.append_record(&mut vfs, i + 1, &vec![i as u8; 1500]).unwrap();
    }
    let good = content(&vfs, "wal");
    read_segment(&good);
    let mut noise = Noise(2);
    for _ in 0..300u32 {
        read_segment(&noise.bytes(500));
        let damaged = noise.damage(&good);
        read_segment(&damaged);
    }
}

#[test]
fn filters_from_noise() {
    let mut noise = Noise(3);
    for _ in 0..500u32 {
        let mut bytes = noise.bytes(200);
        if bytes.len() >= 8 && noise.next() % 2 == 0 {
            bytes[..4].copy_from_slice(&0xB100_0F11u32.to_le_bytes());
            bytes[4] = 1;
        }
        if let Ok(filter) = BlockedBloom::decode(&bytes) {
            let probes: [&[u8]; 5] = [b"", b"hello", b"\x00\x00\x00", b"\xff", b"some-key"];
            for k in probes {
                let _ = filter.contains(k);
            }
        }
    }
}

#[test]
fn decoded_batches_encode_to_the_same_batch() {
    let mut noise = Noise(4);
    let mut decoded = 0u32;
    for _ in 0..3_000u32 {
        let mut bytes = noise.bytes(24);
        if !bytes.is_empty() {
            bytes[0] %= 4;
        }
        if let Ok(batch) = WriteBatch::decode(&bytes) {
            decoded += 1;
            let again = WriteBatch::decode(&batch.encode()).expect("a batch that was encoded");
            assert_eq!(batch, again);
        }
    }
    assert!(decoded > 0);
}
