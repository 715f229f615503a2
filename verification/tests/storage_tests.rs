use h5stream::storage::ByteReader;
use h5stream::storage::MemoryReader;
use h5stream::storage::StorageAdapter;
use h5stream::storage::get_vfs_fapl;

fn reader_with(len: usize) -> MemoryReader {
    let mut bytes = Vec::new();
    for i in 0..len {
        bytes.push((i % 251) as u8);
    }
    MemoryReader::new(bytes)
}

#[test]
fn read_past_tail_zero_fills() {
    // A reader of total size 100, asked for offset 90 and length 20:
    // 10 real bytes, then 10 zero bytes, and success.
    let reader = reader_with(100);
    let mut adapter = StorageAdapter::open(reader);
    let out = adapter.read(90, 20).expect("short read past the tail is not an error");
    assert_eq!(out.len(), 20);
    for i in 0..10 {
        assert_eq!(out[i], ((90 + i) % 251) as u8);
    }
    for i in 10..20 {
        assert_eq!(out[i], 0);
    }
}

#[test]
fn read_inside_returns_data() {
    let reader = reader_with(64);
    let mut adapter = StorageAdapter::open(reader);
    let out = adapter.read(8, 16).unwrap();
    assert_eq!(out.len(), 16);
    for i in 0..16 {
        assert_eq!(out[i], (8 + i) as u8);
    }
}

#[test]
fn read_entirely_past_tail_is_all_zero() {
    let reader = reader_with(10);
    let mut adapter = StorageAdapter::open(reader);
    let out = adapter.read(1000, 8).unwrap();
    assert_eq!(out, vec![0u8; 8]);
}

#[test]
fn read_zero_length() {
    let reader = reader_with(10);
    let mut adapter = StorageAdapter::open(reader);
    let out = adapter.read(3, 0).unwrap();
    assert_eq!(out.len(), 0);
}

#[test]
fn sequential_reads_without_reseek() {
    // Consecutive reads continue where the previous one ended; a
    // non-contiguous read repositions and still returns the right bytes.
    let reader = reader_with(100);
    let mut adapter = StorageAdapter::open(reader);
    let a = adapter.read(0, 10).unwrap();
    let b = adapter.read(10, 10).unwrap();
    let c = adapter.read(5, 10).unwrap();
    assert_eq!(a[9], 9);
    assert_eq!(b[0], 10);
    assert_eq!(c[0], 5);
}

#[test]
fn write_always_fails() {
    let reader = reader_with(10);
    let mut adapter = StorageAdapter::open(reader);
    assert!(adapter.write(0, &[1, 2, 3]).is_err());
}

#[test]
fn end_of_allocation_bookkeeping() {
    let reader = reader_with(10);
    let mut adapter = StorageAdapter::open(reader);
    assert_eq!(adapter.get_end_of_allocation(), 0);
    adapter.set_end_of_allocation(12345);
    assert_eq!(adapter.get_end_of_allocation(), 12345);
    // The end-of-allocation mark is not tied to the physical size.
    assert_eq!(adapter.get_physical_size(), 10);
}

#[test]
fn physical_size_is_reader_length() {
    let reader = reader_with(77);
    let adapter = StorageAdapter::open(reader);
    assert_eq!(adapter.get_physical_size(), 77);
}

#[test]
fn close_hands_the_reader_back() {
    let reader = reader_with(5);
    let adapter = StorageAdapter::open(reader);
    let back = adapter.close();
    assert_eq!(back.size(), 5);
}

#[test]
fn default_fapl_is_zero() {
    assert_eq!(get_vfs_fapl(), 0);
}
