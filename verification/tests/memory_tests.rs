use wasmraft::memory::WasmMemory;

#[test]
fn allocate_hands_out_disjoint_blocks() {
    let mut mem = WasmMemory::new(128);
    let a = mem.allocate(100).unwrap();
    let b = mem.allocate(28).unwrap();
    assert_eq!(a, 0);
    assert_eq!(b, 100);
}

#[test]
fn allocate_fails_when_exhausted() {
    let mut mem = WasmMemory::new(16);
    assert_eq!(mem.allocate(10), Some(0));
    assert_eq!(mem.allocate(10), None);
    // the failed attempt reserves nothing
    assert_eq!(mem.allocate(6), Some(10));
}

#[test]
fn write_then_read_round_trips() {
    let mut mem = WasmMemory::new(32);
    let ptr = mem.allocate(5).unwrap();
    assert!(mem.write_bytes(ptr, &b"hello".to_vec()));
    assert_eq!(mem.read_bytes(ptr, 5), Some(b"hello".to_vec()));
    // neighbours untouched
    assert_eq!(mem.read_bytes(5, 3), Some(vec![0, 0, 0]));
}

#[test]
fn out_of_bounds_access_is_refused() {
    let mut mem = WasmMemory::new(8);
    assert!(!mem.write_bytes(5, &b"toolong".to_vec()));
    assert_eq!(mem.read_bytes(5, 7), None);
    assert_eq!(mem.read_bytes(9, 1), None);
    // the refused write changed nothing
    assert_eq!(mem.read_bytes(0, 8), Some(vec![0; 8]));
}

#[test]
fn deallocate_reclaims_nothing() {
    let mut mem = WasmMemory::new(16);
    let ptr = mem.allocate(8).unwrap();
    assert!(mem.write_bytes(ptr, &b"12345678".to_vec()));
    mem.deallocate(ptr, 8);
    // the block's bytes are still there and the bump point is unmoved
    assert_eq!(mem.read_bytes(ptr, 8), Some(b"12345678".to_vec()));
    assert_eq!(mem.allocate(8), Some(8));
}
