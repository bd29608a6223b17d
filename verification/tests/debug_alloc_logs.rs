use decs::frame::Frame;
use decs::storage::Storage;
use decs::tick::Tick;

#[derive(Clone, Copy, Debug, PartialEq)]
struct DebugComp {
    v: u32,
}

#[test]
fn debug_allocation_logs() {
    let mut storage = Storage::<DebugComp>::new();
    let frame = Frame::new(Tick(1));

    for storage_idx in 0..3u32 {
        for page_idx in 0..5u32 {
            let base = storage_idx * (64 * 64) + page_idx * 64;
            for c in [0u32, 17, 31, 63] {
                assert!(storage.set(&frame, base + c, DebugComp { v: c }).is_ok());
            }
        }
    }
    assert_eq!(storage.count, 3 * 5 * 4);
    assert_eq!(storage.get(2 * 4096 + 4 * 64 + 63), Some(&DebugComp { v: 63 }));
    assert!(storage.verify_invariants());
}
