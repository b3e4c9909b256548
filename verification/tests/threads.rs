use zensr::threads::effective_threads;

/// Asking for fewer threads than the machine saturates at returns the request
/// unchanged; the cap only removes threads the box cannot deliver.
#[test]
fn effective_never_exceeds_request() {
    for sat in [1usize, 2, 13, 32, 64, usize::MAX] {
        for req in [1usize, 2, 3, 4, 8, 12, 28, 256] {
            let eff = effective_threads(req, sat);
            assert!(eff >= 1 && eff <= req.max(1), "req {req} -> eff {eff}");
        }
        assert_eq!(effective_threads(0, sat), 1, "zero threads must mean one");
    }
}

#[test]
fn effective_threads_caps_at_saturation() {
    assert_eq!(effective_threads(28, 13), 13);
    assert_eq!(effective_threads(12, 13), 12);
    assert_eq!(effective_threads(13, 13), 13);
    assert_eq!(effective_threads(5, 0), 1);
    assert_eq!(effective_threads(0, 0), 1);
}
