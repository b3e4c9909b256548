use zensr::tiling::{div_ceil, plan_tile, spanf_tile, tile_grid, tile_rect, worker_count};

#[test]
fn tile_plan_matches_measured_ladder() {
    // 512px: the count-first rule replaces the lopsided ladder tiles
    assert_eq!(plan_tile(512, 512, 4, 0, 10), 268);
    assert_eq!(plan_tile(512, 512, 8, 0, 10), 172);
    // 1024px at 4 threads keeps the ladder's 396
    assert_eq!(plan_tile(1024, 1024, 4, 0, 10), 396);
    // one thread: the aligned 512 ladder tile
    assert_eq!(plan_tile(1024, 1024, 1, 0, 10), 524);
    assert_eq!(plan_tile(512, 768, 1, 0, 18), 524);
    // small image, many threads: the 2*halo floor
    assert_eq!(plan_tile(128, 128, 12, 0, 10), 44);
    assert_eq!(plan_tile(384, 384, 28, 0, 10), 76);
    assert_eq!(plan_tile(512, 512, 3, 0, 21), 262);
    assert_eq!(plan_tile(100, 2000, 12, 0, 10), 140);
    assert_eq!(plan_tile(200, 300, 2, 0, 5), 150);
}

#[test]
fn explicit_tile_is_kept() {
    assert_eq!(plan_tile(512, 512, 4, 77, 10), 77);
    assert_eq!(spanf_tile(0), 128);
    assert_eq!(spanf_tile(64), 64);
}

#[test]
fn planned_convolved_width_is_vector_aligned() {
    for (side, t, halo) in [(512usize, 4usize, 10usize), (700, 6, 18), (1000, 12, 21), (257, 2, 3)] {
        let tile = plan_tile(side, side, t, 0, halo);
        assert_eq!((tile + 2 * halo) % 16, 0, "{side} {t} {halo}");
        assert!(tile >= 32);
    }
}

#[test]
fn grid_and_rects_partition_the_image() {
    let (w, h, tile, halo) = (100usize, 70usize, 32usize, 5usize);
    let (tx, ty, n) = tile_grid(w, h, tile);
    assert_eq!((tx, ty, n), (4, 3, 12));
    let mut cover = vec![0u8; w * h];
    for idx in 0..n {
        let r = tile_rect(idx, tx, ty, tile, w, h, halo);
        assert!(r.ex0 <= r.x0 && r.x1 <= r.ex1 && r.ex1 <= w);
        assert_eq!(r.ex0, r.x0.saturating_sub(halo));
        assert_eq!(r.ey1, (r.y1 + halo).min(h));
        for y in r.y0..r.y1 {
            for x in r.x0..r.x1 {
                cover[y * w + x] += 1;
            }
        }
    }
    assert!(cover.iter().all(|&c| c == 1));
    let last = tile_rect(11, tx, ty, tile, w, h, halo);
    assert_eq!((last.x0, last.y0, last.x1, last.y1), (96, 64, 100, 70));
    assert_eq!((last.ex0, last.ey0, last.ex1, last.ey1), (91, 59, 100, 70));
}

#[test]
fn workers_and_ceiling() {
    assert_eq!(worker_count(0, 5), 1);
    assert_eq!(worker_count(8, 5), 5);
    assert_eq!(worker_count(3, 5), 3);
    assert_eq!(div_ceil(10, 4), 3);
    assert_eq!(div_ceil(8, 4), 2);
    assert_eq!(div_ceil(0, 4), 0);
}
