use zensr::tilecopy::{gather_tile, paste_window, paste_window_for, PasteWindow};
use zensr::tiling::{tile_rect, TileRect};

fn ramp(n: usize) -> Vec<u32> {
    (0..n as u32).collect()
}

#[test]
fn gather_cuts_the_extended_rect_from_each_plane() {
    // 3 planes of 4 rows x 5 columns, sample value = its position
    let input = ramp(3 * 4 * 5);
    let r = TileRect { x0: 2, y0: 1, x1: 3, y1: 2, ex0: 1, ey0: 0, ex1: 4, ey1: 3 };
    let out = gather_tile(&input, 4, 5, &r);
    assert_eq!(out.len(), 3 * 3 * 3);
    let mut want = Vec::new();
    for c in 0..3u32 {
        for y in 0..3u32 {
            for x in 1..4u32 {
                want.push(c * 20 + y * 5 + x);
            }
        }
    }
    assert_eq!(out, want);
}

#[test]
fn gather_of_the_whole_image_is_the_image() {
    let input = ramp(3 * 2 * 3);
    let r = TileRect { x0: 0, y0: 0, x1: 3, y1: 2, ex0: 0, ey0: 0, ex1: 3, ey1: 2 };
    assert_eq!(gather_tile(&input, 2, 3, &r), input);
}

#[test]
fn paste_writes_only_the_window() {
    // output: 3 planes of 3x4, tile: 3 planes of 2x2, window 1x2 at (1,2) from (0,1)
    let mut out = vec![0u32; 3 * 3 * 4];
    let tile: Vec<u32> = (100..112).collect();
    let pw = PasteWindow { ow: 4, oh: 3, x0: 1, y0: 2, cw: 2, ch: 1, tw: 2, th: 2, cx: 0, cy: 1 };
    paste_window(&mut out, &tile, &pw);
    for c in 0..3usize {
        for y in 0..3usize {
            for x in 0..4usize {
                let v = out[c * 12 + y * 4 + x];
                if y == 2 && (1..3).contains(&x) {
                    assert_eq!(v, 100 + (c * 4 + 2 + (x - 1)) as u32);
                } else {
                    assert_eq!(v, 0);
                }
            }
        }
    }
}

#[test]
fn paste_window_for_a_tile_at_scale_two() {
    let r = TileRect { x0: 4, y0: 0, x1: 8, y1: 4, ex0: 2, ey0: 0, ex1: 10, ey1: 6 };
    let pw = paste_window_for(&r, 2, 10, 6);
    assert_eq!((pw.ow, pw.oh), (20, 12));
    assert_eq!((pw.x0, pw.y0), (8, 0));
    assert_eq!((pw.cw, pw.ch), (8, 8));
    assert_eq!((pw.tw, pw.th), (16, 12));
    assert_eq!((pw.cx, pw.cy), (4, 0));
}

#[test]
fn tiles_gathered_and_pasted_back_rebuild_the_image() {
    // scale 1, identity "upscale": every tile's core lands where it came from
    let (w, h, tile, halo) = (7usize, 5usize, 3usize, 1usize);
    let input = ramp(3 * h * w);
    let tiles_x = (w + tile - 1) / tile;
    let tiles_y = (h + tile - 1) / tile;
    let mut out = vec![u32::MAX; 3 * h * w];
    for idx in 0..tiles_x * tiles_y {
        let r = tile_rect(idx, tiles_x, tiles_y, tile, w, h, halo);
        let ext = gather_tile(&input, h, w, &r);
        let pw = paste_window_for(&r, 1, w, h);
        paste_window(&mut out, &ext, &pw);
    }
    assert_eq!(out, input);
}
