use ipd_simulator::frame::{agent_color, bmp_image, draw_block, overlay_stats, render_cells, render_frame};
use ipd_simulator::grid::Grid;
use ipd_simulator::stats::Statistics;

#[test]
fn colors_by_organism_size() {
    assert_eq!(agent_color(1), (158, 1, 66));
    assert_eq!(agent_color(10), (94, 79, 162));
    assert_eq!(agent_color(11), (140, 81, 255));
    assert_eq!(agent_color(0), (140, 81, 255));
}

#[test]
fn block_is_clipped_to_frame() {
    let mut f = vec![0u8; 4 * 2 * 3];
    draw_block(&mut f, 4, 2, 3, 1, 5, 5, (9, 8, 7));
    let mut expected = vec![0u8; 24];
    expected[21] = 9;
    expected[22] = 8;
    expected[23] = 7;
    assert_eq!(f, expected);
}

#[test]
fn status_band_blends_top_rows() {
    let mut f = vec![100u8, 0, 250];
    overlay_stats(&mut f, 1, 1, &Statistics::zero());
    assert_eq!(f, vec![44, 24, 74]);
}

#[test]
fn status_blocks_show_counts() {
    let (w, h) = (400u32, 30u32);
    let mut f = vec![0u8; (w * h * 3) as usize];
    let mut s = Statistics::zero();
    s.total_agents = 1000;
    s.multicellular_agents = 500;
    overlay_stats(&mut f, w, h, &s);
    let px = |x: u32, y: u32| {
        let i = ((y * w + x) * 3) as usize;
        (f[i], f[i + 1], f[i + 2])
    };
    assert_eq!(px(0, 0), (24, 24, 24));
    assert_eq!(px(10, 15), (0, 255, 0));
    assert_eq!(px(49, 24), (0, 255, 0));
    assert_eq!(px(50, 15), (24, 24, 24));
    assert_eq!(px(250, 20), (255, 0, 255));
    assert_eq!(px(299, 20), (255, 0, 255));
    assert_eq!(px(300, 20), (24, 24, 24));
    assert_eq!(px(130, 20), (24, 24, 24));
}

#[test]
fn cells_cover_their_share_of_the_raster() {
    let grid = Grid::new(2, 1);
    let f = render_cells(&grid, 4, 2);
    assert_eq!(f.len(), 24);
    for p in f.chunks(3) {
        assert_eq!(p, &[158, 1, 66]);
    }
    let g = render_frame(&grid, &grid.get_statistics(), 4, 2);
    for p in g.chunks(3) {
        assert_eq!(p, &[55, 24, 37]);
    }
}

#[test]
fn merged_cells_take_organism_color() {
    let mut grid = Grid::new(2, 1);
    assert!(grid.apply_merge(0, 1, 5, 0));
    let f = render_cells(&grid, 2, 1);
    assert_eq!(f, vec![213, 62, 79, 213, 62, 79]);
}

#[test]
fn bmp_single_row() {
    let out = bmp_image(2, 1, &vec![1, 2, 3, 4, 5, 6]);
    let mut expected: Vec<u8> = vec![b'B', b'M', 62, 0, 0, 0, 0, 0, 0, 0, 54, 0, 0, 0];
    expected.extend_from_slice(&[40, 0, 0, 0, 2, 0, 0, 0, 1, 0, 0, 0, 1, 0, 24, 0]);
    expected.extend_from_slice(&[0, 0, 0, 0, 8, 0, 0, 0, 0x13, 0x0B, 0, 0, 0x13, 0x0B, 0, 0]);
    expected.extend_from_slice(&[0, 0, 0, 0, 0, 0, 0, 0]);
    expected.extend_from_slice(&[3, 2, 1, 6, 5, 4, 0, 0]);
    assert_eq!(out, expected);
}

#[test]
fn bmp_rows_are_bottom_up() {
    let out = bmp_image(1, 2, &vec![10, 20, 30, 40, 50, 60]);
    assert_eq!(out.len(), 54 + 8);
    assert_eq!(&out[2..6], &[62, 0, 0, 0]);
    assert_eq!(&out[54..], &[60, 50, 40, 0, 30, 20, 10, 0]);
}
