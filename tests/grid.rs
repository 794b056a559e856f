use game_of_life::gol::GoL;

fn live_cells(g: &GoL) -> Vec<(i64, i64)> {
    let mut out = Vec::new();
    for y in 0..g.height as i64 {
        for x in 0..g.width as i64 {
            if g.get(x, y) != 0 {
                out.push((x, y));
            }
        }
    }
    out
}

fn with_cells(w: usize, h: usize, cells: &[(i64, i64)]) -> GoL {
    let mut g = GoL::new((w, h));
    for &(x, y) in cells {
        g.set(x, y, 1);
    }
    g
}

#[test]
fn new_board_is_dead() {
    let g = GoL::new((4, 3));
    assert_eq!(g.width, 4);
    assert_eq!(g.height, 3);
    assert_eq!(g.buffer, vec![0u8; 12]);
}

#[test]
fn indexing_wraps_in_both_directions() {
    let mut g = GoL::new((4, 3));
    g.set(1, 2, 7);
    assert_eq!(g.buffer[2 * 4 + 1], 7);
    assert_eq!(g.get(1, 2), 7);
    assert_eq!(g.get(5, 5), 7);
    assert_eq!(g.get(-3, -1), 7);
    assert_eq!(g.get(-7, -4), 7);
    g.set(-1, -1, 9);
    assert_eq!(g.buffer[2 * 4 + 3], 9);
}

#[test]
fn corner_cell_neighbours_wrap_on_small_torus() {
    for &(cx, cy) in &[(0i64, 0i64), (2, 0), (0, 2), (2, 2)] {
        let g = with_cells(3, 3, &[(cx, cy)]);
        for y in 0..3i32 {
            for x in 0..3i32 {
                let expected = if (x as i64, y as i64) == (cx, cy) { 0 } else { 1 };
                assert_eq!(g.alive_neighbors(x, y), expected);
            }
        }
        let mut stepped = g.clone();
        stepped.step();
        assert_eq!(stepped.buffer, vec![0u8; 9]);
    }
}

#[test]
fn corner_block_matches_interior_block() {
    let mut interior = with_cells(6, 6, &[(2, 2), (3, 2), (2, 3), (3, 3)]);
    let mut corner = with_cells(6, 6, &[(5, 5), (0, 5), (5, 0), (0, 0)]);
    interior.step();
    corner.step();
    assert_eq!(live_cells(&interior), vec![(2, 2), (3, 2), (2, 3), (3, 3)]);
    assert_eq!(live_cells(&corner), vec![(0, 0), (5, 0), (0, 5), (5, 5)]);
    for y in 0..6i64 {
        for x in 0..6i64 {
            assert_eq!(corner.get(x + 3, y + 3), interior.get(x, y));
        }
    }
}

#[test]
fn blinker_crosses_the_edge() {
    let mut g = with_cells(5, 5, &[(0, 4), (0, 0), (0, 1)]);
    g.step();
    assert_eq!(live_cells(&g), vec![(0, 0), (1, 0), (4, 0)]);
    g.step();
    assert_eq!(live_cells(&g), vec![(0, 0), (0, 1), (0, 4)]);
}

const AROUND: [(i64, i64); 8] = [
    (1, 1),
    (2, 1),
    (3, 1),
    (1, 2),
    (3, 2),
    (1, 3),
    (2, 3),
    (3, 3),
];

#[test]
fn rule_on_every_neighbour_count() {
    for alive in [false, true] {
        for n in 0..=8usize {
            let mut g = GoL::new((5, 5));
            if alive {
                g.set(2, 2, 1);
            }
            for &(x, y) in AROUND.iter().take(n) {
                g.set(x, y, 1);
            }
            assert_eq!(g.alive_neighbors(2, 2) as usize, n);
            let expected: u8 = match (alive, n) {
                (true, 2) | (true, 3) => 2,
                (false, 3) => 1,
                _ => 0,
            };
            assert_eq!(g.automata_rules(2, 2), expected);
            g.step();
            assert_eq!(g.get(2, 2), expected, "alive {} neighbours {}", alive, n);
        }
    }
}

#[test]
fn age_grows_then_saturates() {
    let mut g = with_cells(6, 6, &[(2, 2), (3, 2), (2, 3), (3, 3)]);
    for k in 1..=300u32 {
        g.step();
        let expected = std::cmp::min(k + 1, 255) as u8;
        for &(x, y) in &[(2i64, 2i64), (3, 2), (2, 3), (3, 3)] {
            assert_eq!(g.get(x, y), expected);
        }
    }
    assert_eq!(g.get(2, 2), 255);
    assert_eq!(g.buffer.iter().filter(|&&c| c != 0).count(), 4);
}

#[test]
fn glider_moves_one_cell_diagonally_in_four_steps() {
    let mut g = GoL::new((20, 20));
    g.insert_glider_at(false, false, 5, 5);
    assert_eq!(live_cells(&g), vec![(6, 5), (7, 6), (5, 7), (6, 7), (7, 7)]);
    for _ in 0..4 {
        g.step();
    }
    let mut expected = GoL::new((20, 20));
    expected.insert_glider_at(false, false, 6, 6);
    assert_eq!(live_cells(&g), live_cells(&expected));
    assert_eq!(live_cells(&g), vec![(7, 6), (8, 7), (6, 8), (7, 8), (8, 8)]);
}

#[test]
fn glider_mirrors() {
    let mut g = GoL::new((10, 10));
    g.insert_glider_at(true, false, 0, 0);
    assert_eq!(live_cells(&g), vec![(1, 0), (0, 1), (0, 2), (1, 2), (2, 2)]);
    let mut g = GoL::new((10, 10));
    g.insert_glider_at(false, true, 0, 0);
    assert_eq!(live_cells(&g), vec![(0, 0), (1, 0), (2, 0), (2, 1), (1, 2)]);
    let mut g = GoL::new((10, 10));
    g.insert_glider_at(true, true, 0, 0);
    assert_eq!(live_cells(&g), vec![(0, 0), (1, 0), (2, 0), (0, 1), (1, 2)]);
}

#[test]
fn pattern_overwrites_and_wraps() {
    let mut g = GoL::new((4, 4));
    for i in 0..16 {
        g.buffer[i] = 3;
    }
    g.insert_pattern(vec![vec![1, 0], vec![0, 2]], 3, 3);
    assert_eq!(g.get(3, 3), 1);
    assert_eq!(g.get(0, 3), 0);
    assert_eq!(g.get(3, 0), 0);
    assert_eq!(g.get(0, 0), 2);
    let untouched = g.buffer.iter().filter(|&&c| c == 3).count();
    assert_eq!(untouched, 12);
}

#[test]
fn random_glider_has_five_cells() {
    for _ in 0..20 {
        let mut g = GoL::new((10, 10));
        g.insert_glider();
        assert_eq!(live_cells(&g).len(), 5);
    }
}

#[test]
fn randomize_with_takes_low_bits() {
    let mut g = GoL::new((3, 2));
    g.buffer[0] = 200;
    g.randomize_with(&vec![0, 1, 2, 3, 0xffff_fffe, 0xffff_ffff]);
    assert_eq!(g.buffer, vec![0, 1, 0, 1, 0, 1]);
}

#[test]
fn randomize_then_render_shows_the_same_cells() {
    let mut g = GoL::new((8, 8));
    g.randomize();
    assert!(g.buffer.iter().all(|&c| c <= 1));
    let r = g.to_rendered_buffer();
    assert_eq!(r.len(), 4 * 64);
    for (i, &c) in g.buffer.iter().enumerate() {
        let v = if c != 0 { 255 } else { 0 };
        assert_eq!(&r[4 * i..4 * i + 4], &[v, v, v, c]);
    }
}

#[test]
fn rendered_rows_run_top_to_bottom() {
    let mut g = GoL::new((2, 2));
    g.set(1, 0, 9);
    assert_eq!(
        g.to_rendered_buffer(),
        vec![0, 0, 0, 0, 255, 255, 255, 9, 0, 0, 0, 0, 0, 0, 0, 0]
    );
}

#[test]
fn raw_image_rows_run_bottom_to_top() {
    let mut g = GoL::new((2, 2));
    g.set(1, 0, 9);
    let image = g.as_raw_image_2d();
    assert_eq!(image.width, 2);
    assert_eq!(image.height, 2);
    assert_eq!(
        image.data.to_vec(),
        vec![0, 0, 0, 0, 0, 0, 0, 0, 0, 0, 0, 0, 255, 255, 255, 9]
    );
}

#[test]
fn glider_on_a_tiny_board_keeps_the_last_write() {
    let mut g = GoL::new((2, 2));
    g.insert_glider_at(false, false, 0, 0);
    assert_eq!(g.buffer, vec![1, 1, 1, 0]);
    let mut g = GoL::new((2, 2));
    assert!(game_of_life::worker::handle(&mut g, game_of_life::state::Tick::InsertGlider));
}

#[test]
fn glider_draws_pick_mirroring_and_place() {
    let mut g = GoL::new((10, 10));
    g.insert_glider_with(1, 3, 23, 5);
    let mut expected = GoL::new((10, 10));
    expected.insert_glider_at(false, false, 3, 5);
    assert_eq!(g.buffer, expected.buffer);
    let mut g = GoL::new((10, 10));
    g.insert_glider_with(2, 0, 9, 19);
    let mut expected = GoL::new((10, 10));
    expected.insert_glider_at(true, true, 9, 9);
    assert_eq!(g.buffer, expected.buffer);
}
