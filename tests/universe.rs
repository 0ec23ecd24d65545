use wasm_game_of_life::shape::{transform, Transformation, GLIDER};
use wasm_game_of_life::Universe;

fn live_cells(universe: &Universe) -> Vec<(u32, u32)> {
    let mut out = Vec::new();
    for y in 0..universe.height() {
        for x in 0..universe.width() {
            if universe.is_alive(x, y) {
                out.push((x, y));
            }
        }
    }
    out
}

#[test]
fn test_neighbor_count() {
    // leave an empty row and column to avoid wrapping artifacts
    let mut universe = Universe::empty(4, 4);
    universe.set_cells(&[(1, 0), (1, 1), (1, 2)]);

    assert_eq!(universe.live_neighbor_count(0, 0), 2);
    assert_eq!(universe.live_neighbor_count(1, 0), 1);
    assert_eq!(universe.live_neighbor_count(2, 0), 2);

    assert_eq!(universe.live_neighbor_count(0, 1), 3);
    assert_eq!(universe.live_neighbor_count(1, 1), 2);
    assert_eq!(universe.live_neighbor_count(2, 1), 3);

    assert_eq!(universe.live_neighbor_count(0, 2), 2);
    assert_eq!(universe.live_neighbor_count(1, 2), 1);
    assert_eq!(universe.live_neighbor_count(2, 2), 2);

    // check wrapping neighbors
    assert_eq!(universe.live_neighbor_count(1, 3), 2);
}

#[test]
fn test_get_cell() {
    const CELLS: &[(u32, u32)] = &[(1, 2), (2, 3), (3, 1), (3, 2), (3, 3)];
    let mut universe = Universe::empty(6, 6);
    universe.set_cells(CELLS);

    for &(x, y) in CELLS {
        assert!(universe.cells().get(universe.idx(x, y)));
    }
}

#[test]
fn trivial_tick_kills_a_lone_cell_on_one_by_one() {
    let mut universe = Universe::empty(1, 1);
    universe.place(&[(0, 0)], 0, 0);
    assert_eq!(universe.live_neighbor_count(0, 0), 5);
    universe.tick();
    assert_eq!(universe, Universe::empty(1, 1));
}

#[test]
fn vertical_blinker_turns_horizontal() {
    let mut universe = Universe::empty(4, 4);
    universe.place(&[(1, 0), (1, 1), (1, 2)], 0, 0);
    let mut expected = Universe::empty(4, 4);
    expected.place(&[(0, 1), (1, 1), (2, 1)], 0, 0);

    universe.tick();
    assert_eq!(universe, expected);
    assert_eq!(live_cells(&universe), vec![(0, 1), (1, 1), (2, 1)]);
}

#[test]
fn spaceship_steps_once() {
    let mut universe = Universe::empty(6, 6);
    universe.place(&[(1, 2), (2, 3), (3, 1), (3, 2), (3, 3)], 0, 0);
    let mut expected = Universe::empty(6, 6);
    expected.place(&[(2, 1), (2, 3), (3, 2), (3, 3), (4, 2)], 0, 0);

    universe.tick();
    assert_eq!(universe, expected);
    assert_eq!(live_cells(&universe), vec![(2, 1), (3, 2), (4, 2), (2, 3), (3, 3)]);
}

#[test]
fn isolated_cell_dies() {
    let mut universe = Universe::empty(4, 4);
    universe.place(&[(1, 0)], 0, 0);
    universe.tick();
    assert_eq!(universe, Universe::empty(4, 4));
    assert!(live_cells(&universe).is_empty());
}

#[test]
fn identical_universes_tick_identically() {
    let mut a = Universe::empty(5, 5);
    let mut b = Universe::empty(5, 5);
    a.place(&[(0, 0), (1, 0), (0, 1), (2, 1), (0, 2)], 1, 1);
    b.place(&[(0, 0), (1, 0), (0, 1), (2, 1), (0, 2)], 1, 1);
    for _ in 0..4 {
        a.tick();
        b.tick();
        assert_eq!(a, b);
    }
}

#[test]
fn neighbor_count_never_exceeds_eight() {
    let mut universe = Universe::empty(3, 3);
    let all: Vec<(u32, u32)> = (0..3).flat_map(|y| (0..3).map(move |x| (x, y))).collect();
    universe.set_cells(&all);
    for y in 0..3 {
        for x in 0..3 {
            assert_eq!(universe.live_neighbor_count(x, y), 8);
        }
    }
    let empty = Universe::empty(3, 3);
    assert_eq!(empty.live_neighbor_count(1, 1), 0);
}

#[test]
fn block_is_still_life() {
    let mut universe = Universe::empty(4, 4);
    universe.place(&[(1, 1), (2, 1), (1, 2), (2, 2)], 0, 0);
    universe.tick();
    assert_eq!(live_cells(&universe), vec![(1, 1), (2, 1), (1, 2), (2, 2)]);
}

#[test]
fn coordinates_wrap_around() {
    let universe = Universe::empty(4, 3);
    assert_eq!(universe.idx(0, 0), 0);
    assert_eq!(universe.idx(3, 2), 11);
    assert_eq!(universe.idx(5, 4), 5);
    assert_eq!(universe.idx(u32::MAX, 0), 3);

    let mut universe = Universe::empty(4, 4);
    universe.place(&[(0, 0)], 7, 9);
    assert_eq!(live_cells(&universe), vec![(3, 1)]);
}

#[test]
fn placing_is_additive() {
    let mut universe = Universe::empty(4, 4);
    universe.place(&[(1, 1)], 0, 0);
    universe.place(&[(1, 1), (2, 2)], 0, 0);
    assert_eq!(live_cells(&universe), vec![(1, 1), (2, 2)]);
}

#[test]
fn toggle_flips_a_cell() {
    let mut universe = Universe::empty(4, 4);
    universe.toggle(2, 3);
    assert!(universe.is_alive(2, 3));
    universe.toggle(6, 7);
    assert!(!universe.is_alive(2, 3));
    assert!(live_cells(&universe).is_empty());
}

#[test]
fn spawn_places_a_centered_glider() {
    let mut universe = Universe::empty(6, 6);
    universe.spawn_shape_at(2, 2, Transformation::Identity);
    assert_eq!(live_cells(&universe), vec![(1, 1), (2, 1), (1, 2), (3, 2), (1, 3)]);

    let mut turned = Universe::empty(6, 6);
    turned.spawn_shape_at(2, 2, Transformation::RotateRight);
    assert_eq!(live_cells(&turned), vec![(1, 1), (2, 1), (3, 1), (3, 2), (2, 3)]);

    let mut wrapped = Universe::empty(6, 6);
    wrapped.spawn_shape_at(0, 0, Transformation::Identity);
    assert_eq!(live_cells(&wrapped), vec![(1, 0), (5, 0), (5, 1), (0, 5), (5, 5)]);
}

#[test]
fn random_universe_reads_bits_from_bytes() {
    let universe = Universe::random(4, 3, vec![0b0000_0011, 0b0000_1000]);
    assert_eq!(universe.width(), 4);
    assert_eq!(universe.height(), 3);
    assert_eq!(universe.cells_size(), 2);
    assert_eq!(live_cells(&universe), vec![(0, 0), (1, 0), (3, 2)]);
}

#[test]
fn empty_universe_has_no_live_cells() {
    let universe = Universe::empty(6, 6);
    assert_eq!(universe.cells_size(), 5);
    assert_eq!(universe.cells().as_bytes(), &[0, 0, 0, 0, 0]);
}

#[test]
fn transforms_follow_their_formulas() {
    assert_eq!(transform((1, 0), 3, 2, Transformation::Identity), (1, 0));
    assert_eq!(transform((1, 0), 3, 2, Transformation::RotateRight), (1, 1));
    assert_eq!(transform((1, 0), 3, 2, Transformation::RotateLeft), (0, 1));
    assert_eq!(transform((1, 0), 3, 2, Transformation::Reflect), (1, 1));
    assert_eq!(transform((0, 0), 3, 3, Transformation::Reflect), (2, 2));
}

#[test]
fn transforms_invert_each_other() {
    for &(w, h) in &[(3u32, 3u32), (4, 2), (2, 5)] {
        for y in 0..h {
            for x in 0..w {
                let l = transform((x, y), w, h, Transformation::RotateLeft);
                assert_eq!(transform(l, h, w, Transformation::RotateRight), (x, y));
                let r = transform((x, y), w, h, Transformation::RotateRight);
                assert_eq!(transform(r, h, w, Transformation::RotateLeft), (x, y));
                let f = transform((x, y), w, h, Transformation::Reflect);
                assert_eq!(transform(f, w, h, Transformation::Reflect), (x, y));
            }
        }
    }
    for &(x, y) in GLIDER.iter() {
        let l = transform((x, y), 3, 3, Transformation::RotateLeft);
        assert_eq!(transform(l, 3, 3, Transformation::RotateRight), (x, y));
    }
}

#[test]
fn quartiles_pick_each_transformation() {
    assert_eq!(Transformation::random(0), Transformation::Identity);
    assert_eq!(Transformation::random(1), Transformation::RotateLeft);
    assert_eq!(Transformation::random(2), Transformation::RotateRight);
    assert_eq!(Transformation::random(3), Transformation::Reflect);
}

#[test]
fn render_draws_rows_top_down() {
    let mut universe = Universe::empty(3, 2);
    universe.place(&[(0, 0), (2, 1)], 0, 0);
    assert_eq!(universe.render(), "X--\n--X\n");
    assert_eq!(Universe::empty(1, 1).render(), "-\n");
}
