use minesweeper::board::Mines;
use minesweeper::view::{GameStatus, MinesView, PrimitiveViewTile, ViewTile};

fn render_after_corner(seed: u32) -> String {
    let mut view = MinesView::generate(seed, 10, 10, 10);
    view.reveal_at(0, 0);
    view.render()
}

fn tiles(view: &MinesView) -> Vec<PrimitiveViewTile> {
    (0..view.width() * view.height()).map(|i| view.get_by_index(i)).collect()
}

fn count_of(t: PrimitiveViewTile) -> Option<u8> {
    match t {
        PrimitiveViewTile::R0 => Some(0),
        PrimitiveViewTile::R1 => Some(1),
        PrimitiveViewTile::R2 => Some(2),
        PrimitiveViewTile::R3 => Some(3),
        PrimitiveViewTile::R4 => Some(4),
        PrimitiveViewTile::R5 => Some(5),
        PrimitiveViewTile::R6 => Some(6),
        PrimitiveViewTile::R7 => Some(7),
        PrimitiveViewTile::R8 => Some(8),
        _ => None,
    }
}

fn neighbours(w: usize, h: usize, x: usize, y: usize) -> Vec<(usize, usize)> {
    let mut out = Vec::new();
    for dx in -1isize..=1 {
        for dy in -1isize..=1 {
            if dx == 0 && dy == 0 {
                continue;
            }
            let nx = x as isize + dx;
            let ny = y as isize + dy;
            if nx >= 0 && ny >= 0 && (nx as usize) < w && (ny as usize) < h {
                out.push((nx as usize, ny as usize));
            }
        }
    }
    out
}

fn manual_count(m: &Mines, x: usize, y: usize) -> u8 {
    neighbours(m.width(), m.height(), x, y)
        .into_iter()
        .filter(|&(nx, ny)| m.is_mine(nx, ny))
        .count() as u8
}

#[test]
fn test() {
    println!("{}", render_after_corner(0));
}

#[test]
fn golden_rendering_after_corner_reveal() {
    let first = render_after_corner(0);
    assert_eq!(first, render_after_corner(0));
    assert_eq!(
        first,
        ". . . 1 # # # # # # \n\
         1 1 . 2 # # # # # # \n\
         # 1 . 1 # # # # # # \n\
         1 1 . 1 # # # # # # \n\
         . . . 1 # # # # # # \n\
         . . . 1 # # # # # # \n\
         1 1 . 1 2 # 1 1 3 # \n\
         # 1 . . 1 1 1 . 2 # \n\
         1 1 . . . . . . 1 1 \n\
         . . . . . . . . . . \n"
    );
}

#[test]
fn generation_is_deterministic() {
    let a = Mines::new(42, 9, 7, 12);
    let b = Mines::new(42, 9, 7, 12);
    for y in 0..7 {
        for x in 0..9 {
            assert_eq!(a.is_mine(x, y), b.is_mine(x, y));
        }
    }
}

#[test]
fn generated_board_has_exact_mine_count() {
    for seed in 0..20u32 {
        let m = Mines::new(seed, 8, 6, 11);
        let mut n = 0;
        for y in 0..6 {
            for x in 0..8 {
                if m.is_mine(x, y) {
                    n += 1;
                }
            }
        }
        assert_eq!(n, 11);
        assert_eq!(m.mine_count(), 11);
    }
}

#[test]
fn generation_shuffles_the_layout() {
    let m = Mines::new(7, 10, 10, 10);
    let first_row_all_mines = (0..10).all(|x| m.is_mine(x, 0));
    assert!(!first_row_all_mines);
}

#[test]
fn neighbour_count_matches_manual_count() {
    let m = Mines::new(5, 7, 5, 9);
    for y in 0..5 {
        for x in 0..7 {
            assert_eq!(m.count_mines(x, y), manual_count(&m, x, y));
        }
    }
}

#[test]
fn neighbour_count_on_tiny_board() {
    // 2x1 board with one mine: the safe cell sees exactly one mine.
    let m = Mines::new(1, 2, 1, 1);
    let (mine, safe) = if m.is_mine(0, 0) { (0, 1) } else { (1, 0) };
    assert!(m.is_mine(mine, 0));
    assert_eq!(m.count_mines(safe, 0), 1);
    assert_eq!(m.count_mines(mine, 0), 0);
}

#[test]
fn flood_fill_reveals_zero_region_and_border() {
    for seed in 0..10u32 {
        let m = Mines::new(seed, 10, 10, 10);
        let mut view = MinesView::generate(seed, 10, 10, 10);
        let start = (0..100).find(|&i| !m.is_mine(i % 10, i / 10) && m.count_mines(i % 10, i / 10) == 0);
        let Some(i) = start else { continue };
        view.reveal_at(i % 10, i / 10);
        let t = tiles(&view);
        for y in 0..10 {
            for x in 0..10 {
                if let Some(c) = count_of(t[y * 10 + x]) {
                    assert!(!m.is_mine(x, y));
                    assert_eq!(c, manual_count(&m, x, y));
                    if c == 0 {
                        for (nx, ny) in neighbours(10, 10, x, y) {
                            assert_ne!(t[ny * 10 + nx], PrimitiveViewTile::Hidden);
                        }
                    }
                }
            }
        }
        assert_eq!(t[i], PrimitiveViewTile::R0);
    }
}

#[test]
fn revealing_a_numbered_cell_reveals_only_it() {
    let m = Mines::new(3, 10, 10, 10);
    let i = (0..100).find(|&i| !m.is_mine(i % 10, i / 10) && m.count_mines(i % 10, i / 10) > 0).unwrap();
    let mut view = MinesView::generate(3, 10, 10, 10);
    view.reveal_at(i % 10, i / 10);
    let t = tiles(&view);
    assert_eq!(t.iter().filter(|&&t| t != PrimitiveViewTile::Hidden).count(), 1);
    assert_eq!(count_of(t[i]), Some(m.count_mines(i % 10, i / 10)));
}

#[test]
fn revealing_every_safe_cell_wins() {
    let m = Mines::new(11, 6, 5, 4);
    let mut view = MinesView::generate(11, 6, 5, 4);
    for y in 0..5 {
        for x in 0..6 {
            if !m.is_mine(x, y) {
                view.reveal_at(x, y);
            }
        }
    }
    assert!(matches!(view.status, GameStatus::Won));
    let t = tiles(&view);
    assert_eq!(t.iter().filter(|&&t| t == PrimitiveViewTile::Hidden).count(), 4);
}

#[test]
fn revealing_a_mine_explodes_only_that_tile() {
    let m = Mines::new(9, 10, 10, 10);
    let i = (0..100).find(|&i| m.is_mine(i % 10, i / 10)).unwrap();
    let mut view = MinesView::generate(9, 10, 10, 10);
    view.reveal_at(i % 10, i / 10);
    assert!(matches!(view.status, GameStatus::Lost));
    let t = tiles(&view);
    for (j, tile) in t.iter().enumerate() {
        if j == i {
            assert_eq!(*tile, PrimitiveViewTile::Exploded);
        } else {
            assert_eq!(*tile, PrimitiveViewTile::Hidden);
        }
    }
}

#[test]
fn finished_game_ignores_actions() {
    let m = Mines::new(9, 10, 10, 10);
    let mine = (0..100).find(|&i| m.is_mine(i % 10, i / 10)).unwrap();
    let safe = (0..100).find(|&i| !m.is_mine(i % 10, i / 10)).unwrap();
    let mut view = MinesView::generate(9, 10, 10, 10);
    view.reveal_at(mine % 10, mine / 10);
    let before = view.render();
    view.reveal_at(safe % 10, safe / 10);
    view.flag(safe % 10, safe / 10);
    view.reveal_around(mine % 10, mine / 10);
    assert_eq!(view.render(), before);
    assert!(matches!(view.status, GameStatus::Lost));
}

#[test]
fn flag_toggles_back_to_hidden() {
    let mut view = MinesView::generate(2, 5, 5, 3);
    view.flag(2, 3);
    assert_eq!(view.get(2, 3), PrimitiveViewTile::Flagged);
    view.flag(2, 3);
    assert_eq!(view.get(2, 3), PrimitiveViewTile::Hidden);
}

#[test]
fn flag_ignores_revealed_tiles_and_off_grid() {
    let m = Mines::new(4, 6, 6, 5);
    let i = (0..36).find(|&i| !m.is_mine(i % 6, i / 6)).unwrap();
    let mut view = MinesView::generate(4, 6, 6, 5);
    view.reveal_at(i % 6, i / 6);
    let before = view.render();
    view.flag(i % 6, i / 6);
    view.flag(6, 0);
    view.flag(0, 6);
    assert_eq!(view.render(), before);
}

#[test]
fn reveal_off_grid_is_ignored() {
    let mut view = MinesView::generate(4, 6, 6, 5);
    let before = view.render();
    view.reveal_at(6, 0);
    view.reveal_at(0, 6);
    view.reveal_around(100, 100);
    assert_eq!(view.render(), before);
    assert!(matches!(view.status, GameStatus::Playing));
}

/// Finds a safe cell whose count is 2 and that has at least one safe hidden
/// neighbour besides its mines.
fn chord_setup() -> (u32, usize, usize) {
    for seed in 0..200u32 {
        let m = Mines::new(seed, 8, 8, 12);
        for y in 0..8 {
            for x in 0..8 {
                if m.is_mine(x, y) || m.count_mines(x, y) != 2 {
                    continue;
                }
                let n = neighbours(8, 8, x, y);
                if n.iter().any(|&(a, b)| !m.is_mine(a, b)) {
                    return (seed, x, y);
                }
            }
        }
    }
    panic!("no suitable board");
}

#[test]
fn chord_with_matching_flags_reveals_other_neighbours() {
    let (seed, x, y) = chord_setup();
    let m = Mines::new(seed, 8, 8, 12);
    let mut view = MinesView::generate(seed, 8, 8, 12);
    view.reveal_at(x, y);
    assert_eq!(view.get(x, y), PrimitiveViewTile::R2);
    let n = neighbours(8, 8, x, y);
    for &(a, b) in &n {
        if m.is_mine(a, b) {
            view.flag(a, b);
        }
    }
    view.reveal_around(x, y);
    for &(a, b) in &n {
        if m.is_mine(a, b) {
            assert_eq!(view.get(a, b), PrimitiveViewTile::Flagged);
        } else {
            assert_eq!(count_of(view.get(a, b)), Some(m.count_mines(a, b)));
        }
    }
    assert!(!matches!(view.status, GameStatus::Lost));
}

#[test]
fn chord_with_one_flag_does_nothing() {
    let (seed, x, y) = chord_setup();
    let m = Mines::new(seed, 8, 8, 12);
    let mut view = MinesView::generate(seed, 8, 8, 12);
    view.reveal_at(x, y);
    let &(a, b) = neighbours(8, 8, x, y).iter().find(|&&(a, b)| m.is_mine(a, b)).unwrap();
    view.flag(a, b);
    let before = view.render();
    view.reveal_around(x, y);
    assert_eq!(view.render(), before);
}

#[test]
fn chord_with_three_flags_does_nothing() {
    let (seed, x, y) = chord_setup();
    let m = Mines::new(seed, 8, 8, 12);
    let mut view = MinesView::generate(seed, 8, 8, 12);
    view.reveal_at(x, y);
    let n = neighbours(8, 8, x, y);
    for &(a, b) in &n {
        if m.is_mine(a, b) {
            view.flag(a, b);
        }
    }
    let &(a, b) = n.iter().find(|&&(a, b)| !m.is_mine(a, b)).unwrap();
    view.flag(a, b);
    let before = view.render();
    view.reveal_around(x, y);
    assert_eq!(view.render(), before);
}

#[test]
fn chord_on_hidden_tile_does_nothing() {
    let mut view = MinesView::generate(8, 5, 5, 4);
    let before = view.render();
    view.reveal_around(2, 2);
    assert_eq!(view.render(), before);
}

#[test]
fn render_of_fresh_board() {
    let view = MinesView::generate(1, 3, 2, 1);
    assert_eq!(view.render(), "# # # \n# # # \n");
    assert_eq!(view.width(), 3);
    assert_eq!(view.height(), 2);
}

#[test]
fn render_shows_flags_and_explosions() {
    let m = Mines::new(1, 3, 1, 1);
    let mine = (0..3).find(|&x| m.is_mine(x, 0)).unwrap();
    let other = (mine + 1) % 3;
    let mut view = MinesView::generate(1, 3, 1, 1);
    view.flag(other, 0);
    view.reveal_at(mine, 0);
    let mut expected: Vec<&str> = vec!["#", "#", "#"];
    expected[other] = "F";
    expected[mine] = "X";
    assert_eq!(view.render(), format!("{} {} {} \n", expected[0], expected[1], expected[2]));
}

#[test]
fn primitive_tile_mapping() {
    assert_eq!(PrimitiveViewTile::from(ViewTile::Hidden), PrimitiveViewTile::Hidden);
    assert_eq!(PrimitiveViewTile::from(ViewTile::Exploded), PrimitiveViewTile::Exploded);
    assert_eq!(PrimitiveViewTile::from(ViewTile::Flagged), PrimitiveViewTile::Flagged);
    assert_eq!(PrimitiveViewTile::from(ViewTile::Revealed(0)), PrimitiveViewTile::R0);
    assert_eq!(PrimitiveViewTile::from(ViewTile::Revealed(3)), PrimitiveViewTile::R3);
    assert_eq!(PrimitiveViewTile::from(ViewTile::Revealed(8)), PrimitiveViewTile::R8);
}
