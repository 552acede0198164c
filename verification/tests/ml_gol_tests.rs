use multilayer_gol::color::{Color, ColorHSV};
use multilayer_gol::fraction::Fraction;
use multilayer_gol::frame::{frame_for_grid, frame_for_grid_par, frame_path, pixel_byte, Frame};
use multilayer_gol::game_of_life::Gol;
use multilayer_gol::ml_gol::MlGol;

const NEVER: Fraction = Fraction { num: 0, den: 1 };
const ALWAYS: Fraction = Fraction { num: 1, den: 1 };
const BLACK: Color = Color { r: 0, g: 0, b: 0 };
const WHITE: Color = Color { r: 255, g: 255, b: 255 };

fn rgb(r: u8, g: u8, b: u8) -> Color {
    Color { r, g, b }
}

fn layer_with(extent: usize, alive: &[(usize, usize)]) -> Gol {
    let mut gol = Gol::new(extent, NEVER);
    let size = extent + 2;
    for &(i, j) in alive {
        gol.current[Gol::idx(size, i, j)] = true;
    }
    gol
}

/// A compositor whose layers have exactly the listed cells alive.
fn game_with(extent: u32, layers: &[&[(usize, usize)]]) -> MlGol {
    let layers = layers.iter().map(|alive| layer_with(extent as usize, alive)).collect();
    MlGol::from_layers(extent, layers)
}

fn pixel(frame: &Frame, i: usize, j: usize) -> [u8; 4] {
    let at = (i * frame.width as usize + j) * 4;
    [frame.pixels[at], frame.pixels[at + 1], frame.pixels[at + 2], frame.pixels[at + 3]]
}

#[test]
fn new_game_has_black_fields_of_the_full_size() {
    let game = MlGol::new(4, 3, Fraction { num: 1, den: 2 });
    assert_eq!(game.grid_size(), 6);
    assert_eq!(game.layers().len(), 3);
    assert_eq!(game.combined().len(), 36);
    assert_eq!(game.dependent().len(), 36);
    assert!(game.combined().iter().all(|c| *c == BLACK));
    assert!(game.dependent().iter().all(|c| *c == BLACK));
    for layer in game.layers() {
        assert_eq!(layer.size, 6);
        assert_eq!(layer.current.len(), 36);
        assert_eq!(layer.next.len(), 36);
    }
}

#[test]
fn new_game_follows_the_density_at_both_ends() {
    let empty = MlGol::new(3, 2, NEVER);
    for layer in empty.layers() {
        assert!(layer.current.iter().all(|cell| !cell));
    }
    let full = MlGol::new(3, 2, ALWAYS);
    for layer in full.layers() {
        for i in 0..5 {
            for j in 0..5 {
                let inside = 1 <= i && i <= 3 && 1 <= j && j <= 3;
                assert_eq!(layer.current[i * 5 + j], inside);
            }
        }
    }
}

#[test]
fn from_layers_keeps_the_layers_in_order() {
    let game = game_with(2, &[&[(1, 1)], &[(2, 2)], &[]]);
    assert_eq!(game.layers().len(), 3);
    assert!(game.layers()[0].current[Gol::idx(4, 1, 1)]);
    assert!(game.layers()[1].current[Gol::idx(4, 2, 2)]);
    assert!(game.layers()[2].current.iter().all(|cell| !cell));
    assert!(game.combined().iter().all(|c| *c == BLACK));
}

#[test]
fn four_layers_get_the_hues_of_the_quarter_turns() {
    assert_eq!(MlGol::color_for_layer(0, 4), rgb(255, 0, 0));
    assert_eq!(MlGol::color_for_layer(1, 4), rgb(127, 255, 0));
    assert_eq!(MlGol::color_for_layer(2, 4), rgb(0, 255, 255));
    assert_eq!(MlGol::color_for_layer(3, 4), rgb(127, 0, 255));
    for (layer, degrees) in [(0u32, 0u32), (1, 90), (2, 180), (3, 270)] {
        let by_angle = ColorHSV {
            h: Fraction { num: degrees, den: 360 },
            s: Fraction { num: 1, den: 1 },
            v: Fraction { num: 1, den: 1 },
        };
        assert_eq!(MlGol::color_for_layer(layer as usize, 4), by_angle.to_rgb());
    }
}

#[test]
fn layer_colors_for_other_counts() {
    assert_eq!(MlGol::color_for_layer(0, 1), rgb(255, 0, 0));
    assert_eq!(MlGol::color_for_layer(1, 2), rgb(0, 255, 255));
    assert_eq!(MlGol::color_for_layer(1, 3), rgb(0, 255, 0));
    assert_eq!(MlGol::color_for_layer(2, 3), rgb(0, 0, 255));
    assert_eq!(MlGol::color_for_layer(1, 5), rgb(204, 255, 0));
    assert_eq!(MlGol::color_for_layer(2, 5), rgb(0, 255, 102));
    assert_eq!(MlGol::color_for_layer(5, 6), rgb(255, 0, 255));
}

#[test]
fn combined_blends_the_layers_alive_at_each_cell() {
    let mut game = game_with(2, &[&[(1, 1), (1, 2)], &[(1, 2), (2, 2)], &[(2, 1), (1, 2)]]);
    game.calculate_combined();
    let combined = game.combined();
    assert_eq!(combined[Gol::idx(4, 1, 1)], rgb(255, 0, 0));
    assert_eq!(combined[Gol::idx(4, 2, 2)], rgb(0, 255, 0));
    assert_eq!(combined[Gol::idx(4, 2, 1)], rgb(0, 0, 255));
    assert_eq!(combined[Gol::idx(4, 1, 2)], WHITE);
    let lit = combined.iter().filter(|c| **c != BLACK).count();
    assert_eq!(lit, 4);
}

#[test]
fn combined_stops_each_channel_at_255() {
    let everywhere: &[(usize, usize)] = &[(1, 1)];
    let mut game = game_with(1, &[everywhere, everywhere, everywhere, everywhere]);
    game.calculate_combined();
    assert_eq!(game.combined()[Gol::idx(3, 1, 1)], WHITE);

    let mut pair = game_with(1, &[everywhere, &[], everywhere, &[]]);
    pair.calculate_combined();
    assert_eq!(pair.combined()[Gol::idx(3, 1, 1)], rgb(255, 255, 255));

    let mut warm = game_with(1, &[everywhere, everywhere, &[], &[]]);
    warm.calculate_combined();
    assert_eq!(warm.combined()[Gol::idx(3, 1, 1)], rgb(255, 255, 0));
}

#[test]
fn combined_covers_the_border_too() {
    let mut game = game_with(2, &[&[(0, 0), (3, 2)], &[(0, 0)]]);
    game.calculate_combined();
    assert_eq!(game.combined()[0], WHITE);
    assert_eq!(game.combined()[Gol::idx(4, 3, 2)], rgb(255, 0, 0));
    let mut par = game_with(2, &[&[(0, 0), (3, 2)], &[(0, 0)]]);
    par.calculate_combined_par();
    assert_eq!(par.combined(), game.combined());
}

#[test]
fn combined_adds_to_what_the_field_holds() {
    let mut game = game_with(1, &[&[(1, 1)], &[]]);
    game.calculate_combined();
    game.calculate_combined();
    assert_eq!(game.combined()[Gol::idx(3, 1, 1)], rgb(255, 0, 0));
    let mut cool = game_with(1, &[&[], &[(1, 1)]]);
    cool.calculate_combined();
    assert_eq!(cool.combined()[Gol::idx(3, 1, 1)], rgb(0, 255, 255));
}

#[test]
fn combined_and_combined_par_agree() {
    let a: &[(usize, usize)] = &[(1, 1), (2, 3), (3, 3), (4, 1), (4, 4)];
    let b: &[(usize, usize)] = &[(1, 1), (1, 2), (3, 3), (4, 2)];
    let c: &[(usize, usize)] = &[(2, 3), (3, 3), (4, 4), (1, 4)];
    let mut seq = game_with(4, &[a, b, c]);
    let mut par = game_with(4, &[a, b, c]);
    seq.calculate_combined();
    par.calculate_combined_par();
    assert_eq!(seq.combined(), par.combined());
    assert_eq!(seq.combined()[Gol::idx(6, 3, 3)], WHITE);
    assert_eq!(par.cell_color(Gol::idx(6, 1, 1)), rgb(255, 255, 0));
}

#[test]
fn dependent_is_the_share_of_lit_neighbors() {
    let around = [(1, 1), (1, 2), (1, 3), (2, 1), (2, 3), (3, 1), (3, 2), (3, 3)];
    let grays = [0u8, 31, 63, 95, 127, 159, 191, 223, 255];
    for n in 0..=8 {
        let lit = &around[..n];
        let mut game = game_with(3, &[lit, lit]);
        game.calculate_combined();
        assert_eq!(game.count_dependent_alive_neighbors(2, 2), n as u8);
        game.calculate_dependent();
        let gray = grays[n];
        assert_eq!(game.dependent()[Gol::idx(5, 2, 2)], rgb(gray, gray, gray));
        assert_eq!(MlGol::density_color(n as u8), rgb(gray, gray, gray));
    }
}

#[test]
fn dependent_counts_only_cells_with_all_channels_lit() {
    // Two of three layers: red and green give yellow, whose blue channel is zero.
    let mut game = game_with(3, &[&[(1, 1), (1, 2)], &[(1, 1), (1, 2)], &[(1, 2)]]);
    game.calculate_combined();
    assert_eq!(game.combined()[Gol::idx(5, 1, 1)], rgb(255, 255, 0));
    assert_eq!(game.combined()[Gol::idx(5, 1, 2)], WHITE);
    assert_eq!(game.count_dependent_alive_neighbors(2, 2), 1);
    assert_eq!(game.count_dependent_alive_neighbors(1, 1), 1);
    assert_eq!(game.count_dependent_alive_neighbors(1, 2), 0);
}

#[test]
fn dependent_leaves_the_border_black() {
    let all: Vec<(usize, usize)> = (0..4).flat_map(|i| (0..4).map(move |j| (i, j))).collect();
    let mut game = game_with(2, &[&all, &all]);
    game.calculate_combined();
    game.calculate_dependent();
    for i in 0..4 {
        for j in 0..4 {
            let inside = 1 <= i && i <= 2 && 1 <= j && j <= 2;
            let expected = if inside { WHITE } else { BLACK };
            assert_eq!(game.dependent()[i * 4 + j], expected);
        }
    }
}

#[test]
fn dependent_and_dependent_par_agree() {
    let a: &[(usize, usize)] = &[(1, 1), (2, 3), (3, 3), (4, 1), (4, 4), (0, 2)];
    let b: &[(usize, usize)] = &[(1, 1), (1, 2), (3, 3), (4, 2), (4, 4), (0, 2)];
    let mut seq = game_with(4, &[a, b]);
    let mut par = game_with(4, &[a, b]);
    seq.calculate_combined();
    par.calculate_combined_par();
    seq.calculate_dependent();
    par.calculate_dependent_par();
    assert_eq!(seq.dependent(), par.dependent());
    // (1, 2) has the lit cells (1, 1) and the ghost cell (0, 2) beside it.
    assert_eq!(seq.dependent()[Gol::idx(6, 1, 2)], rgb(63, 63, 63));
    assert_eq!(par.dependent_cell(Gol::idx(6, 3, 4)), rgb(63, 63, 63));
    assert_eq!(par.dependent_cell(0), BLACK);
}

#[test]
fn reset_blackens_both_fields() {
    let all: Vec<(usize, usize)> = (1..4).flat_map(|i| (1..4).map(move |j| (i, j))).collect();
    let mut game = game_with(3, &[&all, &all]);
    game.calculate_combined();
    game.calculate_dependent();
    assert!(game.combined().iter().any(|c| *c != BLACK));
    assert!(game.dependent().iter().any(|c| *c != BLACK));
    game.reset_combined_and_dependent();
    assert_eq!(game.combined().len(), 25);
    assert_eq!(game.dependent().len(), 25);
    assert!(game.combined().iter().all(|c| *c == BLACK));
    assert!(game.dependent().iter().all(|c| *c == BLACK));
    game.reset_combined_and_dependent();
    assert!(game.combined().iter().all(|c| *c == BLACK));
    assert!(game.layers()[0].current[Gol::idx(5, 2, 2)]);
}

#[test]
fn reset_par_blackens_both_fields() {
    let all: Vec<(usize, usize)> = (1..4).flat_map(|i| (1..4).map(move |j| (i, j))).collect();
    let mut game = game_with(3, &[&all, &all]);
    game.calculate_combined_par();
    game.calculate_dependent_par();
    assert!(game.dependent().iter().any(|c| *c != BLACK));
    game.reset_combined_and_dependent_par();
    assert_eq!(game.combined().len(), 25);
    assert_eq!(game.dependent().len(), 25);
    assert!(game.combined().iter().all(|c| *c == BLACK));
    assert!(game.dependent().iter().all(|c| *c == BLACK));
}

#[test]
fn frame_path_pads_the_step_to_four_digits() {
    assert_eq!(frame_path("combined", 7), "output/combined/combined0007.png");
    assert_eq!(frame_path("dependent", 0), "output/dependent/dependent0000.png");
    assert_eq!(frame_path("combined", 42), "output/combined/combined0042.png");
    assert_eq!(frame_path("combined", 999), "output/combined/combined0999.png");
    assert_eq!(frame_path("combined", 1000), "output/combined/combined1000.png");
    assert_eq!(frame_path("combined", 9999), "output/combined/combined9999.png");
    assert_eq!(frame_path("combined", 10000), "output/combined/combined10000.png");
    assert_eq!(frame_path("x", 1234567), "output/x/x1234567.png");
}

#[test]
fn frame_path_agrees_with_the_standard_formatter() {
    for step in [0usize, 1, 9, 10, 99, 100, 101, 5000, 65535, 4294967295, usize::MAX] {
        let expected = format!("output/{}/{}{:04}.png", "dependent", "dependent", step);
        assert_eq!(frame_path("dependent", step), expected);
    }
}

#[test]
fn frame_shows_the_interior_without_the_border() {
    let size = 4;
    let mut grid = vec![rgb(9, 9, 9); size * size];
    grid[Gol::idx(size, 1, 1)] = rgb(1, 2, 3);
    grid[Gol::idx(size, 1, 2)] = rgb(4, 5, 6);
    grid[Gol::idx(size, 2, 1)] = rgb(7, 8, 9);
    grid[Gol::idx(size, 2, 2)] = rgb(10, 11, 12);
    let frame = frame_for_grid(&grid, size, 3, "combined");
    assert_eq!(frame.width, 2);
    assert_eq!(frame.height, 2);
    assert_eq!(frame.path, "output/combined/combined0003.png");
    assert_eq!(frame.pixels, [1, 2, 3, 255, 4, 5, 6, 255, 7, 8, 9, 255, 10, 11, 12, 255]);
    let par = frame_for_grid_par(&grid, size, 3, "combined");
    assert_eq!(par.width, 2);
    assert_eq!(par.height, 2);
    assert_eq!(par.path, frame.path);
    assert_eq!(par.pixels, frame.pixels);
    assert_eq!(pixel_byte(&grid, size, 6), 6);
    assert_eq!(pixel_byte(&grid, size, 7), 255);
    assert_eq!(pixel_byte(&grid, size, 8), 7);
}

#[test]
fn frame_of_a_larger_grid_is_row_major() {
    let size = 5;
    let mut grid = vec![BLACK; size * size];
    for i in 0..size {
        for j in 0..size {
            grid[i * size + j] = rgb(i as u8, j as u8, (10 * i + j) as u8);
        }
    }
    let frame = frame_for_grid(&grid, size, 0, "dependent");
    let par = frame_for_grid_par(&grid, size, 0, "dependent");
    assert_eq!(frame.pixels.len(), 36);
    for i in 0..3 {
        for j in 0..3 {
            let expected = [(i + 1) as u8, (j + 1) as u8, (10 * (i + 1) + j + 1) as u8, 255];
            assert_eq!(pixel(&frame, i, j), expected);
            assert_eq!(pixel(&par, i, j), expected);
        }
    }
}

#[test]
fn single_live_cell_dies_after_one_step() {
    let mut game = MlGol::new(1, 1, ALWAYS);
    assert!(game.layers()[0].current[Gol::idx(3, 1, 1)]);
    let frames = game.start_game(4);
    assert_eq!(frames.len(), 8);
    for frame in &frames {
        assert_eq!(frame.width, 1);
        assert_eq!(frame.height, 1);
        assert_eq!(frame.pixels, [0, 0, 0, 255]);
    }
    assert!(game.layers()[0].current.iter().all(|cell| !cell));

    let mut par = MlGol::new(1, 1, ALWAYS);
    let frames = par.start_game_par(4);
    assert_eq!(frames.len(), 8);
    for frame in &frames {
        assert_eq!(frame.pixels, [0, 0, 0, 255]);
    }
    assert!(par.layers()[0].current.iter().all(|cell| !cell));
}

#[test]
fn dead_layers_give_black_frames_at_every_step() {
    let mut game = MlGol::new(3, 2, Fraction { num: 0, den: 1 });
    let frames = game.start_game(5);
    assert_eq!(frames.len(), 10);
    let black: Vec<u8> = [0u8, 0, 0, 255].repeat(9);
    for (k, frame) in frames.iter().enumerate() {
        let channel = if k % 2 == 0 { "combined" } else { "dependent" };
        assert_eq!(frame.path, format!("output/{}/{}{:04}.png", channel, channel, k / 2));
        assert_eq!(frame.width, 3);
        assert_eq!(frame.height, 3);
        assert_eq!(frame.pixels, black);
    }
    assert!(game.combined().iter().all(|c| *c == BLACK));
    assert!(game.dependent().iter().all(|c| *c == BLACK));

    let mut par = MlGol::new(3, 2, Fraction { num: 0, den: 1 });
    for frame in par.start_game_par(5) {
        assert_eq!(frame.pixels, black);
    }
}

#[test]
fn start_game_renders_each_generation() {
    // One layer with a blinker in the middle of a torus of five by five.
    let mut game = game_with(5, &[&[(3, 2), (3, 3), (3, 4)]]);
    let frames = game.start_game(2);
    assert_eq!(frames.len(), 4);
    assert_eq!(frames[0].path, "output/combined/combined0000.png");
    assert_eq!(frames[1].path, "output/dependent/dependent0000.png");
    assert_eq!(frames[2].path, "output/combined/combined0001.png");
    assert_eq!(frames[3].path, "output/dependent/dependent0001.png");
    let red = [255, 0, 0, 255];
    let none = [0, 0, 0, 255];
    for i in 0..5 {
        for j in 0..5 {
            let upright = j == 2 && (1..=3).contains(&i);
            let flat = i == 2 && (1..=3).contains(&j);
            assert_eq!(pixel(&frames[0], i, j), if upright { red } else { none });
            assert_eq!(pixel(&frames[2], i, j), if flat { red } else { none });
            // A single layer is never lit in all channels.
            assert_eq!(pixel(&frames[1], i, j), none);
        }
    }
    assert!(game.combined().iter().all(|c| *c == BLACK));
    assert!(game.dependent().iter().all(|c| *c == BLACK));
    assert!(game.layers()[0].current[Gol::idx(7, 3, 2)]);
}

#[test]
fn start_game_with_no_steps_does_nothing() {
    let mut game = game_with(2, &[&[(1, 1)]]);
    assert_eq!(game.start_game(0).len(), 0);
    assert_eq!(game.start_game_par(0).len(), 0);
    assert!(game.layers()[0].current[Gol::idx(4, 1, 1)]);
}

#[test]
fn sequential_and_parallel_games_show_the_same_combined_frames() {
    let a: &[(usize, usize)] = &[(1, 2), (2, 3), (3, 1), (3, 2), (3, 3)];
    let b: &[(usize, usize)] = &[(6, 6), (6, 5), (6, 4), (1, 6), (2, 6), (5, 1)];
    let c: &[(usize, usize)] = &[(2, 2), (2, 3), (3, 2), (3, 3), (4, 4), (4, 5), (5, 4)];
    let mut seq = game_with(6, &[a, b, c]);
    let mut par = game_with(6, &[a, b, c]);
    let seq_frames = seq.start_game(8);
    let par_frames = par.start_game_par(8);
    assert_eq!(seq_frames.len(), 16);
    assert_eq!(par_frames.len(), 16);
    for step in 0..8 {
        assert_eq!(seq_frames[2 * step].path, par_frames[2 * step].path);
        assert_eq!(seq_frames[2 * step].pixels, par_frames[2 * step].pixels);
        assert_eq!(seq_frames[2 * step + 1].path, par_frames[2 * step + 1].path);
    }
    for k in 0..3 {
        for i in 1..=6 {
            for j in 1..=6 {
                let at = Gol::idx(8, i, j);
                assert_eq!(seq.layers()[k].current[at], par.layers()[k].current[at]);
            }
        }
    }
}

#[test]
fn dependent_frame_shows_the_density_of_lit_cells() {
    // Two layers with the same block, which is stable: its cells are white.
    let block: &[(usize, usize)] = &[(2, 2), (2, 3), (3, 2), (3, 3)];
    let mut game = game_with(4, &[block, block]);
    let frames = game.start_game_par(1);
    let white = [255, 255, 255, 255];
    let none = [0, 0, 0, 255];
    for i in 0..4 {
        for j in 0..4 {
            let inside = (1..=2).contains(&i) && (1..=2).contains(&j);
            assert_eq!(pixel(&frames[0], i, j), if inside { white } else { none });
        }
    }
    let gray = |n: u8| [n, n, n, 255];
    let expected = [
        [gray(31), gray(63), gray(63), gray(31)],
        [gray(63), gray(95), gray(95), gray(63)],
        [gray(63), gray(95), gray(95), gray(63)],
        [gray(31), gray(63), gray(63), gray(31)],
    ];
    for i in 0..4 {
        for j in 0..4 {
            assert_eq!(pixel(&frames[1], i, j), expected[i][j]);
        }
    }
}
