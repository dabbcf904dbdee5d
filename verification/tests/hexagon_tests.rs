use dicey_dice::hexagon::coordinate::Axial;
use dicey_dice::hexagon::coordinate::Cube;
use dicey_dice::hexagon::grid::generate_new_row;
use dicey_dice::hexagon::grid::Grid;
use dicey_dice::hexagon::grid::Rectangular;

fn axial_cube(column: i32, row: i32) -> Cube {
    Axial::new(column, row).cube().unwrap()
}

#[test]
fn coordinate_axial_into_cube() {
    let axial = Axial::new(0, 0);
    let cube = axial.cube().unwrap();
    assert!(cube.x() == 0);
    assert!(cube.y() == 0);
    assert!(cube.z() == 0);

    let axial = Axial::new(1, 0);
    let cube = axial.cube().unwrap();
    assert!(cube.x() == 1);
    assert!(cube.y() == -1);
    assert!(cube.z() == 0);

    let axial = Axial::new(0, 1);
    let cube = axial.cube().unwrap();
    assert!(cube.x() == 0);
    assert!(cube.y() == -1);
    assert!(cube.z() == 1);

    let axial = Axial::new(-1, 0);
    let cube = axial.cube().unwrap();
    assert!(cube.x() == -1);
    assert!(cube.y() == 1);
    assert!(cube.z() == 0);

    let axial = Axial::new(0, -1);
    let cube = axial.cube().unwrap();
    assert!(cube.x() == 0);
    assert!(cube.y() == 1);
    assert!(cube.z() == -1);

    let axial = Axial::new(1, -1);
    let cube = axial.cube().unwrap();
    assert!(cube.x() == 1);
    assert!(cube.y() == 0);
    assert!(cube.z() == -1);

    let axial = Axial::new(-1, -1);
    let cube = axial.cube().unwrap();
    assert!(cube.x() == -1);
    assert!(cube.y() == 2);
    assert!(cube.z() == -1);

    let axial = Axial::new(-1, 1);
    let cube = axial.cube().unwrap();
    assert!(cube.x() == -1);
    assert!(cube.y() == 0);
    assert!(cube.z() == 1);

    let axial = Axial::new(1, 1);
    let cube = axial.cube().unwrap();
    assert!(cube.x() == 1);
    assert!(cube.y() == -2);
    assert!(cube.z() == 1);
}

#[test]
fn grid_generate_row() {
    let row = generate_new_row(4);
    assert!(row.len() == 4);
    assert!(row[0] == axial_cube(0, 0));
    assert!(row[1] == axial_cube(1, 0));
    assert!(row[2] == axial_cube(2, 0));
    assert!(row[3] == axial_cube(3, 0));
}

fn increment_generator(cols: u32, rows: u32) -> Grid<u32> {
    let base = Rectangular::generate(cols, rows, 0u32).to_grid();
    let mut tiles: Vec<(Cube, u32)> = Vec::new();
    let mut increment: u32 = 0;
    let mut i = 0;
    while i < base.tiles.len() {
        increment += 1;
        tiles.push((base.tiles[i].0, increment));
        i += 1;
    }
    Grid::from_tiles(tiles).change_to_rectangle(cols, rows)
}

#[test]
fn grid_rect_grid_1x1() {
    let r_grid = increment_generator(1, 1);

    let origin = Cube::construct(0, 0, 0).unwrap();
    assert!(*r_grid.fetch(&origin).unwrap() == 1);
}

#[test]
fn grid_rect_grid_1x2() {
    let r_grid = increment_generator(2, 1);

    let origin = Cube::construct(0, 0, 0).unwrap();
    assert!(*r_grid.fetch(&origin).unwrap() == 1);

    let origin = Cube::construct(1, -1, 0).unwrap();
    assert!(*r_grid.fetch(&origin).unwrap() == 2);
}

#[test]
fn grid_rect_grid_1x4() {
    let r_grid = increment_generator(4, 1);

    let origin = Cube::construct(0, 0, 0).unwrap();
    assert!(*r_grid.fetch(&origin).unwrap() == 1);

    let last = Cube::construct(3, -3, 0).unwrap();
    assert!(*r_grid.fetch(&last).unwrap() == 4);
}

#[test]
fn grid_rect_grid_2x2() {
    let r_grid = increment_generator(2, 2);

    let origin = Cube::construct(0, 0, 0).unwrap();
    assert!(*r_grid.fetch(&origin).unwrap() == 1);

    let origin = Cube::construct(1, -1, 0).unwrap();
    assert!(*r_grid.fetch(&origin).unwrap() == 2);

    let origin = Cube::construct(0, -1, 1).unwrap();
    assert!(*r_grid.fetch(&origin).unwrap() == 3);

    let origin = Cube::construct(1, -2, 1).unwrap();
    assert!(*r_grid.fetch(&origin).unwrap() == 4);
}

#[test]
fn grid_rect_grid_3x3() {
    let r_grid = increment_generator(3, 3);

    let origin = Cube::construct(0, 0, 0).unwrap();
    assert!(*r_grid.fetch(&origin).unwrap() == 1);

    let origin = Cube::construct(2, -2, 0).unwrap();
    assert!(*r_grid.fetch(&origin).unwrap() == 3);

    let origin = Cube::construct(-1, -1, 2).unwrap();
    assert!(*r_grid.fetch(&origin).unwrap() == 7);

    let origin = Cube::construct(1, -3, 2).unwrap();
    assert!(*r_grid.fetch(&origin).unwrap() == 9);
}

#[test]
fn grid_rect_grid_4x4() {
    let r_grid = increment_generator(4, 4);

    let origin = Cube::construct(0, 0, 0).unwrap();
    assert!(*r_grid.fetch(&origin).unwrap() == 1);

    let origin = Cube::construct(3, -3, 0).unwrap();
    assert!(*r_grid.fetch(&origin).unwrap() == 4);

    let origin = Cube::construct(-1, -2, 3).unwrap();
    assert!(*r_grid.fetch(&origin).unwrap() == 13);

    let origin = Cube::construct(2, -5, 3).unwrap();
    assert!(*r_grid.fetch(&origin).unwrap() == 16);
}

#[test]
fn grid_grid_0x0_iterator() {
    let r_grid: Grid<u32> = Rectangular::generate(0, 0, 4u32).to_grid();
    let tiles = r_grid.iter();
    assert!(tiles.is_empty());
}

#[test]
fn grid_grid_2x2_iterator() {
    let r_grid = increment_generator(2, 2);

    let tiles = r_grid.iter();
    assert!(tiles.len() == 4);

    let origin = Cube::construct(0, 0, 0).unwrap();
    assert!(origin == tiles[0].coordinate());

    let origin = Cube::construct(1, -1, 0).unwrap();
    assert!(origin == tiles[1].coordinate());

    let origin = Cube::construct(0, -1, 1).unwrap();
    assert!(origin == tiles[2].coordinate());

    let origin = Cube::construct(1, -2, 1).unwrap();
    assert!(origin == tiles[3].coordinate());
}

#[test]
fn grid_fork_2x2_grid() {
    let r_grid: Grid<u32> = Rectangular::generate(2, 2, 4u32).to_grid();

    let f_grid = r_grid.fork_with(|_, h| h * 2);

    for tile in f_grid.iter() {
        assert!(tile.data() == 8);
    }
}

#[test]
fn construct_rejects_nonzero_sum() {
    let err = Cube::construct(1, 1, 1);
    assert!(err.is_err());
    let e = err.unwrap_err();
    assert!(e.x == 1 && e.y == 1 && e.z == 1);
}

#[test]
fn fetch_misses_absent_coordinate() {
    let r_grid = increment_generator(2, 2);
    let outside = Cube::construct(5, -5, 0).unwrap();
    assert!(r_grid.fetch(&outside).is_err());
}

#[test]
fn neighbours_keep_zero_sum() {
    let origin = Cube::construct(1, -3, 2).unwrap();
    for n in origin.neighbours().iter() {
        assert!(n.x() + n.y() + n.z() == 0);
    }
    for n in origin.three_neighbours().iter() {
        assert!(n.x() + n.y() + n.z() == 0);
    }
}

#[test]
fn grid_rectangle_display_2x2() {
    let r_grid: Grid<char> = Rectangular::generate(2, 2, 'B').to_grid();
    assert_eq!("B B \n  B B \n", r_grid.as_string());
}

#[test]
fn grid_rectangle_display_3x3() {
    let r_grid: Grid<char> = Rectangular::generate(3, 3, 'A').to_grid();
    assert_eq!("A A A \n  A A A \nA A A \n", r_grid.as_string());
}
