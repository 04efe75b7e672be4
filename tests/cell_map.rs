use alife::cell_map::{CellMap, Direction};
use alife::error::{LifeError, ShapeError};

#[test]
fn test_new_1() {
    let c = CellMap::new(vec![
        vec![false, true, false],
        vec![true, true, false],
        vec![false, true, true],
    ])
    .unwrap();

    assert_eq!(c.h, 3);
    assert_eq!(c.w, 3);
    assert_eq!(
        c.actual_generation,
        vec![
            vec![false, true, false],
            vec![true, true, false],
            vec![false, true, true]
        ]
    );
}

#[test]
fn test_new_2() {
    match CellMap::new(vec![]) {
        Ok(_) => panic!("The result should not be Ok"),
        Err(e) => assert_eq!(e.message(), "[CellMap creation] The source can't be empty"),
    }
}

#[test]
fn test_new_3() {
    match CellMap::new(vec![
        vec![false, true],
        vec![true, false, true],
        vec![true, false],
    ]) {
        Ok(_) => panic!("The result should not be Ok"),
        Err(e) => assert_eq!(e.message(), "[CellMap creation] All rows must have the same size"),
    }
}

#[test]
fn new_rejects_rows_without_cells() {
    match CellMap::new(vec![vec![], vec![]]) {
        Ok(_) => panic!("The result should not be Ok"),
        Err(e) => assert_eq!(e, LifeError::InvalidShape(ShapeError::Empty)),
    }
}

#[test]
fn new_sizes_the_spare_buffer() {
    let c = CellMap::new(vec![vec![true, false], vec![false, false], vec![true, true]]).unwrap();
    assert_eq!(c.next_generation.len(), 3);
    assert_eq!(c.next_generation[0].len(), 2);
}

#[test]
fn test_generate_next_figure() {
    let mut c = CellMap::new(vec![
        vec![false, true, false],
        vec![true, true, false],
        vec![false, true, true],
    ])
    .unwrap();

    c.generate_next();

    assert_eq!(
        c.actual_generation,
        vec![
            vec![false, false, false, false, false],
            vec![false, true, true, false, false],
            vec![false, true, false, false, false],
            vec![false, true, true, true, false],
            vec![false, false, false, false, false],
        ]
    );
}

#[test]
fn boundary_growth_sizes() {
    let mut c = CellMap::new(vec![
        vec![false, true, false],
        vec![true, true, false],
        vec![false, true, true],
    ])
    .unwrap();
    c.generate_next();
    assert_eq!(c.w, 5);
    assert_eq!(c.h, 5);
    assert_eq!(c.next_generation.len(), 5);
    assert_eq!(c.next_generation[4].len(), 5);
}

#[test]
fn test_generate_next_blinker() {
    let mut c = CellMap::new(vec![
        vec![false, false, false, false, false],
        vec![false, false, true, false, false],
        vec![false, false, true, false, false],
        vec![false, false, true, false, false],
        vec![false, false, false, false, false],
    ])
    .unwrap();

    c.generate_next();

    assert_eq!(
        c.actual_generation,
        vec![
            vec![false, false, false, false, false],
            vec![false, false, false, false, false],
            vec![false, true, true, true, false],
            vec![false, false, false, false, false],
            vec![false, false, false, false, false]
        ]
    );
}

#[test]
fn test_generate_next_glider() {
    let mut c = CellMap::new(vec![
        vec![false, false, false, false, false],
        vec![false, false, true, false, false],
        vec![false, false, false, true, false],
        vec![false, true, true, true, false],
        vec![false, false, false, false, false],
    ])
    .unwrap();

    c.generate_next();

    assert_eq!(
        c.actual_generation,
        vec![
            vec![false, false, false, false, false],
            vec![false, false, false, false, false],
            vec![false, true, false, true, false],
            vec![false, false, true, true, false],
            vec![false, false, true, false, false]
        ]
    );
}

#[test]
fn test_generate_next_beehive() {
    let mut c = CellMap::new(vec![
        vec![false, false, false, false, false, false],
        vec![false, false, true, true, false, false],
        vec![false, true, false, false, true, false],
        vec![false, false, true, true, false, false],
        vec![false, false, false, false, false, false],
    ])
    .unwrap();

    c.generate_next();

    assert_eq!(
        c.actual_generation,
        vec![
            vec![false, false, false, false, false, false],
            vec![false, false, true, true, false, false],
            vec![false, true, false, false, true, false],
            vec![false, false, true, true, false, false],
            vec![false, false, false, false, false, false]
        ]
    );
}

#[test]
fn test_generate_next_toad() {
    let mut c = CellMap::new(vec![
        vec![false, false, false, false, false, false],
        vec![false, false, false, false, false, false],
        vec![false, false, true, true, true, false],
        vec![false, true, true, true, false, false],
        vec![false, false, false, false, false, false],
        vec![false, false, false, false, false, false],
    ])
    .unwrap();

    c.generate_next();

    assert_eq!(
        c.actual_generation,
        vec![
            vec![false, false, false, false, false, false],
            vec![false, false, false, true, false, false],
            vec![false, true, false, false, true, false],
            vec![false, true, false, false, true, false],
            vec![false, false, true, false, false, false],
            vec![false, false, false, false, false, false]
        ]
    );
}

#[test]
fn toad_returns_after_two_steps() {
    let start = vec![
        vec![false, false, false, false, false, false],
        vec![false, false, false, false, false, false],
        vec![false, false, true, true, true, false],
        vec![false, true, true, true, false, false],
        vec![false, false, false, false, false, false],
        vec![false, false, false, false, false, false],
    ];
    let mut c = CellMap::new(start.clone()).unwrap();
    c.generate_next();
    c.generate_next();
    assert_eq!(c.actual_generation, start);
}

#[test]
fn step_is_a_function_of_the_board() {
    let cells = vec![
        vec![false, true, false, false],
        vec![true, true, true, false],
        vec![false, false, true, true],
    ];
    let mut a = CellMap::new(cells.clone()).unwrap();
    let mut b = CellMap::new(cells).unwrap();
    b.next_generation[1][1] = true;
    a.generate_next();
    b.generate_next();
    assert_eq!(a.actual_generation, b.actual_generation);
    assert_eq!((a.w, a.h), (b.w, b.h));
}

#[test]
fn lone_cell_dies_and_board_grows() {
    let mut c = CellMap::new(vec![vec![true]]).unwrap();
    c.generate_next();
    assert_eq!(c.actual_generation, vec![vec![false; 3]; 3]);
}

#[test]
fn test_auto_crop() {
    let c = CellMap::new(vec![
        vec![false, false, false, false, false],
        vec![false, false, false, false, false],
        vec![false, false, true, false, false],
        vec![false, false, false, false, false],
        vec![false, false, false, true, false],
        vec![false, false, false, false, false],
        vec![false, true, true, true, false],
        vec![false, false, false, false, false],
        vec![false, false, false, false, false],
    ])
    .unwrap();

    let cropped_c = c.auto_crop();

    assert_eq!(
        cropped_c.actual_generation,
        vec![
            vec![false, true, false],
            vec![false, false, false],
            vec![false, false, true],
            vec![false, false, false],
            vec![true, true, true],
        ]
    );
    assert_eq!(cropped_c.w, 3);
    assert_eq!(cropped_c.h, 5);
    assert_eq!(cropped_c.next_generation.len(), 5);
    assert_eq!(cropped_c.next_generation[0].len(), 3);
}

#[test]
fn crop_of_a_dead_board_is_one_dead_cell() {
    let c = CellMap::new(vec![vec![false; 4]; 3]).unwrap();
    let cropped = c.auto_crop();
    assert_eq!(cropped.actual_generation, vec![vec![false]]);
    assert_eq!((cropped.w, cropped.h), (1, 1));
}

#[test]
fn crop_twice_is_crop_once() {
    let c = CellMap::new(vec![
        vec![false, false, false, false],
        vec![false, true, false, false],
        vec![false, false, false, true],
        vec![false, false, false, false],
    ])
    .unwrap();
    let once = c.auto_crop();
    let twice = once.auto_crop();
    assert_eq!(once.actual_generation, vec![vec![true, false, false], vec![false, false, true]]);
    assert_eq!(twice.actual_generation, once.actual_generation);
    assert_eq!((twice.w, twice.h), (once.w, once.h));
}

#[test]
fn crop_leaves_the_source_alone() {
    let cells = vec![vec![false, false], vec![false, true]];
    let c = CellMap::new(cells.clone()).unwrap();
    let _ = c.auto_crop();
    assert_eq!(c.actual_generation, cells);
}

#[test]
fn test_expand_1() {
    let mut c = CellMap::new(vec![
        vec![false, true, false],
        vec![false, false, true],
        vec![true, true, true],
    ])
    .unwrap();

    c.expand(&vec![Direction::Left]);

    assert_eq!(c.w, 4);
    assert_eq!(c.h, 3);
    assert_eq!(c.next_generation.len(), 3);
    assert_eq!(c.next_generation[0].len(), 4);
    assert_eq!(
        c.actual_generation,
        vec![
            vec![false, false, true, false],
            vec![false, false, false, true],
            vec![false, true, true, true],
        ]
    )
}

#[test]
fn expand_on_all_sides() {
    let mut c = CellMap::new(vec![vec![true]]).unwrap();
    c.expand(&vec![Direction::Top, Direction::Right, Direction::Bottom, Direction::Left]);
    assert_eq!(
        c.actual_generation,
        vec![vec![false, false, false], vec![false, true, false], vec![false, false, false]]
    );
    assert_eq!((c.w, c.h), (3, 3));
}

#[test]
fn spare_buffer_starts_dead() {
    let c = CellMap::new(vec![vec![true, true], vec![false, true]]).unwrap();
    assert_eq!(c.next_generation, vec![vec![false; 2]; 2]);
    let cropped = CellMap::new(vec![vec![false, false, false], vec![false, true, true]]).unwrap().auto_crop();
    assert_eq!(cropped.next_generation, vec![vec![false; 2]]);
}
