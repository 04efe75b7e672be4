use alife::cell_map::CellMap;
use alife::error::{LifeError, ShapeError};
use alife::rle::RLE;
use alife::simulation::simulate;

#[test]
fn test_remove_and_collect_comments() {
    let input = "# Comment 1\nLine 1\n# Comment 2\nLine 2\n  # Comment indented\nLine 3";
    let (cleaned, comments) = RLE::remove_and_collect_comments(input);

    assert_eq!(cleaned, "Line 1\nLine 2\nLine 3");
    assert_eq!(comments, vec!["# Comment 1", "# Comment 2", "  # Comment indented"]);
}

#[test]
fn lines_lose_carriage_returns() {
    let (cleaned, comments) = RLE::remove_and_collect_comments("#C a\r\nx = 1, y = 1\r\no!\n");
    assert_eq!(cleaned, "x = 1, y = 1\no!");
    assert_eq!(comments, vec!["#C a"]);
}

#[test]
fn test_parse_1() {
    let content = String::from(
        "#N Gosper glider gun
#C This was the first gun discovered.
#C As its name suggests, it was discovered by Bill Gosper.
x = 36, y = 9, rule = B3/S23
24bo$22bobo$12b2o6b2o12b2o$11bo3bo4b2
o12b2o$2o8bo5bo3b2o$2o8bo3bob2o4bobo$10bo5
bo7bo$11bo3bo$12b2o!",
    );

    match RLE::parse(content) {
        Ok(result) => {
            assert_eq!(
                result.comments,
                vec![
                    "#N Gosper glider gun",
                    "#C This was the first gun discovered.",
                    "#C As its name suggests, it was discovered by Bill Gosper."
                ]
            );
            assert_eq!(result.x, 36);
            assert_eq!(result.y, 9);
            assert_eq!(result.rule, Some("B3/S23".to_string()));
            assert_eq!(result.data, "24bo$22bobo$12b2o6b2o12b2o$11bo3bo4b2o12b2o$2o8bo5bo3b2o$2o8bo3bob2o4bobo$10bo5bo7bo$11bo3bo$12b2o!".to_string())
        }
        Err(error) => panic!("{}", error.message()),
    }
}

#[test]
fn test_parse_2() {
    let content = String::from(
        "x = 36, y = 9
24bo$22bobo$12b2o6b2o12b2o$11bo3bo4b2o12b2o$2o8bo5bo3b2o$2o8bo3bob2o4bobo$ 10b o 5b o 7b o $11bo3bo$12b2o !",
    );

    match RLE::parse(content) {
        Ok(result) => {
            assert_eq!(result.comments, Vec::<String>::new());
            assert_eq!(result.x, 36);
            assert_eq!(result.y, 9);
            assert_eq!(result.rule, None);
            assert_eq!(result.data, "24bo$22bobo$12b2o6b2o12b2o$11bo3bo4b2o12b2o$2o8bo5bo3b2o$2o8bo3bob2o4bobo$ 10b o 5b o 7b o $11bo3bo$12b2o !".to_string())
        }
        Err(error) => panic!("{}", error.message()),
    }
}

#[test]
fn test_parse_3() {
    let content = String::from(
        "x = 36, y = 9
24bo$22bobo$12b2o6b2o12b2o$11bo3ao4b2o12b2o$2o8bo5bo3b2o$2o8bo3bob2o4bobo$10bo5bo7bo$11bo3bo$12b2o!",
    );

    match RLE::parse(content) {
        Ok(_) => panic!("The result should not be Ok"),
        Err(error) => assert_eq!(error.message(), "[RLE decoder] Content not found or incorrect."),
    }
}

#[test]
fn test_parse_4() {
    let content = String::from(
        "#N 20cellquadraticgrowth.rle
#O dani, 2022
#C https://conwaylife.com/wiki/20-cell_quadratic_growth
#C https://www.conwaylife.com/patterns/20cellquadraticgrowth.rle
x = 97, y = 33, rule = B3/S23
94$92bobo$94b2o6$88b3o11$96bo$95b2o8$3bob2o$2bo3bo$bo$bo$obo!",
    );

    match RLE::parse(content) {
        Ok(result) => {
            assert_eq!(result.comments.len(), 4);
            assert_eq!(result.x, 97);
            assert_eq!(result.y, 33);
            assert_eq!(result.rule, Some("B3/S23".to_string()));
            assert_eq!(
                result.data,
                "94$92bobo$94b2o6$88b3o11$96bo$95b2o8$3bob2o$2bo3bo$bo$bo$obo!".to_string()
            )
        }
        Err(error) => panic!("{}", error.message()),
    }
}

#[test]
fn parse_without_header() {
    assert_eq!(RLE::parse(String::from("#C only a comment\n")).unwrap_err(), LifeError::MissingHeader);
    assert_eq!(RLE::parse(String::new()).unwrap_err(), LifeError::MissingHeader);
}

#[test]
fn parse_with_a_bad_header() {
    assert_eq!(RLE::parse(String::from("x = 3 y = 3\no!")).unwrap_err(), LifeError::MalformedHeader);
    assert_eq!(RLE::parse(String::from("x = 3, y = \no!")).unwrap_err(), LifeError::MalformedHeader);
    assert_eq!(
        RLE::parse(String::from("x = 3, y = 3, rule = B3 S23\no!")).unwrap_err(),
        LifeError::MalformedHeader
    );
    assert_eq!(RLE::parse(String::from("x = 3, y = 3, law = B3\no!")).unwrap_err(), LifeError::MalformedHeader);
}

#[test]
fn parse_header_with_loose_spacing() {
    let r = RLE::parse(String::from("  x=2 ,y =1,rule=  B36/S23  \n2o!")).unwrap();
    assert_eq!((r.x, r.y), (2, 1));
    assert_eq!(r.rule, Some(String::from("B36/S23")));
}

#[test]
fn parse_header_number_too_large() {
    assert_eq!(
        RLE::parse(String::from("x = 4294967296, y = 1\no!")).unwrap_err(),
        LifeError::NumberParseOverflow
    );
    let r = RLE::parse(String::from("x = 4294967295, y = 1\no!")).unwrap();
    assert_eq!(r.x, 4294967295);
}

#[test]
fn parse_without_data() {
    assert_eq!(RLE::parse(String::from("x = 1, y = 1")).unwrap_err(), LifeError::MissingData);
    assert_eq!(RLE::parse(String::from("x = 1, y = 1\n  \n")).unwrap_err(), LifeError::MissingData);
}

#[test]
fn parse_with_bad_data() {
    assert_eq!(RLE::parse(String::from("x = 1, y = 1\no")).unwrap_err(), LifeError::MalformedData);
    assert_eq!(RLE::parse(String::from("x = 1, y = 1\no3!")).unwrap_err(), LifeError::MalformedData);
    assert_eq!(RLE::parse(String::from("x = 1, y = 1\no!!")).unwrap_err(), LifeError::MalformedData);
}

#[test]
fn test_export_1() {
    let rle = RLE {
        comments: vec!["#C Game of Life".to_string()],
        x: 36,
        y: 9,
        rule: Some("B3/S23".to_string()),
        data: "24bo$22bobo$12b2o6b2o12b2o$11bo3bo4b2o12b2o$2o8bo5bo3b2o$2o8bo3bob2o4bobo$10bo5bo7bo$11bo3bo$12b2o!".to_string(),
    };

    let result = rle.export();

    assert_eq!(
        result,
        "#C Generated by ALife\n#C Game of Life\nx = 36, y = 9, rule = B3/S23\n24bo$22bobo$12b2o6b2o12b2o$11bo3bo4b2o12b2o$2o8bo5bo3b2o$2o8bo3bob2o4bobo$10bo5bo7bo$11bo3bo$12b2o!"
    )
}

#[test]
fn test_export_2() {
    let rle = RLE {
        comments: vec![
            "#N Gosper glider gun".to_string(),
            "#C This was the first gun discovered.".to_string(),
            "#C As its name suggests, it was discovered by Bill Gosper.".to_string(),
        ],
        x: 36,
        y: 9,
        rule: Some("B3/S23".to_string()),
        data: "24bo$22bobo$12b2o6b2o12b2o$11bo3bo4b2o12b2o$2o8bo5bo3b2o$2o8bo3bob2o4bobo$10bo5bo7bo$11bo3bo$12b2o!".to_string(),
    };

    let result = rle.export();

    assert_eq!(
        result,
        "#C Generated by ALife\n#N Gosper glider gun\n#C This was the first gun discovered.\n#C As its name suggests, it was discovered by Bill Gosper.\nx = 36, y = 9, rule = B3/S23\n24bo$22bobo$12b2o6b2o12b2o$11bo3bo4b2o12b2o$2o8bo5bo3b2o$2o8bo3bob2o4bobo$10bo5bo7bo$11bo3bo$12b2o!"
    )
}

#[test]
fn export_without_comments_or_rule() {
    let rle = RLE { comments: vec![], x: 1, y: 2, rule: None, data: "o$o!".to_string() };
    assert_eq!(rle.export(), "#C Generated by ALife\nx = 1, y = 2\no$o!");
}

#[test]
fn rle_test_from_cell_map_1() {
    let c = CellMap::new(vec![
        vec![false, true, false],
        vec![false, false, true],
        vec![true, true, true],
    ])
    .unwrap();

    let rle = RLE::from_cell_map(&c, Some(&vec!["#C Glider".to_string()]));

    assert_eq!(rle.comments, vec!["#C Glider".to_string()]);
    assert_eq!(rle.x, 3);
    assert_eq!(rle.y, 3);
    assert_eq!(rle.rule, Some(String::from("B3/S23")));
    assert_eq!(rle.data, String::from("bo$2bo$3o!"));
}

#[test]
fn rle_test_from_cell_map_2() {
    let c = CellMap::new(vec![
        vec![false, false, false],
        vec![false, true, false],
        vec![false, false, true],
        vec![true, true, true],
        vec![false, false, false],
    ])
    .unwrap();

    let rle = RLE::from_cell_map(&c, Some(&vec!["#C Glider".to_string()]));

    assert_eq!(rle.comments, vec!["#C Glider".to_string()]);
    assert_eq!(rle.x, 3);
    assert_eq!(rle.y, 3);
    assert_eq!(rle.rule, Some(String::from("B3/S23")));
    assert_eq!(rle.data, String::from("bo$2bo$3o!"));
}

#[test]
fn rle_test_from_cell_map_3() {
    let c = CellMap::new(vec![
        vec![false, false, false, false, false],
        vec![false, false, false, false, false],
        vec![false, false, true, false, false],
        vec![false, false, false, false, false],
        vec![false, false, false, false, false],
        vec![false, false, false, true, false],
        vec![false, false, false, false, false],
        vec![false, true, true, true, false],
        vec![false, false, false, false, false],
        vec![false, false, false, false, false],
    ])
    .unwrap();

    let rle = RLE::from_cell_map(&c, Some(&vec!["#C Glider".to_string()]));

    assert_eq!(rle.comments, vec!["#C Glider".to_string()]);
    assert_eq!(rle.x, 3);
    assert_eq!(rle.y, 6);
    assert_eq!(rle.rule, Some(String::from("B3/S23")));
    assert_eq!(rle.data, String::from("bo3$2bo2$3o!"));
}

#[test]
fn from_cell_map_long_runs_and_no_comments() {
    let mut row = vec![true; 12];
    row[11] = false;
    row[0] = false;
    let c = CellMap::new(vec![row, vec![true; 12]]).unwrap();
    let rle = RLE::from_cell_map(&c, None);
    assert_eq!(rle.comments, Vec::<String>::new());
    assert_eq!((rle.x, rle.y), (12, 2));
    assert_eq!(rle.data, "b10o$12o!");
}

#[test]
fn from_cell_map_of_a_dead_board() {
    let c = CellMap::new(vec![vec![false; 3]; 2]).unwrap();
    let rle = RLE::from_cell_map(&c, None);
    assert_eq!((rle.x, rle.y), (1, 1));
    assert_eq!(rle.data, "!");
    let back = rle.to_cell_map().unwrap();
    assert_eq!(back.actual_generation, vec![vec![false]]);
}

#[test]
fn test_cell_map_to_file() {
    let c = CellMap::new(vec![
        vec![false, false, false, false, false],
        vec![false, false, false, false, false],
        vec![false, false, true, false, false],
        vec![false, false, false, false, false],
        vec![false, false, false, false, false],
        vec![false, false, false, true, false],
        vec![false, false, false, false, false],
        vec![false, true, true, true, false],
        vec![false, false, false, false, false],
        vec![false, false, false, false, false],
    ])
    .unwrap();

    let file_content = String::from(
        "#C Generated by ALife\n#C Stretched glider\nx = 3, y = 6, rule = B3/S23\nbo3$2bo2$3o!",
    );

    assert_eq!(RLE::cell_map_to_file(&c, Some(&vec![String::from("#C Stretched glider")])), file_content);
}

#[test]
fn test_to_cell_map_1() {
    let rle = RLE { comments: vec![], x: 3, y: 6, rule: None, data: String::from("b o 2 $ 2b o 3 $3o!") };

    let cell_map = CellMap::new(vec![
        vec![false, true, false],
        vec![false, false, false],
        vec![false, false, true],
        vec![false, false, false],
        vec![false, false, false],
        vec![true, true, true],
    ])
    .unwrap();

    let result = rle.to_cell_map().unwrap();

    assert_eq!(result.w, cell_map.w);
    assert_eq!(result.h, cell_map.h);
    assert_eq!(result.actual_generation, cell_map.actual_generation);
}

#[test]
fn test_to_cell_map_2() {
    let rle = RLE { comments: vec![], x: 11, y: 14, rule: None, data: String::from("b o 2 $10bo$10$3o!") };

    let false_vector = vec![false; 11];
    let mut map = vec![false_vector; 14];
    map[0][1] = true;
    map[2][10] = true;
    map[13][0] = true;
    map[13][1] = true;
    map[13][2] = true;
    let cell_map = CellMap::new(map).unwrap();

    let result = rle.to_cell_map().unwrap();

    assert_eq!(result.w, cell_map.w);
    assert_eq!(result.h, cell_map.h);
    assert_eq!(result.actual_generation, cell_map.actual_generation);
}

#[test]
fn to_cell_map_errors() {
    let make = |x: u32, y: u32, data: &str| RLE { comments: vec![], x, y, rule: None, data: data.to_string() };
    assert_eq!(make(2, 2, "   ").to_cell_map().unwrap_err(), LifeError::MissingData);
    assert_eq!(make(2, 2, "2a!").to_cell_map().unwrap_err(), LifeError::MalformedData);
    assert_eq!(make(2, 2, "o$o").to_cell_map().unwrap_err(), LifeError::MalformedData);
    assert_eq!(
        make(2, 2, "4294967296o!").to_cell_map().unwrap_err(),
        LifeError::NumberParseOverflow
    );
    assert_eq!(
        make(2, 2, "3o!").to_cell_map().unwrap_err(),
        LifeError::InvalidShape(ShapeError::Overflow)
    );
    assert_eq!(
        make(2, 2, "o$o$o!").to_cell_map().unwrap_err(),
        LifeError::InvalidShape(ShapeError::Overflow)
    );
    assert_eq!(
        make(2, 2, "o3$o!").to_cell_map().unwrap_err(),
        LifeError::InvalidShape(ShapeError::Overflow)
    );
    assert_eq!(make(0, 2, "!").to_cell_map().unwrap_err(), LifeError::InvalidShape(ShapeError::Empty));
    assert_eq!(make(2, 0, "!").to_cell_map().unwrap_err(), LifeError::InvalidShape(ShapeError::Empty));
}

#[test]
fn blank_line_counts() {
    let rle = RLE { comments: vec![], x: 2, y: 5, rule: None, data: String::from("2$o$$bo!") };
    let c = rle.to_cell_map().unwrap();
    assert_eq!(
        c.actual_generation,
        vec![
            vec![false, false],
            vec![false, false],
            vec![true, false],
            vec![false, true],
            vec![false, false],
        ]
    );
}

#[test]
fn test_file_to_cell_map_1() {
    let file_content = String::from("#C [[ ZOOM 16 GRID COLOR GRID 192 192 192 GRIDMAJOR 10 COLOR GRIDMAJOR 128 128 128 COLOR DEADRAMP 255 220 192 COLOR ALIVE 0 0 0 COLOR ALIVERAMP 0 0 0 COLOR DEAD 192 220 255 COLOR BACKGROUND 255 255 255 GPS 10 WIDTH 937 HEIGHT 600 ]]
x = 12, y = 8, rule = B3/S23
5bob2o$4bo6bo$3b2o3bo2bo$2obo5b2o$2obo5b2o$3b2o3bo2bo$4bo6bo$5bob2o!");

    let map = vec![
        vec![false, false, false, false, false, true, false, true, true, false, false, false],
        vec![false, false, false, false, true, false, false, false, false, false, false, true],
        vec![false, false, false, true, true, false, false, false, true, false, false, true],
        vec![true, true, false, true, false, false, false, false, false, true, true, false],
        vec![true, true, false, true, false, false, false, false, false, true, true, false],
        vec![false, false, false, true, true, false, false, false, true, false, false, true],
        vec![false, false, false, false, true, false, false, false, false, false, false, true],
        vec![false, false, false, false, false, true, false, true, true, false, false, false],
    ];

    let result = RLE::file_to_cell_map(file_content).unwrap();

    assert_eq!(result.w, 12);
    assert_eq!(result.h, 8);
    assert_eq!(result.actual_generation, map);
}

#[test]
fn round_trip_gives_the_cropped_board() {
    let text = String::from("#C a pattern\nx = 6, y = 5\n$2b2o$bo2bo3$!");
    let board = RLE::file_to_cell_map(text.clone()).unwrap();
    let comments = RLE::parse(text).unwrap().comments;
    let out = RLE::cell_map_to_file(&board, Some(&comments));
    assert_eq!(out, "#C Generated by ALife\n#C a pattern\nx = 4, y = 2, rule = B3/S23\nb2o$o2bo!");
    let again = RLE::file_to_cell_map(out).unwrap();
    assert_eq!(again.actual_generation, board.auto_crop().actual_generation);
    assert_eq!(again.auto_crop().actual_generation, board.auto_crop().actual_generation);
}

#[test]
fn round_trip_with_empty_rows_inside() {
    let c = CellMap::new(vec![
        vec![true, false, false],
        vec![false, false, false],
        vec![false, false, false],
        vec![false, false, false],
        vec![false, false, true],
        vec![false, false, false],
        vec![true, false, true],
    ])
    .unwrap();
    let text = RLE::cell_map_to_file(&c, None);
    assert_eq!(text, "#C Generated by ALife\nx = 3, y = 7, rule = B3/S23\no4$2bo2$obo!");
    let back = RLE::file_to_cell_map(text).unwrap();
    assert_eq!(back.actual_generation, c.actual_generation);
}

#[test]
fn simulate_a_blinker() {
    let (board, text) = simulate(String::from("#C blinker\nx = 3, y = 1\n3o!"), 1).unwrap();
    assert_eq!(
        board.actual_generation,
        vec![vec![false, false, true, false, false]; 3]
    );
    assert_eq!(text, "#C Generated by ALife\n#C blinker\nx = 1, y = 3, rule = B3/S23\no$o$o!");
}

#[test]
fn simulate_passes_errors_on() {
    assert_eq!(simulate(String::from("x = 1\no!"), 3).unwrap_err(), LifeError::MalformedHeader);
}

#[test]
fn zero_counts_are_malformed() {
    let make = |data: &str| RLE { comments: vec![], x: 2, y: 3, rule: None, data: data.to_string() };
    assert_eq!(make("0o$o!").to_cell_map().unwrap_err(), LifeError::MalformedData);
    assert_eq!(make("o0$o!").to_cell_map().unwrap_err(), LifeError::MalformedData);
    assert_eq!(make("0$o!").to_cell_map().unwrap_err(), LifeError::MalformedData);
    assert_eq!(make("b0b$o!").to_cell_map().unwrap_err(), LifeError::MalformedData);
    assert_eq!(
        RLE::file_to_cell_map(String::from("x = 2, y = 2\no0$o!")).unwrap_err(),
        LifeError::MalformedData
    );
    // a count of one is still fine, and leading zeros are only digits
    let c = make("1o$01o$2b!").to_cell_map().unwrap();
    assert_eq!(c.actual_generation, vec![vec![true, false], vec![true, false], vec![false, false]]);
}
