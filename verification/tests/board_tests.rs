use drawboard::board::Board;
use drawboard::contracts::{BatchRequest, ChangeShapeDto, Color as ColorDto, Point as PointDto, ShapeDto};
use drawboard::model::{Color, FlagCache, Point, ShapeDescription};
use drawboard::text::{decimal_string, str_lt};

#[test]
fn a_fresh_board_owes_an_empty_first_frame() {
    let mut board: Board<FlagCache> = Board::new();
    assert!(board.need_drawing());
    let commands = board.frame().expect("a first frame is due");
    assert_eq!(commands, vec![]);
    assert!(!board.need_drawing());
    assert!(board.frame().is_none());
}

#[test]
fn put_line_hands_out_the_count_as_id() {
    let mut board: Board<FlagCache> = Board::new();
    let id = board.put_line(10, 20, 30, 0, 0, 5, 5);
    assert_eq!(id, "0");
    let second = board.put_line(1, 1, 1, 2, 2, 3, 3);
    assert_eq!(second, "1");
}

#[test]
fn frame_paints_in_stacking_then_id_order() {
    let mut board: Board<FlagCache> = Board::new();
    board.frame();
    // a batch add lands at stacking key 10, a direct line at 0
    board.batch(&BatchRequest {
        add: vec![ShapeDto {
            id: "a".to_owned(),
            fill: ColorDto { red: 7, green: 7, blue: 7, alpha: 255 },
            from: PointDto { x: 1, y: 1 },
            to: PointDto { x: 2, y: 2 },
        }],
        remove: vec![],
        change: vec![],
    });
    board.put_line(10, 20, 30, 0, 0, 5, 5);
    let commands = board.frame().expect("the new drawables make a frame due");
    assert_eq!(commands.len(), 2);
    assert_eq!(
        commands[0],
        ShapeDescription::Line {
            fill: Color::new(10, 20, 30, 255),
            from: Point::new(0, 0),
            to: Point::new(5, 5),
        }
    );
    assert_eq!(
        commands[1],
        ShapeDescription::Line {
            fill: Color::new(7, 7, 7, 255),
            from: Point::new(1, 1),
            to: Point::new(2, 2),
        }
    );
}

#[test]
fn equal_stacking_keys_paint_in_id_order() {
    let mut board: Board<FlagCache> = Board::new();
    let first = board.put_line(1, 1, 1, 0, 0, 1, 1);
    let second = board.put_line(2, 2, 2, 0, 0, 2, 2);
    assert_eq!((first.as_str(), second.as_str()), ("0", "1"));
    let commands = board.frame().expect("two new lines make a frame due");
    assert_eq!(commands.len(), 2);
    assert_eq!(
        commands[0],
        ShapeDescription::Line {
            fill: Color::new(1, 1, 1, 255),
            from: Point::new(0, 0),
            to: Point::new(1, 1),
        }
    );
    assert_eq!(
        commands[1],
        ShapeDescription::Line {
            fill: Color::new(2, 2, 2, 255),
            from: Point::new(0, 0),
            to: Point::new(2, 2),
        }
    );
}

#[test]
fn change_line_replaces_the_line_wholesale() {
    let mut board: Board<FlagCache> = Board::new();
    let id = board.put_line(10, 20, 30, 0, 0, 5, 5);
    board.frame();
    board.change_line(id, 9, 9, 9, 1, 1, 2, 2);
    assert!(board.need_drawing());
    let commands = board.frame().expect("the change makes a frame due");
    assert_eq!(
        commands,
        vec![ShapeDescription::Line {
            fill: Color::new(9, 9, 9, 255),
            from: Point::new(1, 1),
            to: Point::new(2, 2),
        }]
    );
}

#[test]
fn change_line_with_missing_id_changes_nothing() {
    let mut board: Board<FlagCache> = Board::new();
    board.frame();
    board.change_line("ghost".to_owned(), 9, 9, 9, 1, 1, 2, 2);
    assert!(!board.need_drawing());
    assert!(board.frame().is_none());
}

#[test]
fn batches_reach_the_board_registry() {
    let mut board: Board<FlagCache> = Board::new();
    board.frame();
    let batch = BatchRequest {
        add: vec![ShapeDto {
            id: "a".to_owned(),
            fill: ColorDto { red: 1, green: 2, blue: 3, alpha: 255 },
            from: PointDto { x: 0, y: 0 },
            to: PointDto { x: 4, y: 4 },
        }],
        remove: vec![],
        change: vec![ChangeShapeDto {
            id: "a".to_owned(),
            fill: None,
            from: None,
            to: Some(PointDto { x: 9, y: 9 }),
        }],
    };
    board.batch(&batch);
    assert!(board.need_drawing());
    let commands = board.frame().expect("the batch makes a frame due");
    assert_eq!(
        commands,
        vec![ShapeDescription::Line {
            fill: Color::new(1, 2, 3, 255),
            from: Point::new(0, 0),
            to: Point::new(9, 9),
        }]
    );
}

#[test]
fn decimal_rendering_matches_the_usual_notation() {
    assert_eq!(decimal_string(0), "0");
    assert_eq!(decimal_string(7), "7");
    assert_eq!(decimal_string(10), "10");
    assert_eq!(decimal_string(255), "255");
    assert_eq!(decimal_string(10050), "10050");
}

#[test]
fn string_order_is_lexicographic_by_code_point() {
    assert!(str_lt("a", "b"));
    assert!(!str_lt("b", "a"));
    assert!(str_lt("a", "ab"));
    assert!(!str_lt("ab", "a"));
    assert!(!str_lt("same", "same"));
    assert!(str_lt("", "a"));
    assert!(str_lt("Z", "a"));
}
