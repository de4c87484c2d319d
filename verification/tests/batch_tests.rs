use drawboard::contracts::{BatchRequest, ChangeShapeDto, Color, Point, ShapeDto};
use drawboard::model::{self, FlagCache, NewShape, ShapeDescription};
use drawboard::registry::Shapes;

fn color(red: u8, green: u8, blue: u8, alpha: u8) -> Color {
    Color { red, green, blue, alpha }
}

fn point(x: u32, y: u32) -> Point {
    Point { x, y }
}

fn add_op(id: &str, fill: Color, from: Point, to: Point) -> ShapeDto {
    ShapeDto { id: id.to_owned(), fill, from, to }
}

fn change_op(
    id: &str,
    fill: Option<Color>,
    from: Option<Point>,
    to: Option<Point>,
) -> ChangeShapeDto {
    ChangeShapeDto { id: id.to_owned(), fill, from, to }
}

fn snapshot(shapes: &Shapes<FlagCache>) -> Vec<(String, ShapeDescription, bool, i64)> {
    shapes
        .iter()
        .iter()
        .map(|s| (s.id.clone(), s.description, s.changed, s.z_order))
        .collect()
}

#[test]
fn add_then_change_in_one_batch() {
    // The adds run before the changes, so a change can target an id added
    // by the same batch.
    let mut shapes: Shapes<FlagCache> = Shapes::new();
    shapes.changes_drawed();
    let batch = BatchRequest {
        add: vec![add_op("a", color(10, 20, 30, 255), point(0, 0), point(5, 5))],
        remove: vec![],
        change: vec![change_op("a", Some(color(0, 0, 0, 255)), None, None)],
    };
    batch.apply(&mut shapes);
    assert_eq!(shapes.iter().len(), 1);
    let entry = &shapes.iter()[0];
    assert_eq!(entry.id, "a");
    assert_eq!(entry.z_order, 10);
    match entry.description {
        ShapeDescription::Line { fill, from, to } => {
            assert_eq!(fill, model::Color::new(0, 0, 0, 255));
            assert_eq!(from, model::Point::new(0, 0));
            assert_eq!(to, model::Point::new(5, 5));
        }
        _ => panic!("expected a line"),
    }
    assert!(shapes.need_drawing());
}

#[test]
fn add_then_remove_in_one_batch() {
    let mut shapes: Shapes<FlagCache> = Shapes::new();
    shapes.changes_drawed();
    let batch = BatchRequest {
        add: vec![add_op("a", color(1, 1, 1, 255), point(0, 0), point(1, 1))],
        remove: vec!["a".to_owned()],
        change: vec![],
    };
    batch.apply(&mut shapes);
    assert_eq!(shapes.iter().len(), 0);
    // the add succeeded before the remove, so the registry is dirty
    assert!(shapes.need_drawing());
}

#[test]
fn unknown_ids_are_skipped_without_aborting() {
    let mut shapes: Shapes<FlagCache> = Shapes::new();
    let batch = BatchRequest {
        add: vec![add_op("a", color(1, 1, 1, 255), point(0, 0), point(1, 1))],
        remove: vec!["ghost".to_owned()],
        change: vec![
            change_op("phantom", Some(color(2, 2, 2, 255)), None, None),
            change_op("a", None, None, Some(point(7, 7))),
        ],
    };
    batch.apply(&mut shapes);
    assert_eq!(shapes.iter().len(), 1);
    match shapes.iter()[0].description {
        ShapeDescription::Line { to, .. } => assert_eq!(to, model::Point::new(7, 7)),
        _ => panic!("expected a line"),
    }
}

#[test]
fn change_only_applies_present_fields() {
    let mut shapes: Shapes<FlagCache> = Shapes::new();
    shapes.add(NewShape::new(
        "a".to_owned(),
        ShapeDescription::Line {
            fill: model::Color::new(10, 20, 30, 255),
            from: model::Point::new(0, 0),
            to: model::Point::new(5, 5),
        },
        10,
    ));
    let batch = BatchRequest {
        add: vec![],
        remove: vec![],
        change: vec![change_op("a", None, Some(point(2, 2)), None)],
    };
    batch.apply(&mut shapes);
    match shapes.iter()[0].description {
        ShapeDescription::Line { fill, from, to } => {
            assert_eq!(fill, model::Color::new(10, 20, 30, 255));
            assert_eq!(from, model::Point::new(2, 2));
            assert_eq!(to, model::Point::new(5, 5));
        }
        _ => panic!("expected a line"),
    }
}

#[test]
fn geometry_change_on_a_fill_is_a_no_op() {
    let mut shapes: Shapes<FlagCache> = Shapes::new();
    shapes.add(NewShape::new(
        "bg".to_owned(),
        ShapeDescription::Fill { fill: model::Color::new(3, 3, 3, 255) },
        0,
    ));
    let batch = BatchRequest {
        add: vec![],
        remove: vec![],
        change: vec![change_op("bg", None, Some(point(1, 1)), Some(point(2, 2)))],
    };
    batch.apply(&mut shapes);
    match shapes.iter()[0].description {
        ShapeDescription::Fill { fill } => assert_eq!(fill, model::Color::new(3, 3, 3, 255)),
        _ => panic!("the fill variant must be untouched"),
    }
}

#[test]
fn empty_batch_changes_nothing() {
    let mut shapes: Shapes<FlagCache> = Shapes::new();
    shapes.add(NewShape::new(
        "a".to_owned(),
        ShapeDescription::Fill { fill: model::Color::new(1, 1, 1, 255) },
        0,
    ));
    shapes.changes_drawed();
    let before = snapshot(&shapes);
    let batch = BatchRequest { add: vec![], remove: vec![], change: vec![] };
    batch.apply(&mut shapes);
    assert_eq!(snapshot(&shapes), before);
    assert!(!shapes.need_drawing());
}

#[test]
fn malformed_batch_leaves_the_registry_untouched() {
    // An undecodable payload is rejected before the applier runs, so the
    // registry state stays identical to its pre-call snapshot.
    let mut shapes: Shapes<FlagCache> = Shapes::new();
    shapes.add(NewShape::new(
        "a".to_owned(),
        ShapeDescription::Line {
            fill: model::Color::new(1, 2, 3, 255),
            from: model::Point::new(0, 0),
            to: model::Point::new(5, 5),
        },
        10,
    ));
    shapes.changes_drawed();
    let before = snapshot(&shapes);
    let was_dirty = shapes.need_drawing();

    let payload = r#"{"add":[{"id":"b","fill":"#;
    let decoded: Result<serde_json::Value, serde_json::Error> = serde_json::from_str(payload);
    match decoded {
        Ok(_) => panic!("the payload must not decode"),
        Err(_) => {
            // the whole batch is discarded; nothing reaches the registry
        }
    }

    assert_eq!(snapshot(&shapes), before);
    assert_eq!(shapes.need_drawing(), was_dirty);
}
