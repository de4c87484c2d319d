use drawboard::model::{Color, DescriptionEdit, FlagCache, NewShape, Point, ShapeDescription};
use drawboard::registry::Shapes;

fn line(fill: Color, from: Point, to: Point) -> ShapeDescription {
    ShapeDescription::Line { fill, from, to }
}

fn drawable(id: &str, description: ShapeDescription, z_order: i64) -> NewShape<FlagCache> {
    NewShape::new(id.to_owned(), description, z_order)
}

fn ids(shapes: &Shapes<FlagCache>) -> Vec<String> {
    shapes.iter().iter().map(|s| s.id.clone()).collect()
}

fn plain_line() -> ShapeDescription {
    line(Color::new(1, 2, 3, 4), Point::new(0, 0), Point::new(5, 5))
}

#[test]
fn adds_keep_entries_sorted() {
    let mut shapes: Shapes<FlagCache> = Shapes::new();
    shapes.add(drawable("b", plain_line(), 2));
    assert_eq!(ids(&shapes), vec!["b"]);
    shapes.add(drawable("a", plain_line(), 2));
    assert_eq!(ids(&shapes), vec!["a", "b"]);
    shapes.add(drawable("c", plain_line(), 1));
    assert_eq!(ids(&shapes), vec!["c", "a", "b"]);
    shapes.add(drawable("d", plain_line(), 3));
    assert_eq!(ids(&shapes), vec!["c", "a", "b", "d"]);
}

#[test]
fn id_tie_break_is_lexicographic() {
    // A proper prefix sorts before every extension of it.
    let mut shapes: Shapes<FlagCache> = Shapes::new();
    shapes.add(drawable("b", plain_line(), 0));
    shapes.add(drawable("ab", plain_line(), 0));
    shapes.add(drawable("a", plain_line(), 0));
    assert_eq!(ids(&shapes), vec!["a", "ab", "b"]);
}

#[test]
fn add_overwrites_same_id() {
    let mut shapes: Shapes<FlagCache> = Shapes::new();
    shapes.add(drawable("a", plain_line(), 1));
    shapes.add(drawable(
        "a",
        ShapeDescription::Fill { fill: Color::new(9, 9, 9, 9) },
        1,
    ));
    assert_eq!(shapes.iter().len(), 1);
    match shapes.iter()[0].description {
        ShapeDescription::Fill { fill } => assert_eq!(fill, Color::new(9, 9, 9, 9)),
        _ => panic!("expected the overwritten description"),
    }
}

#[test]
fn dirty_lifecycle() {
    let mut shapes: Shapes<FlagCache> = Shapes::new();
    // a fresh registry owes its first frame
    assert!(shapes.need_drawing());
    shapes.changes_drawed();
    assert!(!shapes.need_drawing());
    shapes.add(drawable("a", plain_line(), 0));
    assert!(shapes.need_drawing());
    shapes.changes_drawed();
    assert!(!shapes.need_drawing());
    let edits = vec![DescriptionEdit::SetFill(Color::new(7, 7, 7, 255))];
    shapes.change(&"a".to_owned(), &edits);
    assert!(shapes.need_drawing());
    shapes.changes_drawed();
    assert!(!shapes.need_drawing());
}

#[test]
fn change_with_missing_id_is_a_no_op() {
    let mut shapes: Shapes<FlagCache> = Shapes::new();
    shapes.add(drawable("a", plain_line(), 0));
    shapes.changes_drawed();
    let edits = vec![DescriptionEdit::SetFill(Color::new(7, 7, 7, 255))];
    shapes.change(&"nonexistent".to_owned(), &edits);
    // content, order and the dirty flag are all untouched
    assert!(!shapes.need_drawing());
    assert_eq!(ids(&shapes), vec!["a"]);
    match shapes.iter()[0].description {
        ShapeDescription::Line { fill, from, to } => {
            assert_eq!(fill, Color::new(1, 2, 3, 4));
            assert_eq!(from, Point::new(0, 0));
            assert_eq!(to, Point::new(5, 5));
        }
        _ => panic!("expected the untouched line"),
    }
}

#[test]
fn render_acknowledgement_reaches_each_drawable() {
    let mut shapes: Shapes<FlagCache> = Shapes::new();
    let mut entry = drawable("a", plain_line(), 0);
    entry.holder.stale = true;
    shapes.add(entry);
    assert!(shapes.iter()[0].changed);
    assert!(shapes.iter()[0].holder.stale);
    shapes.drawables_drawed();
    // both levels are cleared: the own flag and, forwarded, the capability
    assert!(!shapes.iter()[0].changed);
    assert!(!shapes.iter()[0].holder.stale);
    // the aggregate flag is a separate acknowledgement
    assert!(shapes.need_drawing());
    shapes.changes_drawed();
    assert!(!shapes.need_drawing());
}

#[test]
fn remove_actually_removes() {
    let mut shapes: Shapes<FlagCache> = Shapes::new();
    assert_eq!(shapes.generate_id(), "0");
    shapes.add(drawable("x", plain_line(), 0));
    assert_eq!(shapes.generate_id(), "1");
    shapes.remove(&"x".to_owned());
    assert!(ids(&shapes).iter().all(|id| id != "x"));
    assert_eq!(shapes.generate_id(), "0");
}

#[test]
fn remove_with_missing_id_is_a_no_op() {
    let mut shapes: Shapes<FlagCache> = Shapes::new();
    shapes.add(drawable("a", plain_line(), 0));
    shapes.remove(&"missing".to_owned());
    assert_eq!(ids(&shapes), vec!["a"]);
}

#[test]
fn generated_ids_follow_the_count() {
    let mut shapes: Shapes<FlagCache> = Shapes::new();
    for i in 0..10 {
        assert_eq!(shapes.generate_id(), i.to_string());
        let id = shapes.generate_id();
        shapes.add(drawable(&id, plain_line(), 0));
    }
    assert_eq!(shapes.generate_id(), "10");
}
