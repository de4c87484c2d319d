use drawboard::model::{
    edit_description, Color, DescriptionEdit, FlagCache, NeedToDraw, NewShape, Point, Shape,
    ShapeDescription,
};

fn sample_line() -> ShapeDescription {
    ShapeDescription::Line {
        fill: Color::new(10, 20, 30, 255),
        from: Point::new(0, 0),
        to: Point::new(5, 5),
    }
}

#[test]
fn fresh_drawable_needs_redraw() {
    let shape: NewShape<FlagCache> = NewShape::new("a".to_owned(), sample_line(), 0);
    assert!(shape.need_drawing());
}

#[test]
fn acknowledgement_clears_both_levels() {
    let mut shape: NewShape<FlagCache> = NewShape::new("a".to_owned(), sample_line(), 0);
    shape.changes_drawed();
    assert!(!shape.need_drawing());
}

#[test]
fn stale_cache_keeps_drawable_dirty() {
    // The embedded capability can ask for a redraw even when the drawable's
    // own content never changed.
    let mut shape: NewShape<FlagCache> = NewShape::new("a".to_owned(), sample_line(), 0);
    shape.changes_drawed();
    shape.holder.mark_stale();
    assert!(shape.need_drawing());
    shape.changes_drawed();
    assert!(!shape.need_drawing());
}

#[test]
fn change_description_marks_dirty_even_for_a_no_op() {
    let mut shape: NewShape<FlagCache> = NewShape::new(
        "a".to_owned(),
        ShapeDescription::Fill { fill: Color::new(1, 1, 1, 1) },
        0,
    );
    shape.changes_drawed();
    // setting an endpoint on a solid fill edits nothing, but still invalidates
    shape.change_description(&DescriptionEdit::SetTo(Point::new(9, 9)));
    assert!(shape.need_drawing());
    match shape.description {
        ShapeDescription::Fill { fill } => assert_eq!(fill, Color::new(1, 1, 1, 1)),
        _ => panic!("the fill variant must be untouched"),
    }
}

#[test]
fn partial_update_preserves_untouched_fields() {
    let mut shape: NewShape<FlagCache> = NewShape::new("a".to_owned(), sample_line(), 0);
    shape.change_description(&DescriptionEdit::SetTo(Point::new(9, 9)));
    match shape.description {
        ShapeDescription::Line { fill, from, to } => {
            assert_eq!(fill, Color::new(10, 20, 30, 255));
            assert_eq!(from, Point::new(0, 0));
            assert_eq!(to, Point::new(9, 9));
        }
        _ => panic!("expected a line"),
    }
}

#[test]
fn edits_rebuild_the_matching_variant_only() {
    let on_line = edit_description(&sample_line(), &DescriptionEdit::SetFrom(Point::new(2, 3)));
    assert_eq!(
        on_line,
        ShapeDescription::Line {
            fill: Color::new(10, 20, 30, 255),
            from: Point::new(2, 3),
            to: Point::new(5, 5),
        }
    );
    let fill_only = ShapeDescription::Fill { fill: Color::new(4, 4, 4, 4) };
    let on_fill = edit_description(&fill_only, &DescriptionEdit::SetFrom(Point::new(2, 3)));
    assert_eq!(on_fill, fill_only);
}

#[test]
fn flat_shape_setters() {
    let mut shape = Shape::new(
        "s".to_owned(),
        Color::new(1, 2, 3, 4),
        vec![Point::new(0, 0), Point::new(5, 5)],
    );
    shape.set_fill(Color::new(9, 8, 7, 6));
    assert_eq!(shape.fill, Color::new(9, 8, 7, 6));
    shape.reset_path(vec![Point::new(1, 1)]);
    assert_eq!(shape.path, vec![Point::new(1, 1)]);
    assert_eq!(shape.id, "s");
}
