//! Typed batch-operation records and their application to a registry.
//!
//! A batch arrives already decoded into three ordered lists: adds, removes,
//! changes.  They are applied in exactly that order, without atomicity: a
//! record that names an unknown id is skipped and never aborts or rolls
//! back the rest of the batch.

use vstd::prelude::*;

use crate::model;
use crate::model::{DescriptionEdit, DrawableModel, NeedToDraw, NewShape, Shape, ShapeDescription};
use crate::registry::{drop_id, has_id, spec_add, spec_change, Shapes};

verus! {

/// The stacking key given to every drawable added through a batch.
pub const BATCH_Z_ORDER: i64 = 10;

/// A color record as it appears on the wire.
#[derive(Clone, Copy, Debug, PartialEq, Eq, Structural)]
pub struct Color {
    pub red: u8,
    pub green: u8,
    pub blue: u8,
    pub alpha: u8,
}

/// The value type a wire color stands for.
pub open spec fn color_model(c: Color) -> model::Color {
    model::Color { red: c.red, green: c.green, blue: c.blue, alpha: c.alpha }
}

impl Color {
    pub fn to_model(&self) -> (r: model::Color)
        ensures
            r == color_model(*self),
    {
        model::Color::new(self.red, self.green, self.blue, self.alpha)
    }
}

/// A point record as it appears on the wire.
#[derive(Clone, Copy, Debug, PartialEq, Eq, Structural)]
pub struct Point {
    pub x: u32,
    pub y: u32,
}

/// The value type a wire point stands for.
pub open spec fn point_model(p: Point) -> model::Point {
    model::Point { x: p.x, y: p.y }
}

impl Point {
    pub fn to_model(&self) -> (r: model::Point)
        ensures
            r == point_model(*self),
    {
        model::Point::new(self.x, self.y)
    }
}

/// An add record: a new line drawable with both endpoints and a fill.
#[derive(Debug)]
pub struct ShapeDto {
    pub id: String,
    pub fill: Color,
    pub from: Point,
    pub to: Point,
}

/// The drawable a batch add stands for: a line, dirty on arrival, at the
/// batch stacking key.
pub open spec fn dto_model(d: ShapeDto) -> DrawableModel {
    DrawableModel {
        id: d.id@,
        description: ShapeDescription::Line {
            fill: color_model(d.fill),
            from: point_model(d.from),
            to: point_model(d.to),
        },
        changed: true,
        z_order: BATCH_Z_ORDER as int,
    }
}

impl ShapeDto {
    /// The record as a flat shape: the two endpoints become a two-point path.
    pub fn to_shape(&self) -> (r: Shape)
        ensures
            r.id@ == self.id@,
            r.fill == color_model(self.fill),
            r.path@ == seq![point_model(self.from), point_model(self.to)],
    {
        let mut path: Vec<model::Point> = Vec::new();
        path.push(self.from.to_model());
        path.push(self.to.to_model());
        proof {
            assert(path@ =~= seq![point_model(self.from), point_model(self.to)]);
        }
        Shape::new(self.id.clone(), self.fill.to_model(), path)
    }

    /// The record as a drawable, ready for the registry.
    pub fn to_drawable<T: NeedToDraw + Default>(&self) -> (r: NewShape<T>)
        ensures
            r@ == dto_model(*self),
    {
        NewShape::new(
            self.id.clone(),
            ShapeDescription::Line {
                fill: self.fill.to_model(),
                from: self.from.to_model(),
                to: self.to.to_model(),
            },
            BATCH_Z_ORDER,
        )
    }
}

/// A change record: a target id plus independently optional fields; only
/// the fields present are applied.
#[derive(Debug)]
pub struct ChangeShapeDto {
    pub id: String,
    pub fill: Option<Color>,
    pub from: Option<Point>,
    pub to: Option<Point>,
}

/// The edits a change record stands for, in the order they are applied:
/// fill, then the first endpoint, then the last.
pub open spec fn change_edits(c: ChangeShapeDto) -> Seq<DescriptionEdit> {
    (if c.fill is Some {
        seq![DescriptionEdit::SetFill(color_model(c.fill->0))]
    } else {
        Seq::empty()
    }) + (if c.from is Some {
        seq![DescriptionEdit::SetFrom(point_model(c.from->0))]
    } else {
        Seq::empty()
    }) + (if c.to is Some {
        seq![DescriptionEdit::SetTo(point_model(c.to->0))]
    } else {
        Seq::empty()
    })
}

impl ChangeShapeDto {
    /// Collect the edits this record asks for.
    pub fn edits(&self) -> (r: Vec<DescriptionEdit>)
        ensures
            r@ == change_edits(*self),
    {
        let mut r: Vec<DescriptionEdit> = Vec::new();
        match &self.fill {
            Some(c) => r.push(DescriptionEdit::SetFill(c.to_model())),
            None => {},
        }
        match &self.from {
            Some(p) => r.push(DescriptionEdit::SetFrom(p.to_model())),
            None => {},
        }
        match &self.to {
            Some(p) => r.push(DescriptionEdit::SetTo(p.to_model())),
            None => {},
        }
        proof {
            assert(r@ =~= change_edits(*self));
        }
        r
    }
}

/// One decoded batch: adds, then removes, then changes, each in list order.
#[derive(Debug)]
pub struct BatchRequest {
    pub add: Vec<ShapeDto>,
    pub remove: Vec<String>,
    pub change: Vec<ChangeShapeDto>,
}

/// Registry contents and aggregate dirty flag after the adds: every add
/// lands and marks the registry dirty.
pub open spec fn apply_adds(
    st: (Seq<DrawableModel>, bool),
    adds: Seq<ShapeDto>,
) -> (Seq<DrawableModel>, bool)
    decreases adds.len(),
{
    if adds.len() == 0 {
        st
    } else {
        let prev = apply_adds(st, adds.drop_last());
        (spec_add(prev.0, dto_model(adds.last())), true)
    }
}

/// Registry contents and dirty flag after the removes: a remove deletes its
/// target if present and never touches the dirty flag.
pub open spec fn apply_removes(
    st: (Seq<DrawableModel>, bool),
    ids: Seq<String>,
) -> (Seq<DrawableModel>, bool)
    decreases ids.len(),
{
    if ids.len() == 0 {
        st
    } else {
        let prev = apply_removes(st, ids.drop_last());
        (drop_id(prev.0, ids.last()@), prev.1)
    }
}

/// Registry contents and dirty flag after the changes: a change that finds
/// its target applies its edits and marks the registry dirty; a missing id
/// leaves both untouched.
pub open spec fn apply_changes(
    st: (Seq<DrawableModel>, bool),
    cs: Seq<ChangeShapeDto>,
) -> (Seq<DrawableModel>, bool)
    decreases cs.len(),
{
    if cs.len() == 0 {
        st
    } else {
        let prev = apply_changes(st, cs.drop_last());
        (
            spec_change(prev.0, cs.last().id@, change_edits(cs.last())),
            prev.1 || has_id(prev.0, cs.last().id@),
        )
    }
}

/// Registry contents and dirty flag after a whole batch.
pub open spec fn apply_batch(
    st: (Seq<DrawableModel>, bool),
    b: BatchRequest,
) -> (Seq<DrawableModel>, bool) {
    apply_changes(apply_removes(apply_adds(st, b.add@), b.remove@), b.change@)
}

impl BatchRequest {
    /// Replay the batch against a registry: all adds in list order, then
    /// all removes, then all changes.  A remove or change that names an
    /// unknown id is skipped; nothing aborts or rolls back earlier records.
    pub fn apply<T: NeedToDraw + Default>(&self, shapes: &mut Shapes<T>)
        requires
            old(shapes).wf(),
        ensures
            final(shapes).wf(),
            final(shapes)@ == apply_batch((old(shapes)@, old(shapes).dirty()), *self).0,
            final(shapes).dirty() == apply_batch((old(shapes)@, old(shapes).dirty()), *self).1,
    {
        let ghost st0 = (old(shapes)@, old(shapes).dirty());
        let mut i: usize = 0;
        while i < self.add.len()
            invariant
                old(shapes).wf(),
                shapes.wf(),
                i <= self.add@.len(),
                shapes@ == apply_adds(st0, self.add@.take(i as int)).0,
                shapes.dirty() == apply_adds(st0, self.add@.take(i as int)).1,
                st0 == (old(shapes)@, old(shapes).dirty()),
            decreases self.add@.len() - i,
        {
            proof {
                assert(self.add@.take(i + 1).drop_last() =~= self.add@.take(i as int));
                assert(self.add@.take(i + 1).last() == self.add@[i as int]);
            }
            shapes.add(self.add[i].to_drawable());
            i = i + 1;
        }
        proof {
            assert(self.add@.take(self.add@.len() as int) =~= self.add@);
        }
        let ghost st1 = apply_adds(st0, self.add@);
        let mut i: usize = 0;
        while i < self.remove.len()
            invariant
                shapes.wf(),
                i <= self.remove@.len(),
                shapes@ == apply_removes(st1, self.remove@.take(i as int)).0,
                shapes.dirty() == apply_removes(st1, self.remove@.take(i as int)).1,
            decreases self.remove@.len() - i,
        {
            proof {
                assert(self.remove@.take(i + 1).drop_last() =~= self.remove@.take(i as int));
                assert(self.remove@.take(i + 1).last() == self.remove@[i as int]);
            }
            shapes.remove(&self.remove[i]);
            i = i + 1;
        }
        proof {
            assert(self.remove@.take(self.remove@.len() as int) =~= self.remove@);
        }
        let ghost st2 = apply_removes(st1, self.remove@);
        let mut i: usize = 0;
        while i < self.change.len()
            invariant
                shapes.wf(),
                i <= self.change@.len(),
                shapes@ == apply_changes(st2, self.change@.take(i as int)).0,
                shapes.dirty() == apply_changes(st2, self.change@.take(i as int)).1,
            decreases self.change@.len() - i,
        {
            proof {
                assert(self.change@.take(i + 1).drop_last() =~= self.change@.take(i as int));
                assert(self.change@.take(i + 1).last() == self.change@[i as int]);
            }
            let edits = self.change[i].edits();
            shapes.change(&self.change[i].id, &edits);
            i = i + 1;
        }
        proof {
            assert(self.change@.take(self.change@.len() as int) =~= self.change@);
        }
    }
}

} // verus!
