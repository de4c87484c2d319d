//! The drawing board's registry side: the direct line API and the frame
//! gate.
//!
//! The host owns the raster buffer and the frame pacing; this board owns
//! everything the host asks of the registry: id hand-out for direct puts,
//! line edits, batch replay, and the decision whether a frame needs
//! painting at all.

use vstd::prelude::*;

use crate::contracts::{apply_batch, BatchRequest};
use crate::model::{
    Color, DescriptionEdit, DrawableModel, NeedToDraw, NewShape, Point, ShapeDescription,
};
use crate::registry::{
    has_id, sorted, spec_add, spec_change, unique_ids, Shapes,
};
use crate::text::decimal_chars;

verus! {

/// The stacking key of a line put through the direct API.
pub const LINE_Z_ORDER: i64 = 0;

/// The registry half of a drawing board.  The raster buffer and the calls
/// that paint into it stay with the host; the board decides what is drawn,
/// in which order, and when.
pub struct Board<T> {
    shapes: Shapes<T>,
}

impl<T> View for Board<T> {
    type V = Seq<DrawableModel>;

    closed spec fn view(&self) -> Seq<DrawableModel> {
        self.shapes@
    }
}

impl<T> Board<T> {
    /// The aggregate "a frame is due" flag.
    pub closed spec fn dirty(&self) -> bool {
        self.shapes.dirty()
    }

    /// The board's invariant: drawables strictly ordered, ids unique.
    pub open spec fn wf(&self) -> bool {
        sorted(self@) && unique_ids(self@)
    }
}

impl<T: NeedToDraw + Default> Board<T> {
    /// A fresh board: an empty registry, with the first frame owed.  The
    /// host seeds whatever it wants drawn, through `put_line` or a batch.
    pub fn new() -> (r: Board<T>)
        ensures
            r.wf(),
            r.dirty(),
            r@ == Seq::<DrawableModel>::empty(),
    {
        Board { shapes: Shapes::new() }
    }

    /// Replay one decoded batch against the registry.
    pub fn batch(&mut self, req: &BatchRequest)
        requires
            old(self).wf(),
        ensures
            final(self).wf(),
            final(self)@ == apply_batch((old(self)@, old(self).dirty()), *req).0,
            final(self).dirty() == apply_batch((old(self)@, old(self).dirty()), *req).1,
    {
        req.apply(&mut self.shapes);
    }

    /// Put a new line on the board under a freshly generated id, and hand
    /// the id back.
    pub fn put_line(
        &mut self,
        red: u8,
        green: u8,
        blue: u8,
        start_x: u32,
        start_y: u32,
        end_x: u32,
        end_y: u32,
    ) -> (id: String)
        requires
            old(self).wf(),
        ensures
            final(self).wf(),
            id@ == decimal_chars(old(self)@.len() as nat),
            final(self)@ == spec_add(
                old(self)@,
                (DrawableModel {
                    id: id@,
                    description: ShapeDescription::Line {
                        fill: Color { red, green, blue, alpha: 255 },
                        from: Point { x: start_x, y: start_y },
                        to: Point { x: end_x, y: end_y },
                    },
                    changed: true,
                    z_order: LINE_Z_ORDER as int,
                }),
            ),
            final(self).dirty(),
    {
        let id = self.shapes.generate_id();
        let result = id.clone();
        self.shapes.add(
            NewShape::new(
                id,
                ShapeDescription::Line {
                    fill: Color::new(red, green, blue, 255),
                    from: Point::new(start_x, start_y),
                    to: Point::new(end_x, end_y),
                },
                LINE_Z_ORDER,
            ),
        );
        result
    }

    /// Replace the line with the given id wholesale; a drawable of another
    /// variant, or a missing id, is left untouched.
    pub fn change_line(
        &mut self,
        id: String,
        red: u8,
        green: u8,
        blue: u8,
        start_x: u32,
        start_y: u32,
        end_x: u32,
        end_y: u32,
    )
        requires
            old(self).wf(),
        ensures
            final(self).wf(),
            final(self)@ == spec_change(
                old(self)@,
                id@,
                seq![
                    DescriptionEdit::ReplaceLine {
                        fill: Color { red, green, blue, alpha: 255 },
                        from: Point { x: start_x, y: start_y },
                        to: Point { x: end_x, y: end_y },
                    },
                ],
            ),
            has_id(old(self)@, id@) ==> final(self).dirty(),
            !has_id(old(self)@, id@) ==> *final(self) == *old(self),
    {
        let mut edits: Vec<DescriptionEdit> = Vec::new();
        edits.push(
            DescriptionEdit::ReplaceLine {
                fill: Color::new(red, green, blue, 255),
                from: Point::new(start_x, start_y),
                to: Point::new(end_x, end_y),
            },
        );
        proof {
            assert(edits@ =~= seq![
                DescriptionEdit::ReplaceLine {
                    fill: Color { red, green, blue, alpha: 255 },
                    from: Point { x: start_x, y: start_y },
                    to: Point { x: end_x, y: end_y },
                },
            ]);
        }
        self.shapes.change(&id, &edits);
    }

    /// The frame gate: if anything changed since the last acknowledged
    /// frame, hand out the descriptions to paint, in paint order,
    /// acknowledge every drawable of the pass (each own flag cleared and
    /// forwarded to its capability), and acknowledge the frame itself
    /// exactly once; otherwise report that no pass is due.
    pub fn frame(&mut self) -> (r: Option<Vec<ShapeDescription>>)
        requires
            old(self).wf(),
        ensures
            final(self).wf(),
            !final(self).dirty(),
            old(self).dirty() ==> (r matches Some(cmds) && cmds@ == old(self)@.map_values(
                |m: DrawableModel| m.description,
            )),
            old(self).dirty() ==> final(self)@ == old(self)@.map_values(
                |m: DrawableModel| (DrawableModel { changed: false, ..m }),
            ),
            !old(self).dirty() ==> r is None && *final(self) == *old(self),
    {
        if !self.shapes.need_drawing() {
            return None;
        }
        let mut cmds: Vec<ShapeDescription> = Vec::new();
        let drawables = self.shapes.iter();
        let mut i: usize = 0;
        while i < drawables.len()
            invariant
                i <= drawables@.len(),
                drawables@.len() == self@.len(),
                forall|k: int| 0 <= k < drawables@.len() ==> (#[trigger] drawables@[k])@
                    == self@[k],
                cmds@ == self@.map_values(|m: DrawableModel| m.description).take(i as int),
            decreases drawables@.len() - i,
        {
            proof {
                assert(self@.map_values(|m: DrawableModel| m.description).take(i + 1)
                    =~= self@.map_values(|m: DrawableModel| m.description).take(i as int).push(
                    self@[i as int].description,
                ));
            }
            cmds.push(drawables[i].description);
            i = i + 1;
        }
        proof {
            assert(self@.map_values(|m: DrawableModel| m.description).take(self@.len() as int)
                =~= self@.map_values(|m: DrawableModel| m.description));
        }
        self.shapes.drawables_drawed();
        self.shapes.changes_drawed();
        Some(cmds)
    }

    /// Whether a frame is due.
    pub fn need_drawing(&self) -> (r: bool)
        ensures
            r == self.dirty(),
    {
        self.shapes.need_drawing()
    }
}

} // verus!
