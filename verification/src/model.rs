//! Value types for drawable content: colors, points, and shape descriptions.

use vstd::prelude::*;

verus! {

/// An RGBA color with four independent 8-bit channels.  Immutable: a color
/// is replaced wholesale, never edited channel by channel.
#[derive(Clone, Copy, Debug, PartialEq, Eq, Structural)]
pub struct Color {
    pub red: u8,
    pub green: u8,
    pub blue: u8,
    pub alpha: u8,
}

impl Color {
    pub fn new(red: u8, green: u8, blue: u8, alpha: u8) -> (r: Color)
        ensures
            r == (Color { red, green, blue, alpha }),
    {
        Color { red, green, blue, alpha }
    }
}

/// A point with two non-negative integer coordinates.
#[derive(Clone, Copy, Debug, PartialEq, Eq, Structural)]
pub struct Point {
    pub x: u32,
    pub y: u32,
}

impl Point {
    pub fn new(x: u32, y: u32) -> (r: Point)
        ensures
            r == (Point { x, y }),
    {
        Point { x, y }
    }
}

/// A drawable's content: either a straight line stroked between two points,
/// or a solid fill of the whole surface.
#[derive(Clone, Copy, Debug, PartialEq, Eq, Structural)]
pub enum ShapeDescription {
    Line { fill: Color, from: Point, to: Point },
    Fill { fill: Color },
}

/// One field-level edit of a [`ShapeDescription`].  An edit that targets a
/// field the current variant does not have leaves the description untouched,
/// so that a change payload cannot corrupt a mismatched variant.
#[derive(Clone, Copy, Debug, PartialEq, Eq, Structural)]
pub enum DescriptionEdit {
    /// Replace the fill color of a line, geometry untouched.
    SetFill(Color),
    /// Replace only the first endpoint of a line.
    SetFrom(Point),
    /// Replace only the last endpoint of a line.
    SetTo(Point),
    /// Replace a line wholesale with a new line.
    ReplaceLine { fill: Color, from: Point, to: Point },
}

/// What a single edit does to a description: rebuild the variant with the
/// edited field, or return it unchanged when the variant does not match.
pub open spec fn apply_edit(d: ShapeDescription, e: DescriptionEdit) -> ShapeDescription {
    match d {
        ShapeDescription::Line { fill, from, to } => match e {
            DescriptionEdit::SetFill(c) => ShapeDescription::Line { fill: c, from, to },
            DescriptionEdit::SetFrom(p) => ShapeDescription::Line { fill, from: p, to },
            DescriptionEdit::SetTo(p) => ShapeDescription::Line { fill, from, to: p },
            DescriptionEdit::ReplaceLine { fill: f, from: a, to: b } => ShapeDescription::Line {
                fill: f,
                from: a,
                to: b,
            },
        },
        ShapeDescription::Fill { .. } => d,
    }
}

/// A list of edits, applied first to last.
pub open spec fn apply_edits(d: ShapeDescription, es: Seq<DescriptionEdit>) -> ShapeDescription
    decreases es.len(),
{
    if es.len() == 0 {
        d
    } else {
        apply_edits(apply_edit(d, es[0]), es.drop_first())
    }
}

/// Extending an edit list by one edit applies that edit last.
pub proof fn lemma_apply_edits_snoc(d: ShapeDescription, es: Seq<DescriptionEdit>, e: DescriptionEdit)
    ensures
        apply_edits(d, es.push(e)) == apply_edit(apply_edits(d, es), e),
    decreases es.len(),
{
    if es.len() == 0 {
        assert(es.push(e)[0] == e);
        assert(es.push(e).drop_first() =~= Seq::<DescriptionEdit>::empty());
        assert(apply_edits(apply_edit(d, e), es.push(e).drop_first()) == apply_edit(d, e));
        assert(apply_edits(d, es.push(e)) == apply_edits(
            apply_edit(d, es.push(e)[0]),
            es.push(e).drop_first(),
        ));
        assert(apply_edits(d, es) == d);
    } else {
        assert(es.push(e)[0] == es[0]);
        assert(es.push(e).drop_first() =~= es.drop_first().push(e));
        lemma_apply_edits_snoc(apply_edit(d, es[0]), es.drop_first(), e);
        assert(apply_edits(d, es.push(e)) == apply_edits(
            apply_edit(d, es[0]),
            es.drop_first().push(e),
        ));
        assert(apply_edits(d, es) == apply_edits(apply_edit(d, es[0]), es.drop_first()));
    }
}

/// Law: a partial update preserves the untouched fields.  Setting one field
/// of a line rebuilds the line with exactly that field replaced; fill and
/// the other endpoint stay as they were.
pub proof fn lemma_partial_update_preserves_untouched(fill: Color, from: Point, to: Point, p: Point, c: Color)
    ensures
        apply_edit(
            ShapeDescription::Line { fill, from, to },
            DescriptionEdit::SetTo(p),
        ) == (ShapeDescription::Line { fill, from, to: p }),
        apply_edit(
            ShapeDescription::Line { fill, from, to },
            DescriptionEdit::SetFrom(p),
        ) == (ShapeDescription::Line { fill, from: p, to }),
        apply_edit(
            ShapeDescription::Line { fill, from, to },
            DescriptionEdit::SetFill(c),
        ) == (ShapeDescription::Line { fill: c, from, to }),
{
}

/// Law: the variant guard.  No edit can touch a solid fill, because every
/// edit targets fields only a line has; a mismatched edit is a no-op.
pub proof fn lemma_variant_guard(fill: Color)
    ensures
        forall|e: DescriptionEdit|
            apply_edit(ShapeDescription::Fill { fill }, e) == (ShapeDescription::Fill { fill }),
{
}

/// Apply one edit to a description, rebuilding the variant rather than
/// mutating it in place.
pub fn edit_description(d: &ShapeDescription, e: &DescriptionEdit) -> (r: ShapeDescription)
    ensures
        r == apply_edit(*d, *e),
{
    match *d {
        ShapeDescription::Line { fill, from, to } => match *e {
            DescriptionEdit::SetFill(c) => ShapeDescription::Line { fill: c, from, to },
            DescriptionEdit::SetFrom(p) => ShapeDescription::Line { fill, from: p, to },
            DescriptionEdit::SetTo(p) => ShapeDescription::Line { fill, from, to: p },
            DescriptionEdit::ReplaceLine { fill: f, from: a, to: b } => ShapeDescription::Line {
                fill: f,
                from: a,
                to: b,
            },
        },
        ShapeDescription::Fill { .. } => *d,
    }
}

/// A render capability: anything that can report whether it needs a redraw
/// and accept an acknowledgement once drawn.  A drawable embeds one by
/// composition, so its own cached renderer state can take part in dirty
/// propagation without the registry knowing its internals.
pub trait NeedToDraw: Sized {
    /// Whether this capability currently asks for a redraw.  Unless an
    /// implementation says otherwise, a capability asks for one every frame.
    open spec fn redraw_pending(&self) -> bool {
        true
    }

    fn need_drawing(&self) -> (r: bool)
        ensures
            r == self.redraw_pending(),
    ;

    fn changes_drawed(&mut self);
}

/// The simplest render capability: a single staleness flag, cleared on
/// acknowledgement.
#[derive(Clone, Copy, Debug, PartialEq, Eq, Structural)]
pub struct FlagCache {
    pub stale: bool,
}

impl FlagCache {
    /// Mark the cached state stale, so the owning drawable reports a redraw.
    pub fn mark_stale(&mut self)
        ensures
            final(self).stale,
    {
        self.stale = true;
    }
}

impl Default for FlagCache {
    fn default() -> (r: FlagCache)
        ensures
            !r.stale,
    {
        FlagCache { stale: false }
    }
}

impl NeedToDraw for FlagCache {
    open spec fn redraw_pending(&self) -> bool {
        self.stale
    }

    fn need_drawing(&self) -> (r: bool) {
        self.stale
    }

    fn changes_drawed(&mut self)
        ensures
            !final(self).stale,
    {
        self.stale = false;
    }
}

/// The content of a drawable, with the render capability abstracted away:
/// what the registry's contracts are stated over.
pub ghost struct DrawableModel {
    pub id: Seq<char>,
    pub description: ShapeDescription,
    pub changed: bool,
    pub z_order: int,
}

/// A drawable primitive: an identity, a description, a stacking key, an own
/// dirty flag, and an embedded render capability.  Two drawables with the
/// same id are the same entity; the registry keys uniqueness on the id alone.
#[derive(Debug)]
pub struct NewShape<T> {
    pub holder: T,
    pub id: String,
    pub description: ShapeDescription,
    pub changed: bool,
    pub z_order: i64,
}

impl<T> View for NewShape<T> {
    type V = DrawableModel;

    open spec fn view(&self) -> DrawableModel {
        DrawableModel {
            id: self.id@,
            description: self.description,
            changed: self.changed,
            z_order: self.z_order as int,
        }
    }
}

impl<T: NeedToDraw + Default> NewShape<T> {
    /// Construct a drawable with a fresh capability; it starts dirty, so it
    /// is painted on the next frame.
    pub fn new(id: String, description: ShapeDescription, z_order: i64) -> (r: NewShape<T>)
        ensures
            r@ == (DrawableModel {
                id: id@,
                description: description,
                changed: true,
                z_order: z_order as int,
            }),
            call_ensures(T::default, (), r.holder),
    {
        NewShape { holder: T::default(), id, description, changed: true, z_order }
    }
}

impl<T: NeedToDraw> NewShape<T> {
    /// Replace the description by the edited one; unconditionally marks the
    /// drawable dirty, even if the edit was a no-op on this variant.
    pub fn change_description(&mut self, e: &DescriptionEdit)
        ensures
            final(self).description == apply_edit(old(self).description, *e),
            final(self).changed,
            final(self).id == old(self).id,
            final(self).z_order == old(self).z_order,
            final(self).holder == old(self).holder,
    {
        self.description = edit_description(&self.description, e);
        self.changed = true;
    }

    pub fn description(&self) -> (r: &ShapeDescription)
        ensures
            *r == self.description,
    {
        &self.description
    }
}

impl<T: NeedToDraw> NeedToDraw for NewShape<T> {
    /// A drawable needs a redraw if its own flag is set or its embedded
    /// capability independently became stale.
    open spec fn redraw_pending(&self) -> bool {
        self.changed || self.holder.redraw_pending()
    }

    fn need_drawing(&self) -> (r: bool) {
        if self.changed {
            return true;
        }
        self.holder.need_drawing()
    }

    /// Clear the own flag, then forward the acknowledgement to the embedded
    /// capability; both levels are cleared together.
    fn changes_drawed(&mut self)
        ensures
            !final(self).changed,
            final(self).id == old(self).id,
            final(self).description == old(self).description,
            final(self).z_order == old(self).z_order,
    {
        self.changed = false;
        self.holder.changes_drawed();
    }
}

/// A flat shape record: an identity, a fill color, and a poly-line path.
#[derive(Debug)]
pub struct Shape {
    pub id: String,
    pub fill: Color,
    pub path: Vec<Point>,
}

impl Shape {
    pub fn new(id: String, fill: Color, path: Vec<Point>) -> (r: Shape)
        ensures
            r.id == id,
            r.fill == fill,
            r.path == path,
    {
        Shape { id, fill, path }
    }

    pub fn set_fill(&mut self, color: Color)
        ensures
            final(self).fill == color,
            final(self).id == old(self).id,
            final(self).path == old(self).path,
    {
        self.fill = color
    }

    pub fn reset_path(&mut self, new_path: Vec<Point>)
        ensures
            final(self).path == new_path,
            final(self).id == old(self).id,
            final(self).fill == old(self).fill,
    {
        self.path = new_path
    }
}

} // verus!
