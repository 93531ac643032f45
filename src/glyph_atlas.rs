//! The glyph cache: each glyph, keyed by character and font, is placed once
//! in a square texture and kept for the atlas's lifetime.
use vstd::prelude::*;

use crate::error::GlyphAtlasError;
use crate::font::Font;
use crate::packing::{PackingNode, Rect, RectSize};

verus! {

/// Width and height of the atlas texture, in pixels.
pub const TEXTURE_SIZE: u32 = 256;

/// A font's handle: its position in the atlas's font table.
pub type FontIndex = usize;

/// One cached glyph: a character in a registered font.
#[derive(PartialEq, Eq, Structural, Clone, Copy, Debug, Hash)]
pub struct GlyphSpec(pub char, pub FontIndex);

/// A glyph's ink bounds around the pen position, in whole pixels, and its
/// advance width.
#[derive(PartialEq, Eq, Structural, Clone, Copy, Debug)]
pub struct GlyphShape {
    pub left: u32,
    pub right: u32,
    pub ascent: u32,
    pub descent: u32,
    /// How far the pen moves after this glyph, as the bit pattern of an
    /// `f32`. The atlas stores it and never computes with it.
    pub occupied_width: u32,
}

impl GlyphShape {
    /// Ink width and height are both representable as `u32`.
    pub open spec fn fits_u32(self) -> bool {
        self.left + self.right <= u32::MAX && self.ascent + self.descent <= u32::MAX
    }

    pub open spec fn spec_size(self) -> RectSize {
        RectSize {
            width: (self.left + self.right) as u32,
            height: (self.ascent + self.descent) as u32,
        }
    }

    /// Ink area, the order in which a batch is placed.
    pub open spec fn ink_area(self) -> int {
        (self.left + self.right) * (self.ascent + self.descent)
    }

    pub fn glyph_width(&self) -> (r: u32)
        requires
            self.left + self.right <= u32::MAX,
        ensures
            r == self.left + self.right,
    {
        self.left + self.right
    }

    pub fn height(&self) -> (r: u32)
        requires
            self.ascent + self.descent <= u32::MAX,
        ensures
            r == self.ascent + self.descent,
    {
        self.ascent + self.descent
    }

    pub fn size(&self) -> (r: RectSize)
        requires
            self.fits_u32(),
        ensures
            r == self.spec_size(),
    {
        RectSize { width: self.glyph_width(), height: self.height() }
    }
}

/// Where a glyph sits in the texture, and its shape.
#[derive(Clone, Copy, Debug)]
pub struct AtlasEntry {
    pub upper_left: [u32; 2],
    pub glyph_shape: GlyphShape,
}

impl AtlasEntry {
    pub open spec fn shape(self) -> GlyphShape {
        self.glyph_shape
    }

    pub open spec fn x(self) -> u32 {
        self.upper_left@[0]
    }

    pub open spec fn y(self) -> u32 {
        self.upper_left@[1]
    }

    /// The texture rectangle the glyph was painted into.
    pub open spec fn rect(self) -> Rect {
        Rect { x: self.x(), y: self.y(), size: self.glyph_shape.spec_size() }
    }

    /// The upper-left and lower-right pixel corners of the glyph's texture
    /// rectangle.
    pub fn pixel_bounds(&self) -> (r: ([u32; 2], [u32; 2]))
        requires
            self.shape().fits_u32(),
            self.rect().right() <= TEXTURE_SIZE,
            self.rect().bottom() <= TEXTURE_SIZE,
        ensures
            r.0@ == seq![self.x(), self.y()],
            r.1@ == seq![
                (self.x() + self.shape().left + self.shape().right) as u32,
                (self.y() + self.shape().ascent + self.shape().descent) as u32,
            ],
    {
        let x = self.upper_left[0];
        let y = self.upper_left[1];
        let lower_right = [x + self.glyph_shape.glyph_width(), y + self.glyph_shape.height()];
        ([x, y], lower_right)
    }
}

/// A glyph placed by an update, for the caller to paint.
#[derive(PartialEq, Eq, Structural, Clone, Copy, Debug)]
pub struct PlacedGlyph {
    pub glyph: GlyphSpec,
    pub x: u32,
    pub y: u32,
    pub glyph_shape: GlyphShape,
}

impl PlacedGlyph {
    /// The texture rectangle the glyph is to be painted into.
    pub open spec fn rect(self) -> Rect {
        Rect { x: self.x, y: self.y, size: self.glyph_shape.spec_size() }
    }
}

/// The outcome of placing a batch: the glyphs placed, in order, and either
/// whether any was placed or the error that stopped the batch. Glyphs placed
/// before an error stay cached.
pub struct PreparedBatch {
    pub placed: Vec<PlacedGlyph>,
    pub status: Result<bool, GlyphAtlasError>,
}

pub struct GlyphAtlas {
    packing: PackingNode,
    fonts: Vec<Font>,
    characters: Vec<(GlyphSpec, AtlasEntry)>,
    entries: Ghost<Map<GlyphSpec, AtlasEntry>>,
}

/// The texture's rectangle.
pub open spec fn canvas() -> Rect {
    Rect { x: 0, y: 0, size: RectSize { height: TEXTURE_SIZE, width: TEXTURE_SIZE } }
}

/// Glyph `k` is asked for by `strings`: one of them holds its character in
/// the font that `table` gives handle `k.1`.
pub open spec fn requested(
    table: Seq<(Seq<char>, u8)>,
    strings: Seq<(Vec<char>, Font)>,
    k: GlyphSpec,
) -> bool {
    exists|i: int, j: int|
        0 <= i < strings.len() && 0 <= j < strings[i].0@.len() && #[trigger] strings[i].0@[j]
            == k.0 && k.1 < table.len() && table[k.1 as int] == strings[i].1@
}

/// Character `c` in font `font` is either listed in `out` or cached.
spec fn covered(
    table: Seq<(Seq<char>, u8)>,
    font: (Seq<char>, u8),
    c: char,
    out: Seq<GlyphSpec>,
    entries: Map<GlyphSpec, AtlasEntry>,
) -> bool {
    exists|f: usize|
        f < table.len() && table[f as int] == font && (out.contains(GlyphSpec(c, f))
            || entries.contains_key(GlyphSpec(c, f)))
}

proof fn lemma_table_grows(
    t1: Seq<(Seq<char>, u8)>,
    t2: Seq<(Seq<char>, u8)>,
    strings: Seq<(Vec<char>, Font)>,
    o1: Seq<GlyphSpec>,
    o2: Seq<GlyphSpec>,
    entries: Map<GlyphSpec, AtlasEntry>,
)
    requires
        t1.len() <= t2.len(),
        forall|f: int| 0 <= f < t1.len() ==> t2[f] == t1[f],
        o1.len() <= o2.len(),
        forall|m: int| 0 <= m < o1.len() ==> o2[m] == o1[m],
    ensures
        forall|k: GlyphSpec| requested(t1, strings, k) ==> requested(t2, strings, k),
        forall|font: (Seq<char>, u8), c: char|
            covered(t1, font, c, o1, entries) ==> covered(t2, font, c, o2, entries),
{
    assert forall|k: GlyphSpec| requested(t1, strings, k) implies requested(t2, strings, k) by {
        let (i, j) = choose|i: int, j: int|
            0 <= i < strings.len() && 0 <= j < strings[i].0@.len() && #[trigger] strings[i].0@[j]
                == k.0 && k.1 < t1.len() && t1[k.1 as int] == strings[i].1@;
        assert(strings[i].0@[j] == k.0);
    }
    assert forall|font: (Seq<char>, u8), c: char|
        covered(t1, font, c, o1, entries) implies covered(t2, font, c, o2, entries) by {
        let f = choose|f: usize|
            f < t1.len() && t1[f as int] == font && (o1.contains(GlyphSpec(c, f))
                || entries.contains_key(GlyphSpec(c, f)));
        if o1.contains(GlyphSpec(c, f)) {
            let m = choose|m: int| 0 <= m < o1.len() && o1[m] == GlyphSpec(c, f);
            assert(o2[m] == GlyphSpec(c, f));
        }
    }
}

proof fn lemma_push_contains(s: Seq<GlyphSpec>, x: GlyphSpec, y: GlyphSpec)
    ensures
        s.push(x).contains(x),
        s.contains(y) ==> s.push(x).contains(y),
{
    assert(s.push(x)[s.len() as int] == x);
    if s.contains(y) {
        let m = choose|m: int| 0 <= m < s.len() && s[m] == y;
        assert(s.push(x)[m] == y);
    }
}

proof fn lemma_same_elements<T>(a: Seq<T>, b: Seq<T>, x: T)
    requires
        a.to_multiset() == b.to_multiset(),
    ensures
        a.contains(x) <==> b.contains(x),
{
    vstd::seq_lib::to_multiset_contains(a, x);
    vstd::seq_lib::to_multiset_contains(b, x);
}

fn list_contains(v: &Vec<GlyphSpec>, k: GlyphSpec) -> (r: bool)
    ensures
        r == v@.contains(k),
{
    let mut i: usize = 0;
    while i < v.len()
        invariant
            i <= v.len(),
            forall|m: int| 0 <= m < i ==> v@[m] != k,
        decreases v.len() - i,
    {
        if v[i] == k {
            return true;
        }
        i += 1;
    }
    false
}

/// The ink area of `shape`, exactly.
fn ink_area(shape: &GlyphShape) -> (r: u128)
    ensures
        r == shape.ink_area(),
{
    let w = shape.left as u128 + shape.right as u128;
    let h = shape.ascent as u128 + shape.descent as u128;
    assert(w * h <= 0x4_0000_0000u128 * 0x4_0000_0000u128) by (nonlinear_arith)
        requires
            w <= 0x4_0000_0000u128,
            h <= 0x4_0000_0000u128,
    ;
    w * h
}

/// Holds of the glyphs whose ink area is `v`.
pub open spec fn area_is(v: int) -> spec_fn((GlyphSpec, GlyphShape)) -> bool {
    |g: (GlyphSpec, GlyphShape)| g.1.ink_area() == v
}

proof fn lemma_filter_push(s: Seq<(GlyphSpec, GlyphShape)>, g: (GlyphSpec, GlyphShape), v: int)
    ensures
        s.push(g).filter(area_is(v)) == if g.1.ink_area() == v {
            s.filter(area_is(v)).push(g)
        } else {
            s.filter(area_is(v))
        },
{
    reveal_with_fuel(Seq::filter, 1);
    assert(s.push(g).drop_last() =~= s);
}

/// Inserting `g` after every glyph of at least its area and before every
/// smaller one appends it to the glyphs of its own area, and leaves the
/// glyphs of any other area as they were.
proof fn lemma_filter_insert(s: Seq<(GlyphSpec, GlyphShape)>, pos: int, g: (GlyphSpec, GlyphShape), v: int)
    requires
        0 <= pos <= s.len(),
        forall|a: int| pos <= a < s.len() ==> s[a].1.ink_area() < g.1.ink_area(),
    ensures
        s.insert(pos, g).filter(area_is(v)) == if g.1.ink_area() == v {
            s.filter(area_is(v)).push(g)
        } else {
            s.filter(area_is(v))
        },
{
    broadcast use vstd::seq_lib::group_filter_ensures;

    let front = s.subrange(0, pos);
    let back = s.subrange(pos, s.len() as int);
    assert(s.insert(pos, g) =~= front.push(g) + back);
    assert(s =~= front + back);
    Seq::filter_distributes_over_add(front.push(g), back, area_is(v));
    Seq::filter_distributes_over_add(front, back, area_is(v));
    lemma_filter_push(front, g, v);
    if g.1.ink_area() == v {
        if back.filter(area_is(v)).len() > 0 {
            let x = back.filter(area_is(v))[0];
            back.lemma_filter_pred(area_is(v), 0);
            back.lemma_filter_contains_rev(area_is(v), x);
            let a = choose|a: int| 0 <= a < back.len() && back[a] == x;
            assert(s[pos + a] == x);
        }
        assert(back.filter(area_is(v)) =~= Seq::<(GlyphSpec, GlyphShape)>::empty());
        assert(front.filter(area_is(v)).push(g) + back.filter(area_is(v)) =~= (front.filter(area_is(v))
            + back.filter(area_is(v))).push(g));
    }
}

/// The batch ordered by descending ink area; glyphs of equal area keep
/// their order.
pub fn sort_by_area(batch: Vec<(GlyphSpec, GlyphShape)>) -> (r: Vec<(GlyphSpec, GlyphShape)>)
    ensures
        r@.to_multiset() == batch@.to_multiset(),
        forall|a: int, b: int| 0 <= a < b < r.len() ==> r@[a].1.ink_area() >= r@[b].1.ink_area(),
        forall|v: int| #[trigger] r@.filter(area_is(v)) == batch@.filter(area_is(v)),
{
    broadcast use vstd::seq_lib::group_to_multiset_ensures;

    let mut out: Vec<(GlyphSpec, GlyphShape)> = Vec::new();
    let mut i: usize = 0;
    while i < batch.len()
        invariant
            i <= batch.len(),
            out@.to_multiset() == batch@.subrange(0, i as int).to_multiset(),
            forall|a: int, b: int| 0 <= a < b < out.len() ==> out@[a].1.ink_area() >= out@[b].1.ink_area(),
            forall|v: int| #[trigger] out@.filter(area_is(v)) == batch@.subrange(0, i as int).filter(area_is(v)),
        decreases batch.len() - i,
    {
        let item = batch[i];
        let area = ink_area(&item.1);
        let mut pos: usize = 0;
        while pos < out.len() && ink_area(&out[pos].1) >= area
            invariant
                pos <= out.len(),
                forall|a: int| 0 <= a < pos ==> out@[a].1.ink_area() >= area,
            decreases out.len() - pos,
        {
            pos += 1;
        }
        let ghost before = out@;
        out.insert(pos, item);
        proof {
            assert(batch@.subrange(0, i + 1) =~= batch@.subrange(0, i as int).push(item));
            assert(out@ == before.insert(pos as int, item));
            vstd::seq_lib::to_multiset_insert(before, pos as int, item);
            vstd::seq_lib::to_multiset_build(batch@.subrange(0, i as int), item);
            assert forall|a: int| pos <= a < before.len() implies before[a].1.ink_area() < item.1.ink_area() by {
                assert(before[pos as int].1.ink_area() < area);
            }
            assert forall|v: int| #[trigger] out@.filter(area_is(v)) == batch@.subrange(0, i + 1).filter(area_is(v)) by {
                lemma_filter_insert(before, pos as int, item, v);
                lemma_filter_push(batch@.subrange(0, i as int), item, v);
            }
            assert forall|a: int, b: int| 0 <= a < b < out.len() implies out@[a].1.ink_area()
                >= out@[b].1.ink_area() by {
                if pos < before.len() {
                    assert(before[pos as int].1.ink_area() < area);
                }
            }
        }
        i += 1;
    }
    assert(batch@.subrange(0, batch.len() as int) =~= batch@);
    out
}

proof fn lemma_wf_same_room(a: GlyphAtlas, b: GlyphAtlas)
    requires
        a.wf(),
        b.fonts@ == a.fonts@,
        b.characters@ == a.characters@,
        b.entries@ == a.entries@,
        b.packing.wf(),
        b.packing.bounds() == a.packing.bounds(),
        b.packing.placed() == a.packing.placed(),
    ensures
        b.wf(),
{
}

/// Distinct fonts in the table have distinct handles: a handle names one
/// font, and one font has one handle.
pub proof fn lemma_font_handles_unique(atlas: GlyphAtlas)
    requires
        atlas.wf(),
    ensures
        forall|i: int, j: int|
            0 <= i < j < atlas.font_table().len() ==> atlas.font_table()[i] != atlas.font_table()[j],
{
    assert forall|i: int, j: int|
        0 <= i < j < atlas.font_table().len() implies atlas.font_table()[i] != atlas.font_table()[j] by {
        assert(atlas.font_table()[i] == atlas.fonts@[i]@);
        assert(atlas.font_table()[j] == atlas.fonts@[j]@);
    }
}

/// Every cached glyph sits in a rectangle that the packer handed out, inside
/// the texture, and two cached glyphs with different rectangles never share
/// a pixel.
pub proof fn lemma_cached_glyphs_placed(atlas: GlyphAtlas)
    requires
        atlas.wf(),
    ensures
        forall|k: GlyphSpec| #[trigger]
            atlas.entries().contains_key(k) ==> atlas.placements().contains(atlas.entries()[k].rect())
                && atlas.entries()[k].rect().within(canvas()),
        forall|k1: GlyphSpec, k2: GlyphSpec|
            #[trigger] atlas.entries().contains_key(k1) && #[trigger] atlas.entries().contains_key(k2)
                && atlas.entries()[k1].rect() != atlas.entries()[k2].rect() ==> !atlas.entries()[k1].rect().overlaps(
                atlas.entries()[k2].rect(),
            ),
{
    crate::packing::lemma_placements_disjoint(atlas.packing);
}

/// An update that lists the missing glyphs of some requests, measures exactly
/// those and places them all leaves every glyph the requests ask for cached:
/// the same requests then leave nothing to measure.
pub proof fn lemma_update_covers_requests(
    before: GlyphAtlas,
    after: GlyphAtlas,
    strings: Seq<(Vec<char>, Font)>,
    listed: Seq<GlyphSpec>,
    measured: Seq<(GlyphSpec, GlyphShape)>,
)
    requires
        forall|k: GlyphSpec|
            listed.contains(k) <==> requested(before.font_table(), strings, k)
                && !before.entries().contains_key(k),
        measured.len() == listed.len(),
        forall|m: int| 0 <= m < measured.len() ==> #[trigger] measured[m].0 == listed[m],
        after.font_table() == before.font_table(),
        forall|k: GlyphSpec| #[trigger]
            before.entries().contains_key(k) ==> after.entries().contains_key(k),
        forall|m: int| 0 <= m < measured.len() ==> after.entries().contains_key(#[trigger] measured[m].0),
    ensures
        forall|k: GlyphSpec|
            requested(after.font_table(), strings, k) ==> after.entries().contains_key(k),
{
    assert forall|k: GlyphSpec| requested(after.font_table(), strings, k) implies after.entries().contains_key(k) by {
        if !before.entries().contains_key(k) {
            assert(listed.contains(k));
            let m = choose|m: int| 0 <= m < listed.len() && listed[m] == k;
            assert(measured[m].0 == k);
        }
    }
}

impl GlyphAtlas {
    /// The font table, by handle.
    pub closed spec fn font_table(self) -> Seq<(Seq<char>, u8)> {
        self.fonts@.map_values(|f: Font| f@)
    }

    /// The cached glyphs.
    pub closed spec fn entries(self) -> Map<GlyphSpec, AtlasEntry> {
        self.entries@
    }

    /// The atlas's packer.
    pub closed spec fn packer(self) -> PackingNode {
        self.packing
    }

    /// The texture rectangles handed out so far.
    pub open spec fn placements(self) -> Set<Rect> {
        self.packer().placed()
    }

    pub closed spec fn wf(self) -> bool {
        &&& self.packing.wf()
        &&& self.packing.bounds() == canvas()
        &&& forall|i: int, j: int|
            0 <= i < j < self.fonts.len() ==> self.fonts@[i]@ != self.fonts@[j]@
        &&& forall|i: int, j: int|
            0 <= i < j < self.characters.len() ==> self.characters@[i].0 != self.characters@[j].0
        &&& forall|i: int|
            0 <= i < self.characters.len() ==> #[trigger] self.entries@.contains_key(
                self.characters@[i].0,
            ) && self.entries@[self.characters@[i].0] == self.characters@[i].1
        &&& forall|k: GlyphSpec| #[trigger]
            self.entries@.contains_key(k) ==> exists|i: int|
                0 <= i < self.characters.len() && #[trigger] self.characters@[i].0 == k
        &&& forall|k: GlyphSpec| #[trigger]
            self.entries@.contains_key(k) ==> self.entries@[k].glyph_shape.fits_u32()
                && self.packing.placed().contains(self.entries@[k].rect())
    }

    /// An empty atlas over a `TEXTURE_SIZE` × `TEXTURE_SIZE` texture.
    pub fn new() -> (r: GlyphAtlas)
        ensures
            r.wf(),
            r.font_table() == Seq::<(Seq<char>, u8)>::empty(),
            r.entries() == Map::<GlyphSpec, AtlasEntry>::empty(),
            r.placements() == Set::<Rect>::empty(),
            r.packer() == (PackingNode { children: None, rect: canvas(), filled: false }),
    {
        let r = GlyphAtlas {
            packing: PackingNode::new(TEXTURE_SIZE, TEXTURE_SIZE),
            fonts: Vec::new(),
            characters: Vec::new(),
            entries: Ghost(Map::empty()),
        };
        assert(r.font_table() =~= Seq::<(Seq<char>, u8)>::empty());
        r
    }

    /// The handle of `font` in the table, if registered.
    fn find_font(&self, font: &Font) -> (r: Option<usize>)
        requires
            self.wf(),
        ensures
            match r {
                Some(i) => i < self.font_table().len() && self.font_table()[i as int] == font@,
                None => !self.font_table().contains(font@),
            },
    {
        let mut i: usize = 0;
        while i < self.fonts.len()
            invariant
                i <= self.fonts.len(),
                forall|j: int| 0 <= j < i ==> self.fonts@[j]@ != font@,
            decreases self.fonts.len() - i,
        {
            if self.fonts[i] == *font {
                return Some(i);
            }
            i += 1;
        }
        proof {
            if self.font_table().contains(font@) {
                let j = choose|j: int| 0 <= j < self.font_table().len() && self.font_table()[j] == font@;
                assert(self.fonts@[j]@ == font@);
            }
        }
        None
    }

    /// The handle of `font`: the one it was given when first seen, or else
    /// the next handle in sequence, which it keeps from now on.
    pub fn font_to_index(&mut self, font: &Font) -> (r: FontIndex)
        requires
            old(self).wf(),
        ensures
            final(self).wf(),
            final(self).entries() == old(self).entries(),
            final(self).placements() == old(self).placements(),
            r < final(self).font_table().len(),
            final(self).font_table()[r as int] == font@,
            old(self).font_table().contains(font@) ==> final(self).font_table() == old(
                self,
            ).font_table(),
            !old(self).font_table().contains(font@) ==> r == old(self).font_table().len()
                && final(self).font_table() == old(self).font_table().push(font@),
    {
        match self.find_font(font) {
            Some(i) => i,
            None => {
                let len = self.fonts.len();
                self.fonts.push(font.clone());
                assert(self.font_table() =~= old(self).font_table().push(font@));
                assert forall|k: GlyphSpec| #[trigger]
                    self.entries@.contains_key(k) implies exists|i: int|
                        0 <= i < self.characters.len() && #[trigger] self.characters@[i].0 == k by {
                    let i = choose|i: int|
                        0 <= i < old(self).characters.len() && #[trigger] old(self).characters@[i].0 == k;
                    assert(self.characters@[i].0 == k);
                }
                assert forall|i: int, j: int|
                    0 <= i < j < self.fonts.len() implies self.fonts@[i]@ != self.fonts@[j]@ by {
                    if j == len {
                        assert(old(self).font_table()[i] == self.fonts@[i]@);
                    }
                }
                len
            },
        }
    }

    /// The cached glyph `c` in `font`, or an error when the font was never
    /// registered or the glyph was never placed in it.
    pub fn get_entry(&self, c: char, font: &Font) -> (r: Result<&AtlasEntry, GlyphAtlasError>)
        requires
            self.wf(),
        ensures
            match r {
                Ok(e) => exists|i: usize|
                    i < self.font_table().len() && self.font_table()[i as int] == font@
                        && self.entries().contains_key(GlyphSpec(c, i))
                        && *e == self.entries()[GlyphSpec(c, i)],
                Err(err) => err is InternalError && forall|i: usize|
                    i < self.font_table().len() && self.font_table()[i as int] == font@
                        ==> !self.entries().contains_key(GlyphSpec(c, i)),
            },
    {
        let font_idx = match self.find_font(font) {
            Some(i) => i,
            None => {
                return Err(
                    GlyphAtlasError::InternalError(
                        "Attempted to render font that is not in index.".to_owned(),
                    ),
                );
            },
        };
        let key = GlyphSpec(c, font_idx);
        let mut j: usize = 0;
        while j < self.characters.len()
            invariant
                self.wf(),
                font_idx < self.font_table().len(),
                self.font_table()[font_idx as int] == font@,
                key == GlyphSpec(c, font_idx),
                j <= self.characters.len(),
                forall|m: int| 0 <= m < j ==> self.characters@[m].0 != key,
            decreases self.characters.len() - j,
        {
            if self.characters[j].0 == key {
                assert(self.entries@.contains_key(self.characters@[j as int].0));
                assert(self.font_table()[font_idx as int] == font@);
                assert(self.entries().contains_key(GlyphSpec(c, font_idx)));
                return Ok(&self.characters[j].1);
            }
            j += 1;
        }
        proof {
            assert forall|i: usize|
                i < self.font_table().len() && self.font_table()[i as int] == font@ implies !self.entries().contains_key(GlyphSpec(c, i)) by {
                if i != font_idx {
                    assert(self.fonts@[i as int]@ == self.fonts@[font_idx as int]@);
                }
                if self.entries().contains_key(GlyphSpec(c, i)) {
                    let m = choose|m: int| 0 <= m < self.characters.len() && #[trigger] self.characters@[m].0 == GlyphSpec(c, i);
                }
            }
        }
        Err(
            GlyphAtlasError::InternalError(
                "Attempted to render glyph that is not in index.".to_owned(),
            ),
        )
    }
    /// Whether glyph `key` is cached.
    pub fn contains_glyph(&self, key: GlyphSpec) -> (r: bool)
        requires
            self.wf(),
        ensures
            r == self.entries().contains_key(key),
    {
        let mut j: usize = 0;
        while j < self.characters.len()
            invariant
                self.wf(),
                j <= self.characters.len(),
                forall|m: int| 0 <= m < j ==> self.characters@[m].0 != key,
            decreases self.characters.len() - j,
        {
            if self.characters[j].0 == key {
                assert(self.entries@.contains_key(self.characters@[j as int].0));
                return true;
            }
            j += 1;
        }
        proof {
            if self.entries().contains_key(key) {
                let m = choose|m: int| 0 <= m < self.characters.len() && #[trigger] self.characters@[m].0 == key;
            }
        }
        false
    }

    /// Appends to `out` each character of `text`, in font `font_idx`, that is
    /// neither cached nor already in `out`.
    fn collect_missing(&self, text: &Vec<char>, font_idx: FontIndex, out: Vec<GlyphSpec>) -> (r: Vec<GlyphSpec>)
        requires
            self.wf(),
            forall|a: int, b: int| 0 <= a < b < out.len() ==> out@[a] != out@[b],
        ensures
            r.len() >= out.len(),
            forall|m: int| 0 <= m < out.len() ==> r@[m] == out@[m],
            forall|a: int, b: int| 0 <= a < b < r.len() ==> r@[a] != r@[b],
            forall|m: int| out.len() <= m < r.len() ==> {
                &&& r@[m].1 == font_idx
                &&& text@.contains(r@[m].0)
                &&& !self.entries().contains_key(r@[m])
            },
            forall|j: int| 0 <= j < text.len() ==> {
                ||| r@.contains(GlyphSpec(text@[j], font_idx))
                ||| self.entries().contains_key(GlyphSpec(text@[j], font_idx))
            },
    {
        let ghost out0 = out@;
        let mut acc = out;
        let mut j: usize = 0;
        while j < text.len()
            invariant
                self.wf(),
                j <= text.len(),
                acc.len() >= out0.len(),
                forall|m: int| 0 <= m < out0.len() ==> acc@[m] == out0[m],
                forall|a: int, b: int| 0 <= a < b < acc.len() ==> acc@[a] != acc@[b],
                forall|m: int| out0.len() <= m < acc.len() ==> {
                    &&& acc@[m].1 == font_idx
                    &&& text@.contains(acc@[m].0)
                    &&& !self.entries().contains_key(acc@[m])
                },
                forall|j2: int| 0 <= j2 < j ==> {
                    ||| acc@.contains(GlyphSpec(text@[j2], font_idx))
                    ||| self.entries().contains_key(GlyphSpec(text@[j2], font_idx))
                },
            decreases text.len() - j,
        {
            let key = GlyphSpec(text[j], font_idx);
            if !self.contains_glyph(key) && !list_contains(&acc, key) {
                let ghost before = acc@;
                acc.push(key);
                proof {
                    assert(acc@ == before.push(key));
                    assert forall|y: GlyphSpec| before.contains(y) implies #[trigger] acc@.contains(y) by {
                        lemma_push_contains(before, key, y);
                    }
                    lemma_push_contains(before, key, key);
                }
            }
            proof {
                assert(acc@.contains(key) || self.entries().contains_key(key));
            }
            j += 1;
        }
        acc
    }

    /// Starts an update: registers each request's font, then lists each
    /// glyph the requests ask for that is not cached, once, in the order
    /// first asked for. These are the glyphs to measure.
    pub fn glyphs_to_measure(&mut self, strings: &Vec<(Vec<char>, Font)>) -> (r: Vec<GlyphSpec>)
        requires
            old(self).wf(),
        ensures
            final(self).wf(),
            final(self).entries() == old(self).entries(),
            final(self).placements() == old(self).placements(),
            final(self).font_table().len() >= old(self).font_table().len(),
            forall|f: int|
                0 <= f < old(self).font_table().len() ==> final(self).font_table()[f] == old(
                    self,
                ).font_table()[f],
            forall|i: int| 0 <= i < strings.len() ==> final(self).font_table().contains(#[trigger] strings@[i].1@),
            (forall|i: int| 0 <= i < strings.len() ==> old(self).font_table().contains(#[trigger] strings@[i].1@))
                ==> final(self).font_table() == old(self).font_table(),
            forall|a: int, b: int| 0 <= a < b < r.len() ==> r@[a] != r@[b],
            forall|k: GlyphSpec|
                r@.contains(k) <==> requested(final(self).font_table(), strings@, k)
                    && !final(self).entries().contains_key(k),
    {
        let mut out: Vec<GlyphSpec> = Vec::new();
        let mut i: usize = 0;
        while i < strings.len()
            invariant
                self.wf(),
                i <= strings.len(),
                self.entries() == old(self).entries(),
                self.placements() == old(self).placements(),
                self.font_table().len() >= old(self).font_table().len(),
                forall|f: int|
                    0 <= f < old(self).font_table().len() ==> self.font_table()[f] == old(
                        self,
                    ).font_table()[f],
                forall|i2: int| 0 <= i2 < i ==> self.font_table().contains(#[trigger] strings@[i2].1@),
                (forall|i2: int| 0 <= i2 < strings.len() ==> old(self).font_table().contains(#[trigger] strings@[i2].1@))
                    ==> self.font_table() == old(self).font_table(),
                forall|a: int, b: int| 0 <= a < b < out.len() ==> out@[a] != out@[b],
                forall|m: int|
                    0 <= m < out.len() ==> requested(self.font_table(), strings@, #[trigger] out@[m])
                        && !self.entries().contains_key(out@[m]),
                forall|i2: int, j2: int|
                    0 <= i2 < i && 0 <= j2 < strings@[i2].0@.len() ==> covered(
                        self.font_table(),
                        strings@[i2].1@,
                        #[trigger] strings@[i2].0@[j2],
                        out@,
                        self.entries(),
                    ),
            decreases strings.len() - i,
        {
            let ghost t1 = self.font_table();
            let ghost o1 = out@;
            let font_idx = self.font_to_index(&strings[i].1);
            out = self.collect_missing(&strings[i].0, font_idx, out);
            proof {
                lemma_table_grows(t1, self.font_table(), strings@, o1, out@, self.entries());
                assert forall|i2: int| 0 <= i2 < i + 1 implies self.font_table().contains(#[trigger] strings@[i2].1@) by {
                    if i2 == i {
                        assert(self.font_table()[font_idx as int] == strings@[i2].1@);
                    } else {
                        let f = choose|f: int| 0 <= f < t1.len() && t1[f] == strings@[i2].1@;
                        assert(self.font_table()[f] == strings@[i2].1@);
                    }
                }
                assert forall|m: int|
                    0 <= m < out.len() implies requested(self.font_table(), strings@, #[trigger] out@[m])
                        && !self.entries().contains_key(out@[m]) by {
                    if m >= o1.len() {
                        let c = out@[m].0;
                        let j = choose|j: int| 0 <= j < strings@[i as int].0@.len() && strings@[i as int].0@[j] == c;
                        assert(strings@[i as int].0@[j] == out@[m].0);
                    } else {
                        assert(out@[m] == o1[m]);
                    }
                }
                assert forall|i2: int, j2: int|
                    0 <= i2 < i + 1 && 0 <= j2 < strings@[i2].0@.len() implies covered(
                        self.font_table(),
                        strings@[i2].1@,
                        #[trigger] strings@[i2].0@[j2],
                        out@,
                        self.entries(),
                    ) by {
                    if i2 == i {
                        assert(self.font_table()[font_idx as int] == strings@[i2].1@);
                    }
                }
            }
            i += 1;
        }
        proof {
            assert forall|k: GlyphSpec|
                requested(self.font_table(), strings@, k) && !self.entries().contains_key(k) implies out@.contains(k) by {
                let (i2, j2) = choose|i2: int, j2: int|
                    0 <= i2 < strings.len() && 0 <= j2 < strings@[i2].0@.len() && #[trigger] strings@[i2].0@[j2]
                        == k.0 && k.1 < self.font_table().len() && self.font_table()[k.1 as int] == strings@[i2].1@;
                assert(covered(self.font_table(), strings@[i2].1@, strings@[i2].0@[j2], out@, self.entries()));
                let f = choose|f: usize|
                    f < self.font_table().len() && self.font_table()[f as int] == strings@[i2].1@ && (out@.contains(GlyphSpec(k.0, f))
                        || self.entries().contains_key(GlyphSpec(k.0, f)));
                if f != k.1 {
                    assert(self.fonts@[f as int]@ == self.fonts@[k.1 as int]@);
                }
            }
            assert forall|k: GlyphSpec| out@.contains(k) implies requested(self.font_table(), strings@, k)
                && !self.entries().contains_key(k) by {
                let m = choose|m: int| 0 <= m < out.len() && out@[m] == k;
            }
        }
        out
    }
    /// Places a measured batch, largest ink area first, skipping glyphs
    /// already cached. Each placed glyph is cached and listed for painting.
    /// The batch stops at the first glyph with no room left, with an error;
    /// glyphs placed before it stay cached. Otherwise the status says
    /// whether any glyph was placed, that is whether the texture changed.
    pub fn place_glyphs(&mut self, measured: Vec<(GlyphSpec, GlyphShape)>) -> (r: PreparedBatch)
        requires
            old(self).wf(),
        ensures
            final(self).wf(),
            final(self).font_table() == old(self).font_table(),
            old(self).placements().subset_of(final(self).placements()),
            forall|k: GlyphSpec| #[trigger]
                old(self).entries().contains_key(k) ==> final(self).entries().contains_key(k)
                    && final(self).entries()[k] == old(self).entries()[k],
            forall|k: GlyphSpec| #[trigger]
                final(self).entries().contains_key(k) ==> old(self).entries().contains_key(k)
                    || exists|m: int| 0 <= m < r.placed.len() && r.placed@[m].glyph == k,
            forall|m: int| 0 <= m < r.placed.len() ==> {
                let p = #[trigger] r.placed@[m];
                &&& !old(self).entries().contains_key(p.glyph)
                &&& measured@.contains((p.glyph, p.glyph_shape))
                &&& final(self).entries().contains_key(p.glyph)
                &&& final(self).entries()[p.glyph].x() == p.x
                &&& final(self).entries()[p.glyph].y() == p.y
                &&& final(self).entries()[p.glyph].shape() == p.glyph_shape
                &&& final(self).placements().contains(p.rect())
                &&& p.rect().within(canvas())
                &&& forall|q: Rect| #[trigger] old(self).placements().contains(q) ==> !p.rect().overlaps(q)
                &&& p.rect().size.width > 0 && p.rect().size.height > 0 ==> !old(self).placements().contains(p.rect())
            },
            forall|a: int, b: int| 0 <= a < b < r.placed.len() ==> r.placed@[a].glyph != r.placed@[b].glyph,
            forall|a: int, b: int|
                0 <= a < b < r.placed.len() ==> r.placed@[a].glyph_shape.ink_area()
                    >= r.placed@[b].glyph_shape.ink_area(),
            forall|q: Rect| #[trigger]
                final(self).placements().contains(q) ==> old(self).placements().contains(q)
                    || exists|m: int| 0 <= m < r.placed.len() && r.placed@[m].rect() == q,
            match r.status {
                Ok(dirty) => {
                    &&& dirty == (r.placed.len() > 0)
                    &&& forall|m: int| 0 <= m < measured.len() ==> final(self).entries().contains_key(#[trigger] measured@[m].0)
                },
                Err(e) => {
                    &&& e is InternalError
                    &&& exists|m: int|
                        0 <= m < measured.len() && !final(self).entries().contains_key(#[trigger] measured@[m].0)
                            && (!measured@[m].1.fits_u32() || !final(self).packer().accepts(
                            measured@[m].1.spec_size(),
                        )) && forall|n: int|
                            0 <= n < measured.len() && #[trigger] measured@[n].1.ink_area()
                                > measured@[m].1.ink_area() ==> final(self).entries().contains_key(measured@[n].0)
                },
            },
            measured.len() == 0 ==> final(self).placements() == old(self).placements() && r.placed.len() == 0,
    {
        broadcast use vstd::seq_lib::group_to_multiset_ensures;

        let sorted = sort_by_area(measured);
        proof {
            vstd::seq_lib::to_multiset_len(sorted@);
            vstd::seq_lib::to_multiset_len(measured@);
        }
        let mut placed: Vec<PlacedGlyph> = Vec::new();
        let mut exhausted = false;
        let mut i: usize = 0;
        while i < sorted.len()
            invariant_except_break
                !exhausted,
            invariant
                self.wf(),
                i <= sorted.len(),
                sorted@.to_multiset() == measured@.to_multiset(),
                self.font_table() == old(self).font_table(),
                old(self).placements().subset_of(self.placements()),
                forall|k: GlyphSpec| #[trigger]
                    old(self).entries().contains_key(k) ==> self.entries().contains_key(k)
                        && self.entries()[k] == old(self).entries()[k],
                forall|k: GlyphSpec| #[trigger]
                    self.entries().contains_key(k) ==> old(self).entries().contains_key(k)
                        || exists|m: int| 0 <= m < placed.len() && placed@[m].glyph == k,
                forall|m: int| 0 <= m < placed.len() ==> {
                    let p = #[trigger] placed@[m];
                    &&& !old(self).entries().contains_key(p.glyph)
                    &&& measured@.contains((p.glyph, p.glyph_shape))
                    &&& self.entries().contains_key(p.glyph)
                    &&& self.entries()[p.glyph].x() == p.x
                    &&& self.entries()[p.glyph].y() == p.y
                    &&& self.entries()[p.glyph].shape() == p.glyph_shape
                    &&& self.placements().contains(p.rect())
                    &&& p.rect().within(canvas())
                    &&& forall|q: Rect| #[trigger] old(self).placements().contains(q) ==> !p.rect().overlaps(q)
                    &&& p.rect().size.width > 0 && p.rect().size.height > 0 ==> !old(self).placements().contains(p.rect())
                },
                forall|a: int, b: int| 0 <= a < b < placed.len() ==> placed@[a].glyph != placed@[b].glyph,
                forall|a: int, b: int|
                    0 <= a < b < placed.len() ==> placed@[a].glyph_shape.ink_area()
                        >= placed@[b].glyph_shape.ink_area(),
                forall|m: int, j: int|
                    0 <= m < placed.len() && i <= j < sorted.len() ==> #[trigger] placed@[m].glyph_shape.ink_area()
                        >= #[trigger] sorted@[j].1.ink_area(),
                forall|a: int, b: int| 0 <= a < b < sorted.len() ==> sorted@[a].1.ink_area() >= sorted@[b].1.ink_area(),
                forall|q: Rect| #[trigger]
                    self.placements().contains(q) ==> old(self).placements().contains(q)
                        || exists|m: int| 0 <= m < placed.len() && placed@[m].rect() == q,
                forall|i2: int| 0 <= i2 < i ==> self.entries().contains_key(#[trigger] sorted@[i2].0),
                sorted.len() == 0 ==> self.placements() == old(self).placements() && placed.len() == 0,
            ensures
                exhausted ==> i < sorted.len() && !self.entries().contains_key(sorted@[i as int].0)
                    && (!sorted@[i as int].1.fits_u32() || !self.packing.accepts(sorted@[i as int].1.spec_size())),
                !exhausted ==> i == sorted.len(),
            decreases sorted.len() - i,
        {
            let (key, shape) = sorted[i];
            proof {
                assert(sorted@.contains(sorted@[i as int]));
                lemma_same_elements(sorted@, measured@, (key, shape));
            }
            if !self.contains_glyph(key) {
                if shape.left > u32::MAX - shape.right || shape.ascent > u32::MAX - shape.descent {
                    // Wider or taller than any texture can be.
                    exhausted = true;
                    break;
                }
                let size = shape.size();
                let ghost room0 = self.packing.placed();
                let ghost atlas0 = *self;
                let spot = self.packing.insert_rect(size);
                match spot {
                    None => {
                        assert(self.packing.placed() == room0);
                        proof { lemma_wf_same_room(atlas0, *self); }
                        exhausted = true;
                        break;
                    },
                    Some((x, y)) => {
                        let entry = AtlasEntry { upper_left: [x, y], glyph_shape: shape };
                        let ghost placed0 = placed@;
                        let ghost chars0 = self.characters@;
                        assert(entry.rect() == (Rect { x, y, size }));
                        self.characters.push((key, entry));
                        proof {
                            self.entries@ = self.entries@.insert(key, entry);
                            assert forall|a: int, b: int|
                                0 <= a < b < self.characters.len() implies self.characters@[a].0 != self.characters@[b].0 by {
                                if b == chars0.len() {
                                    assert(self.characters@[a] == chars0[a]);
                                }
                            }
                            assert forall|k: GlyphSpec| #[trigger]
                                self.entries@.contains_key(k) implies exists|m: int|
                                    0 <= m < self.characters.len() && #[trigger] self.characters@[m].0 == k by {
                                if k == key {
                                    assert(self.characters@[chars0.len() as int].0 == k);
                                } else {
                                    let m = choose|m: int| 0 <= m < chars0.len() && #[trigger] chars0[m].0 == k;
                                    assert(self.characters@[m].0 == k);
                                }
                            }
                        }
                        placed.push(PlacedGlyph { glyph: key, x, y, glyph_shape: shape });
                        proof {
                            assert(placed@[placed0.len() as int].rect() == (Rect { x, y, size }));
                            assert forall|q: Rect| #[trigger]
                                self.placements().contains(q) implies old(self).placements().contains(q)
                                    || exists|m: int| 0 <= m < placed.len() && placed@[m].rect() == q by {
                                if q != (Rect { x, y, size }) {
                                    assert(room0.contains(q));
                                    if !old(self).placements().contains(q) {
                                        let m = choose|m: int| 0 <= m < placed0.len() && placed0[m].rect() == q;
                                        assert(placed@[m] == placed0[m]);
                                    }
                                }
                            }
                            assert forall|k: GlyphSpec| #[trigger]
                                self.entries().contains_key(k) implies old(self).entries().contains_key(k)
                                    || exists|m: int| 0 <= m < placed.len() && placed@[m].glyph == k by {
                                if k == key {
                                    assert(placed@[placed0.len() as int].glyph == k);
                                } else if !old(self).entries().contains_key(k) {
                                    let m = choose|m: int| 0 <= m < placed0.len() && placed0[m].glyph == k;
                                    assert(placed@[m].glyph == k);
                                }
                            }
                            assert forall|m: int| 0 <= m < placed.len() implies {
                                let p = #[trigger] placed@[m];
                                &&& !old(self).entries().contains_key(p.glyph)
                                &&& measured@.contains((p.glyph, p.glyph_shape))
                                &&& self.entries().contains_key(p.glyph)
                                &&& self.entries()[p.glyph].x() == p.x
                                &&& self.entries()[p.glyph].y() == p.y
                                &&& self.entries()[p.glyph].shape() == p.glyph_shape
                            } by {
                                if m < placed0.len() {
                                    assert(placed@[m] == placed0[m]);
                                }
                            }
                        }
                    },
                }
            }
            i += 1;
        }
        proof {
            if !exhausted {
                assert forall|m: int| 0 <= m < measured.len() implies self.entries().contains_key(#[trigger] measured@[m].0) by {
                    assert(measured@.contains(measured@[m]));
                    lemma_same_elements(sorted@, measured@, measured@[m]);
                    let i2 = choose|i2: int| 0 <= i2 < sorted.len() && sorted@[i2] == measured@[m];
                    assert(self.entries().contains_key(sorted@[i2].0));
                }
            } else {
                assert(sorted@.contains(sorted@[i as int]));
                lemma_same_elements(sorted@, measured@, sorted@[i as int]);
                let m = choose|m: int| 0 <= m < measured.len() && measured@[m] == sorted@[i as int];
                assert(!self.entries().contains_key(measured@[m].0));
                assert forall|n: int|
                    0 <= n < measured.len() && #[trigger] measured@[n].1.ink_area()
                        > measured@[m].1.ink_area() implies self.entries().contains_key(measured@[n].0) by {
                    assert(measured@.contains(measured@[n]));
                    lemma_same_elements(sorted@, measured@, measured@[n]);
                    let j = choose|j: int| 0 <= j < sorted.len() && sorted@[j] == measured@[n];
                    if j >= i {
                        assert(sorted@[i as int].1.ink_area() >= sorted@[j].1.ink_area());
                    }
                }
            }
        }
        let status = if exhausted {
            Err(GlyphAtlasError::InternalError("Ran out of space to pack rect.".to_owned()))
        } else {
            Ok(placed.len() > 0)
        };
        let r = PreparedBatch { placed, status };
        proof {
            assert forall|k: GlyphSpec| #[trigger]
                self.entries().contains_key(k) implies old(self).entries().contains_key(k)
                    || exists|m: int| 0 <= m < r.placed.len() && r.placed@[m].glyph == k by {
                if !old(self).entries().contains_key(k) {
                    let m = choose|m: int| 0 <= m < placed@.len() && placed@[m].glyph == k;
                    assert(r.placed@[m].glyph == k);
                }
            }
        }
        r
    }
    /// The font with handle `index`, if there is one.
    pub fn font(&self, index: FontIndex) -> (r: Option<Font>)
        requires
            self.wf(),
        ensures
            match r {
                Some(f) => index < self.font_table().len() && f@ == self.font_table()[index as int],
                None => index >= self.font_table().len(),
            },
    {
        if index < self.fonts.len() {
            Some(self.fonts[index].clone())
        } else {
            None
        }
    }
}

} // verus!
