use webgl2_glyph_atlas::error::GlyphAtlasError;
use webgl2_glyph_atlas::glyph_atlas::{sort_by_area, GlyphAtlas, GlyphShape, GlyphSpec, TEXTURE_SIZE};
use webgl2_glyph_atlas::packing::RectSize;
use webgl2_glyph_atlas::Font;

fn shape(left: u32, right: u32, ascent: u32, descent: u32) -> GlyphShape {
    GlyphShape { left, right, ascent, descent, occupied_width: 7.5f32.to_bits() }
}

fn request(text: &str, font: &Font) -> (Vec<char>, Font) {
    (text.chars().collect(), font.clone())
}

#[test]
fn canvas_string_has_size_then_name() {
    assert_eq!(Font::new("Georgia", 40).as_canvas_string(), "40px Georgia");
    assert_eq!(Font::new("Pacifico", 5).as_canvas_string(), "5px Pacifico");
    assert_eq!(Font::new("Mono", 100).as_canvas_string(), "100px Mono");
    assert_eq!(Font::new("Serif", 255).as_canvas_string(), "255px Serif");
    assert_eq!(Font::new("Sans", 0).as_canvas_string(), "0px Sans");
}

#[test]
fn same_font_needs_name_and_size() {
    assert!(Font::new("A", 10) == Font::new("A", 10));
    assert!(Font::new("A", 10) != Font::new("A", 11));
    assert!(Font::new("A", 10) != Font::new("B", 10));
}

#[test]
fn font_handles_are_sequential_and_stable() {
    let mut atlas = GlyphAtlas::new();
    let a = Font::new("A", 10);
    let b = Font::new("A", 12);
    let c = Font::new("C", 10);
    assert_eq!(atlas.font_to_index(&a), 0);
    assert_eq!(atlas.font_to_index(&b), 1);
    assert_eq!(atlas.font_to_index(&a), 0);
    assert_eq!(atlas.font_to_index(&c), 2);
    assert_eq!(atlas.font_to_index(&Font::new("A", 12)), 1);
}

#[test]
fn shape_dimensions() {
    let s = shape(2, 5, 9, 3);
    assert_eq!(s.glyph_width(), 7);
    assert_eq!(s.height(), 12);
    assert_eq!(s.size(), RectSize { width: 7, height: 12 });
}

#[test]
fn sort_puts_largest_first_and_keeps_ties_in_order() {
    let batch = vec![
        (GlyphSpec('a', 0), shape(0, 2, 2, 0)),
        (GlyphSpec('b', 0), shape(0, 3, 3, 0)),
        (GlyphSpec('c', 0), shape(0, 4, 1, 0)),
        (GlyphSpec('d', 0), shape(0, 1, 1, 0)),
    ];
    let sorted = sort_by_area(batch);
    let order: Vec<char> = sorted.iter().map(|(k, _)| k.0).collect();
    assert_eq!(order, vec!['b', 'a', 'c', 'd']);
}

#[test]
fn first_update_lists_each_new_glyph_once() {
    let mut atlas = GlyphAtlas::new();
    let f = Font::new("F", 10);
    let g = Font::new("G", 10);
    let missing = atlas.glyphs_to_measure(&vec![request("abca", &f), request("ab", &g), request("b", &f)]);
    assert_eq!(
        missing,
        vec![GlyphSpec('a', 0), GlyphSpec('b', 0), GlyphSpec('c', 0), GlyphSpec('a', 1), GlyphSpec('b', 1)]
    );
}

#[test]
fn cached_glyphs_are_not_measured_again() {
    let mut atlas = GlyphAtlas::new();
    let f = Font::new("F", 10);
    let missing = atlas.glyphs_to_measure(&vec![request("ab", &f)]);
    assert_eq!(missing, vec![GlyphSpec('a', 0), GlyphSpec('b', 0)]);
    let measured = vec![(missing[0], shape(0, 5, 7, 2)), (missing[1], shape(1, 5, 9, 2))];
    let batch = atlas.place_glyphs(measured);
    assert!(matches!(batch.status, Ok(true)));
    assert_eq!(batch.placed.len(), 2);
    // Largest first: 'b' (6 x 11) before 'a' (5 x 9).
    assert_eq!(batch.placed[0].glyph, GlyphSpec('b', 0));
    assert_eq!((batch.placed[0].x, batch.placed[0].y), (0, 0));

    let again = atlas.glyphs_to_measure(&vec![request("ba", &f)]);
    assert!(again.is_empty());
    let second = atlas.place_glyphs(Vec::new());
    assert!(matches!(second.status, Ok(false)));
    assert!(second.placed.is_empty());
}

#[test]
fn entry_holds_measured_shape_and_placement() {
    let mut atlas = GlyphAtlas::new();
    let f = Font::new("F", 10);
    let missing = atlas.glyphs_to_measure(&vec![request("x", &f)]);
    let s = shape(1, 4, 6, 2);
    let batch = atlas.place_glyphs(vec![(missing[0], s)]);
    assert!(matches!(batch.status, Ok(true)));
    let entry = atlas.get_entry('x', &f).ok().unwrap();
    assert_eq!(entry.glyph_shape, s);
    assert_eq!(entry.pixel_bounds(), ([0, 0], [5, 8]));
    assert_eq!((batch.placed[0].x, batch.placed[0].y), (0, 0));
}

#[test]
fn unknown_font_or_glyph_is_not_found() {
    let mut atlas = GlyphAtlas::new();
    let f = Font::new("F", 10);
    assert!(matches!(atlas.get_entry('x', &f), Err(GlyphAtlasError::InternalError(_))));
    atlas.font_to_index(&f);
    assert!(matches!(atlas.get_entry('x', &f), Err(GlyphAtlasError::InternalError(_))));
    assert!(!atlas.contains_glyph(GlyphSpec('x', 0)));
}

#[test]
fn full_atlas_refuses_the_next_batch() {
    let mut atlas = GlyphAtlas::new();
    let f = Font::new("F", 10);
    let missing = atlas.glyphs_to_measure(&vec![request("M", &f)]);
    let whole = shape(0, TEXTURE_SIZE, TEXTURE_SIZE, 0);
    assert!(matches!(atlas.place_glyphs(vec![(missing[0], whole)]).status, Ok(true)));

    let missing = atlas.glyphs_to_measure(&vec![request("ij", &f)]);
    assert_eq!(missing.len(), 2);
    let batch = atlas.place_glyphs(vec![(missing[0], shape(0, 1, 2, 0)), (missing[1], shape(0, 1, 3, 0))]);
    assert!(matches!(batch.status, Err(GlyphAtlasError::InternalError(_))));
    assert!(batch.placed.is_empty());
    assert!(atlas.get_entry('i', &f).is_err());
    assert!(atlas.get_entry('j', &f).is_err());
    assert!(atlas.get_entry('M', &f).is_ok());
}

#[test]
fn glyphs_placed_before_exhaustion_stay_cached() {
    let mut atlas = GlyphAtlas::new();
    let f = Font::new("F", 10);
    let missing = atlas.glyphs_to_measure(&vec![request("ab", &f)]);
    let batch = atlas.place_glyphs(vec![
        (missing[0], shape(0, 200, 200, 0)),
        (missing[1], shape(0, 100, 100, 0)),
    ]);
    assert!(matches!(batch.status, Err(GlyphAtlasError::InternalError(_))));
    assert_eq!(batch.placed.len(), 1);
    assert!(atlas.get_entry('a', &f).is_ok());
    assert!(atlas.get_entry('b', &f).is_err());
}

#[test]
fn shape_too_wide_for_u32_exhausts() {
    let mut atlas = GlyphAtlas::new();
    let f = Font::new("F", 10);
    let missing = atlas.glyphs_to_measure(&vec![request("w", &f)]);
    let batch = atlas.place_glyphs(vec![(missing[0], shape(u32::MAX, 1, 1, 0))]);
    assert!(matches!(batch.status, Err(GlyphAtlasError::InternalError(_))));
}

#[test]
fn error_text_names_its_kind() {
    let e = GlyphAtlasError::DomError("no canvas".to_string());
    assert_eq!(e.to_string(), "Error interacting with document: no canvas");
    let e = GlyphAtlasError::InternalError("Ran out of space to pack rect.".to_string());
    assert_eq!(e.to_string(), "Internal webgl2-glyph-atlas error: Ran out of space to pack rect.");
    let e = GlyphAtlasError::WebGlShaderInfoLog("bad".to_string());
    assert_eq!(e.to_string(), "WebGL Error compiling shader: bad");
}

#[test]
fn font_lookup_by_handle() {
    let mut atlas = GlyphAtlas::new();
    let f = Font::new("F", 10);
    assert!(atlas.font(0).is_none());
    assert_eq!(atlas.font_to_index(&f), 0);
    assert!(atlas.font(0) == Some(f));
    assert!(atlas.font(1).is_none());
}
