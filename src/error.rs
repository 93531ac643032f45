//! Errors reported by the atlas and by the renderer around it.
use vstd::prelude::*;

verus! {

pub enum GlyphAtlasError {
    WebGlError(String),
    WebGlShaderInfoLog(String),
    WebGlProgramInfoLog(String),
    DomError(String),
    InternalError(String),
}

impl GlyphAtlasError {
    /// A human-readable description: a prefix naming the kind, then the detail.
    pub fn to_string(&self) -> (r: String)
        ensures
            r@ == match self {
                GlyphAtlasError::WebGlError(st) => "WebGL Error: "@ + st@,
                GlyphAtlasError::WebGlProgramInfoLog(st) => "WebGL Error linking program: "@ + st@,
                GlyphAtlasError::WebGlShaderInfoLog(st) => "WebGL Error compiling shader: "@ + st@,
                GlyphAtlasError::DomError(st) => "Error interacting with document: "@ + st@,
                GlyphAtlasError::InternalError(st) => "Internal webgl2-glyph-atlas error: "@ + st@,
            },
    {
        let (prefix, st) = match self {
            GlyphAtlasError::WebGlError(st) => ("WebGL Error: ", st),
            GlyphAtlasError::WebGlProgramInfoLog(st) => ("WebGL Error linking program: ", st),
            GlyphAtlasError::WebGlShaderInfoLog(st) => ("WebGL Error compiling shader: ", st),
            GlyphAtlasError::DomError(st) => ("Error interacting with document: ", st),
            GlyphAtlasError::InternalError(st) => ("Internal webgl2-glyph-atlas error: ", st),
        };
        prefix.to_owned().concat(st.as_str())
    }
}

} // verus!
