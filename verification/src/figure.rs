//! The option vocabulary of figure requests, and the names the desktop shell
//! passes for palettes, themes and export formats.
use vstd::prelude::*;
use vstd::string::StringSliceAdditionalSpecFns;

verus! {

/// Which layers a figure includes, mirroring the editor's per-track toggles.
#[derive(Clone, Copy, Debug, PartialEq, Eq, Structural)]
pub struct LayerToggles {
    /// Waveform envelope panel.
    pub waveform: bool,
    /// Spectrogram panel.
    pub spectrogram: bool,
    /// Pitch contour panel.
    pub pitch: bool,
    /// Formant speckle, drawn over the spectrogram's frequency panel.
    pub formant: bool,
    /// Intensity contour panel.
    pub intensity: bool,
    /// Annotation tier panel.
    pub tiers: bool,
}

/// Physical length unit for a figure request.
#[derive(Clone, Copy, Debug, PartialEq, Eq, Structural)]
pub enum FigureUnit {
    /// Centimeters.
    Cm,
    /// Inches.
    In,
    /// Typographic points.
    Pt,
}

/// Theme a figure is described against; the spectrogram colorizes to it.
#[derive(Clone, Copy, Debug, PartialEq, Eq, Structural)]
pub enum FigureTheme {
    /// Light background, the print default.
    Light,
    /// Dark background, for screen.
    Dark,
}

/// Spectrogram palette, including the grayscale ramp for print.
#[derive(Clone, Copy, Debug, PartialEq, Eq, Structural)]
pub enum FigureColormap {
    /// Perceptually uniform purple to teal to yellow ramp.
    Viridis,
    /// Perceptually uniform black to purple to orange ramp.
    Magma,
    /// Achromatic ramp for grayscale print.
    Grayscale,
}

/// Pitch axis unit for the pitch panel.
#[derive(Clone, Copy, Debug, PartialEq, Eq, Structural)]
pub enum FigurePitchUnit {
    /// Hertz.
    Hertz,
    /// Semitones re 1 Hz.
    Semitones,
}

/// A figure export format.
#[derive(Clone, Copy, Debug, PartialEq, Eq, Structural)]
pub enum FigureFormat {
    /// SVG scene graph; the source of truth and the preview.
    Svg,
    /// Rasterized PNG (native only).
    Png,
    /// PDF derived from the SVG (native only).
    Pdf,
    /// Vega-Lite v5 JSON.
    Vega,
    /// PGFPlots / TikZ source.
    Tikz,
    /// Typst / CeTZ source.
    Typst,
    /// matplotlib script plus data.
    Python,
    /// ggplot2 script plus data.
    R,
    /// Makie script plus data.
    Julia,
    /// GraphML of the annotation tiers.
    Graphml,
}

/// Whether the UTF-8 bytes of `text` are exactly `word`.
fn bytes_are(text: &str, word: &[u8]) -> (r: bool)
    ensures
        r == (text.spec_bytes() == word@),
{
    let b = text.as_bytes();
    if b.len() != word.len() {
        return false;
    }
    let mut k: usize = 0;
    while k < b.len()
        invariant
            k <= b.len(),
            b.len() == word.len(),
            b@ == text.spec_bytes(),
            forall|j: int| 0 <= j < k ==> b@[j] == word@[j],
        decreases b.len() - k,
    {
        if b[k] != word[k] {
            return false;
        }
        k += 1;
    }
    assert(b@ =~= word@);
    true
}

/// The palette a desktop palette name selects; unknown names select Viridis.
pub open spec fn spec_colormap_of(name: Seq<u8>) -> FigureColormap {
    if name == seq![77u8, 97, 103, 109, 97] {
        FigureColormap::Magma
    } else if name == seq![71u8, 114, 97, 121, 115, 99, 97, 108, 101] {
        FigureColormap::Grayscale
    } else {
        FigureColormap::Viridis
    }
}

/// Selects a palette by its name: `Magma`, `Grayscale`, anything else Viridis.
pub fn colormap_of(name: &str) -> (r: FigureColormap)
    ensures
        r == spec_colormap_of(name.spec_bytes()),
{
    if bytes_are(name, &[77u8, 97, 103, 109, 97]) {
        FigureColormap::Magma
    } else if bytes_are(name, &[71u8, 114, 97, 121, 115, 99, 97, 108, 101]) {
        FigureColormap::Grayscale
    } else {
        FigureColormap::Viridis
    }
}

/// Selects a theme by its name: `Dark`, anything else Light.
pub fn theme_of(name: &str) -> (r: FigureTheme)
    ensures
        r == (if name.spec_bytes() == seq![68u8, 97, 114, 107] {
            FigureTheme::Dark
        } else {
            FigureTheme::Light
        }),
{
    if bytes_are(name, &[68u8, 97, 114, 107]) {
        FigureTheme::Dark
    } else {
        FigureTheme::Light
    }
}

/// The export format a lower-case name selects, if any.
pub open spec fn format_named(name: Seq<u8>) -> Option<FigureFormat> {
    if name == seq![115u8, 118, 103] {
        Some(FigureFormat::Svg)
    } else if name == seq![112u8, 110, 103] {
        Some(FigureFormat::Png)
    } else if name == seq![112u8, 100, 102] {
        Some(FigureFormat::Pdf)
    } else if name == seq![118u8, 101, 103, 97] {
        Some(FigureFormat::Vega)
    } else if name == seq![116u8, 105, 107, 122] {
        Some(FigureFormat::Tikz)
    } else if name == seq![116u8, 121, 112, 115, 116] {
        Some(FigureFormat::Typst)
    } else if name == seq![112u8, 121, 116, 104, 111, 110] {
        Some(FigureFormat::Python)
    } else if name == seq![114u8] {
        Some(FigureFormat::R)
    } else if name == seq![106u8, 117, 108, 105, 97] {
        Some(FigureFormat::Julia)
    } else if name == seq![103u8, 114, 97, 112, 104, 109, 108] {
        Some(FigureFormat::Graphml)
    } else {
        None
    }
}

/// The refusal text for an unknown format name.
fn unknown_format_message(name: &str) -> (r: String)
    ensures
        r@ == "unknown figure format: "@ + name@,
{
    let mut s = String::from_str("unknown figure format: ");
    s.append(name);
    s
}

/// Parses an export format from its lower-case name (`svg`, `png`, `pdf`,
/// `vega`, `tikz`, `typst`, `python`, `r`, `julia`, `graphml`).
pub fn parse_format(name: &str) -> (r: Result<FigureFormat, String>)
    ensures
        match format_named(name.spec_bytes()) {
            Some(f) => r == Ok::<FigureFormat, String>(f),
            None => r matches Err(m) && m@ == "unknown figure format: "@ + name@,
        },
{
    let wsvg = [115u8, 118, 103];
    assert(wsvg@ =~= seq![115u8, 118, 103]);
    if bytes_are(name, &wsvg) {
        return Ok(FigureFormat::Svg);
    }
    let wpng = [112u8, 110, 103];
    assert(wpng@ =~= seq![112u8, 110, 103]);
    if bytes_are(name, &wpng) {
        return Ok(FigureFormat::Png);
    }
    let wpdf = [112u8, 100, 102];
    assert(wpdf@ =~= seq![112u8, 100, 102]);
    if bytes_are(name, &wpdf) {
        return Ok(FigureFormat::Pdf);
    }
    let wvega = [118u8, 101, 103, 97];
    assert(wvega@ =~= seq![118u8, 101, 103, 97]);
    if bytes_are(name, &wvega) {
        return Ok(FigureFormat::Vega);
    }
    let wtikz = [116u8, 105, 107, 122];
    assert(wtikz@ =~= seq![116u8, 105, 107, 122]);
    if bytes_are(name, &wtikz) {
        return Ok(FigureFormat::Tikz);
    }
    let wtypst = [116u8, 121, 112, 115, 116];
    assert(wtypst@ =~= seq![116u8, 121, 112, 115, 116]);
    if bytes_are(name, &wtypst) {
        return Ok(FigureFormat::Typst);
    }
    let wpython = [112u8, 121, 116, 104, 111, 110];
    assert(wpython@ =~= seq![112u8, 121, 116, 104, 111, 110]);
    if bytes_are(name, &wpython) {
        return Ok(FigureFormat::Python);
    }
    let wr = [114u8];
    assert(wr@ =~= seq![114u8]);
    if bytes_are(name, &wr) {
        return Ok(FigureFormat::R);
    }
    let wjulia = [106u8, 117, 108, 105, 97];
    assert(wjulia@ =~= seq![106u8, 117, 108, 105, 97]);
    if bytes_are(name, &wjulia) {
        return Ok(FigureFormat::Julia);
    }
    let wgraphml = [103u8, 114, 97, 112, 104, 109, 108];
    assert(wgraphml@ =~= seq![103u8, 114, 97, 112, 104, 109, 108]);
    if bytes_are(name, &wgraphml) {
        return Ok(FigureFormat::Graphml);
    }
    Err(unknown_format_message(name))
}
} // verus!
