//! The handful of constants and style rules the first paint needs, before the
//! stylesheet arrives.
use vstd::prelude::*;

verus! {

/// Background of the very first paint, before any stylesheet applies. Kept in sync
/// by hand with `--bg` in the stylesheet; it is a literal here because this is what
/// the webview shows *before* that file is parsed.
pub const BOOT_BG: &'static str = "#0f1419";

pub const BOOT_TEXT: &'static str = "#e6edf3";

/// [`BOOT_BG`] as the window wants it — the colour the native window is painted
/// before it has a document at all. A test keeps the two in step.
pub const BOOT_BG_RGBA: (u8, u8, u8, u8) = (0x0f, 0x14, 0x19, 0xff);

/// The UI font stack: Inter first (bundled), then the system faces it most
/// resembles, so text laid out before the face is ready still looks like the app.
pub const FONT_STACK: &'static str = "'Inter', 'Segoe UI', Roboto, 'Helvetica Neue', Arial, system-ui, sans-serif";

/// Unicode ranges of the `latin` Inter subset (English).
pub const LATIN: &'static str = "U+0000-00FF, U+0131, U+0152-0153, U+02BB-02BC, U+02C6, U+02DA, U+02DC, U+0304, U+0308, U+0329, U+2000-206F, U+20AC, U+2122, U+2191, U+2193, U+2212, U+2215, U+FEFF, U+FFFD";

/// Unicode ranges of the `latin-ext` Inter subset (the accents French needs).
pub const LATIN_EXT: &'static str = "U+0100-02BA, U+02BD-02C5, U+02C7-02CC, U+02CE-02D7, U+02DD-02FF, U+0304, U+0308, U+0329, U+1D00-1DBF, U+1E00-1E9F, U+1EF2-1EFF, U+2020, U+20A0-20AB, U+20AD-20C0, U+2113, U+2C60-2C7F, U+A720-A7FF";

/// One `@font-face` rule for an Inter file under `fonts_path`.
pub open spec fn font_face_rule(
    style: Seq<char>,
    subset: Seq<char>,
    range: Seq<char>,
    fonts_path: Seq<char>,
) -> Seq<char> {
    "@font-face{font-family:'Inter';font-style:"@ + style
        + ";font-weight:100 900;font-display:swap;src:url('"@ + fonts_path + "/inter-"@ + subset
        + "-"@ + style + ".woff2') format('woff2');unicode-range:"@ + range + ";}"@
}

/// The four rules [`inter_font_face_css`] writes: upright then italic, each in
/// `latin` then `latin-ext`.
pub open spec fn inter_css(fonts_path: Seq<char>) -> Seq<char> {
    font_face_rule("normal"@, "latin"@, LATIN@, fonts_path) + font_face_rule(
        "normal"@,
        "latin-ext"@,
        LATIN_EXT@,
        fonts_path,
    ) + font_face_rule("italic"@, "latin"@, LATIN@, fonts_path) + font_face_rule(
        "italic"@,
        "latin-ext"@,
        LATIN_EXT@,
        fonts_path,
    )
}

fn push_font_face(s: &mut String, style: &str, subset: &str, range: &str, fonts_path: &str)
    ensures
        final(s)@ == old(s)@ + font_face_rule(style@, subset@, range@, fonts_path@),
{
    let ghost start = s@;
    s.append("@font-face{font-family:'Inter';font-style:");
    s.append(style);
    s.append(";font-weight:100 900;font-display:swap;src:url('");
    s.append(fonts_path);
    s.append("/inter-");
    s.append(subset);
    s.append("-");
    s.append(style);
    s.append(".woff2') format('woff2');unicode-range:");
    s.append(range);
    s.append(";}");
    assert(s@ =~= start + font_face_rule(style@, subset@, range@, fonts_path@));
}

/// `@font-face` rules for the bundled Inter files, whose folder is `fonts_path`.
///
/// Built in code rather than written into the stylesheet because the asset pipeline
/// content-hashes the folder name, so a hand-written `url()` inside a CSS file could
/// not resolve.
///
/// Two subsets: `latin` covers English, `latin-ext` the accented characters French
/// product names need. `swap` rather than `block`, so text is never invisible.
pub fn inter_font_face_css(fonts_path: &str) -> (css: String)
    ensures
        css@ == inter_css(fonts_path@),
{
    let mut css = String::new();
    push_font_face(&mut css, "normal", "latin", LATIN, fonts_path);
    push_font_face(&mut css, "normal", "latin-ext", LATIN_EXT, fonts_path);
    push_font_face(&mut css, "italic", "latin", LATIN, fonts_path);
    push_font_face(&mut css, "italic", "latin-ext", LATIN_EXT, fonts_path);
    assert(css@ =~= inter_css(fonts_path@));
    css
}

/// What [`boot_critical_css`] writes.
pub open spec fn boot_css() -> Seq<char> {
    "html,body{margin:0;background:"@ + BOOT_BG@ + ";color:"@ + BOOT_TEXT@ + ";font-family:"@
        + FONT_STACK@ + ";}"@
}

/// The smallest rule set that makes the window look like the app rather than a
/// blank page, inlined into the native clients' boot `<head>`: the stylesheet
/// arrives a beat later, and the gap used to show as a white flash.
pub fn boot_critical_css() -> (css: String)
    ensures
        css@ == boot_css(),
{
    let mut css = String::new();
    css.append("html,body{margin:0;background:");
    css.append(BOOT_BG);
    css.append(";color:");
    css.append(BOOT_TEXT);
    css.append(";font-family:");
    css.append(FONT_STACK);
    css.append(";}");
    assert(css@ =~= boot_css());
    css
}

} // verus!
