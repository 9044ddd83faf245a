use panier::theme::{boot_critical_css, inter_font_face_css, BOOT_BG, BOOT_BG_RGBA, FONT_STACK};

#[test]
fn unit_boot_background_matches_its_rgba_form() {
    let (r, g, b, a) = BOOT_BG_RGBA;
    assert_eq!(BOOT_BG, format!("#{r:02x}{g:02x}{b:02x}"));
    assert_eq!(a, 0xff);
}

#[test]
fn boot_css_paints_the_app_colours() {
    assert_eq!(
        boot_critical_css(),
        format!("html,body{{margin:0;background:#0f1419;color:#e6edf3;font-family:{FONT_STACK};}}")
    );
}

#[test]
fn font_faces_cover_both_subsets_in_both_styles() {
    let css = inter_font_face_css("/assets/fonts-abc");
    assert_eq!(css.matches("@font-face{").count(), 4);
    assert!(css.starts_with(
        "@font-face{font-family:'Inter';font-style:normal;font-weight:100 900;font-display:swap;src:url('/assets/fonts-abc/inter-latin-normal.woff2') format('woff2');unicode-range:U+0000-00FF,"
    ));
    assert!(css.contains("/inter-latin-ext-italic.woff2"));
    assert!(css.ends_with("U+A720-A7FF;}"));
}
