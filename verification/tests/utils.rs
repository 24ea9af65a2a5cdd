use sqp::utils::answer_decision;
use sqp::utils::assumed_decision;
use sqp::utils::color_format;
use sqp::utils::Assume;
use sqp::ColorFormat;

#[test]
fn color_formats_are_named() {
    assert_eq!(color_format("rgba8"), Ok(ColorFormat::Rgba8));
    assert_eq!(color_format("rgb8"), Ok(ColorFormat::Rgb8));
    assert_eq!(color_format("graya8"), Ok(ColorFormat::GrayA8));
    assert_eq!(color_format("gray8"), Ok(ColorFormat::Gray8));
}

#[test]
fn color_format_names_ignore_case() {
    assert_eq!(color_format("RGBA8"), Ok(ColorFormat::Rgba8));
    assert_eq!(color_format("Rgb8"), Ok(ColorFormat::Rgb8));
    assert_eq!(color_format("GrayA8"), Ok(ColorFormat::GrayA8));
    assert_eq!(color_format("gRAY8"), Ok(ColorFormat::Gray8));
}

#[test]
fn unknown_color_formats_are_refused() {
    assert_eq!(color_format(""), Err("Invalid color format ".to_string()));
    assert_eq!(color_format("rgba"), Err("Invalid color format rgba".to_string()));
    assert_eq!(color_format("rgba88"), Err("Invalid color format rgba88".to_string()));
    assert_eq!(color_format("RGBA16"), Err("Invalid color format RGBA16".to_string()));
    assert_eq!(color_format(" gray8"), Err("Invalid color format  gray8".to_string()));
    assert_eq!(color_format("`gba8"), Err("Invalid color format `gba8".to_string()));
    assert_eq!(color_format("gr\u{e4}y8"), Err("Invalid color format gr\u{e4}y8".to_string()));
    // The Kelvin sign has `k` as its lower case, but it is not ASCII.
    assert_eq!(color_format("r\u{212a}ba8"), Err("Invalid color format r\u{212a}ba8".to_string()));
}

#[test]
fn what_is_granted_decides() {
    assert_eq!(assumed_decision(Some(Assume::Yes)), Some(true));
    assert_eq!(assumed_decision(Some(Assume::No)), Some(false));
    assert_eq!(assumed_decision(None), None);
}

#[test]
fn answers_decide() {
    assert_eq!(answer_decision("y"), Some(true));
    assert_eq!(answer_decision("Y"), Some(true));
    assert_eq!(answer_decision(""), Some(false));
    assert_eq!(answer_decision("n"), None);
    assert_eq!(answer_decision("yes"), None);
    assert_eq!(answer_decision(" "), None);
    assert_eq!(answer_decision("yy"), None);
}
