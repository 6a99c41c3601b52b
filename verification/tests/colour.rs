use cellular_automata::colour::{Rgba, RulesetColour};

#[test]
fn four_bytes_are_taken_as_they_are() {
    let colour = RulesetColour::Rgba(255, 0, 10, 128);
    assert_eq!(colour.rgba(), Rgba { r: 255, g: 0, b: 10, a: 128 });
    assert!(colour.is_resolvable());
}

#[test]
fn hex_text_writes_red_green_blue_and_opacity() {
    let colour = RulesetColour::Hex("#00ffffc2".to_string());
    assert_eq!(colour.resolve(), Some(Rgba { r: 0, g: 255, b: 255, a: 194 }));
    let colour = RulesetColour::Hex("#00FF00AA".to_string());
    assert_eq!(colour.rgba(), Rgba { r: 0, g: 255, b: 0, a: 170 });
    let colour = RulesetColour::Hex("#1a2B3c4D".to_string());
    assert_eq!(colour.rgba(), Rgba { r: 0x1a, g: 0x2b, b: 0x3c, a: 0x4d });
}

#[test]
fn other_text_is_transparent_black() {
    let black = Rgba { r: 0, g: 0, b: 0, a: 0 };
    for text in ["#00FF00", "", "#", "00FF00AAB", "#00FF00AAB", "#GG0000FF", "#+f+f+f+f", "#ffffffé"] {
        let colour = RulesetColour::Hex(text.to_string());
        assert_eq!(colour.resolve(), None, "{}", text);
        assert!(!colour.is_resolvable());
        assert_eq!(colour.rgba(), black);
    }
}

#[test]
fn a_copy_is_equal() {
    let colour = RulesetColour::Hex("#00FF0000".to_string());
    assert_eq!(colour.clone(), colour);
}
