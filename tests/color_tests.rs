use colorgram::{rgb_to_hsl, Color, Hsl, Rgb};

#[test]
fn test_rgb_to_hsl() {
    let rgb = Rgb { r: 0, g: 0, b: 0 };
    let hsl = rgb_to_hsl(&rgb);
    assert_eq!(hsl, Hsl { h: 0, s: 0, l: 0 });

    let rgb = Rgb {
        r: 255,
        g: 255,
        b: 255,
    };
    let hsl = rgb_to_hsl(&rgb);
    assert_eq!(hsl, Hsl { h: 0, s: 0, l: 255 });

    let rgb = Rgb {
        r: 100,
        g: 20,
        b: 30,
    };
    let hsl = rgb_to_hsl(&rgb);
    assert_eq!(
        hsl,
        Hsl {
            h: 249,
            s: 170,
            l: 60
        }
    );
}

#[test]
fn grays_have_no_hue_or_saturation() {
    for v in [0u8, 1, 64, 127, 128, 200, 255] {
        let hsl = rgb_to_hsl(&Rgb { r: v, g: v, b: v });
        assert_eq!(hsl, Hsl { h: 0, s: 0, l: v });
    }
}

#[test]
fn hue_uses_truncating_division() {
    // (163 - 101) * 255 / 113 truncates to 139; lightness 157 takes the
    // upper saturation branch.
    let hsl = rgb_to_hsl(&Rgb { r: 214, g: 163, b: 101 });
    assert_eq!(hsl, Hsl { h: 23, s: 147, l: 157 });
}

#[test]
fn hue_by_dominant_channel() {
    assert_eq!(rgb_to_hsl(&Rgb { r: 255, g: 0, b: 0 }), Hsl { h: 0, s: 255, l: 127 });
    assert_eq!(rgb_to_hsl(&Rgb { r: 0, g: 255, b: 0 }), Hsl { h: 85, s: 255, l: 127 });
    assert_eq!(rgb_to_hsl(&Rgb { r: 0, g: 0, b: 255 }), Hsl { h: 170, s: 255, l: 127 });
    // Dominant red with green below blue wraps through the 1530 offset.
    assert_eq!(rgb_to_hsl(&Rgb { r: 255, g: 0, b: 10 }).h, 253);
    // Dominant green with blue below red: (0 - 10) * 255 / 255 + 510 = 500.
    assert_eq!(rgb_to_hsl(&Rgb { r: 10, g: 255, b: 0 }).h, 83);
}

#[test]
fn color_new_derives_hsl() {
    let c = Color::new(Rgb { r: 100, g: 20, b: 30 }, 3, 7);
    assert_eq!(c.hsl, Hsl { h: 249, s: 170, l: 60 });
    assert_eq!(c.rgb, Rgb { r: 100, g: 20, b: 30 });
    assert_eq!(c.weight, 3);
    assert_eq!(c.total_weight, 7);
}

#[test]
fn colors_as_text() {
    assert_eq!(Rgb { r: 214, g: 163, b: 101 }.to_string(), "rgb(214, 163, 101)");
    assert_eq!(Rgb { r: 0, g: 7, b: 255 }.to_string(), "rgb(0, 7, 255)");
    assert_eq!(Hsl { h: 23, s: 147, l: 157 }.to_string(), "hsl(23, 147, 157)");
    assert_eq!(Hsl { h: 100, s: 10, l: 9 }.to_string(), "hsl(100, 10, 9)");
}
