use rnote::color::XoppColor;
use rnote::error::XoppError;

fn rgba(red: u8, green: u8, blue: u8, alpha: u8) -> XoppColor {
    XoppColor { red, green, blue, alpha }
}

#[test]
fn stroke_color_names() {
    assert_eq!(XoppColor::from_strokecolor_attr_value("black"), Ok(rgba(0, 0, 0, 0xff)));
    assert_eq!(XoppColor::from_strokecolor_attr_value("blue"), Ok(rgba(0x33, 0x33, 0xcc, 0xff)));
    assert_eq!(XoppColor::from_strokecolor_attr_value("red"), Ok(rgba(0xff, 0, 0, 0xff)));
    assert_eq!(XoppColor::from_strokecolor_attr_value("green"), Ok(rgba(0, 0x80, 0, 0xff)));
    assert_eq!(XoppColor::from_strokecolor_attr_value("gray"), Ok(rgba(0x80, 0x80, 0x80, 0xff)));
    assert_eq!(
        XoppColor::from_strokecolor_attr_value("lightblue"),
        Ok(rgba(0x80, 0xc0, 0xff, 0xff))
    );
    assert_eq!(
        XoppColor::from_strokecolor_attr_value("lightgreen"),
        Ok(rgba(0, 0xff, 0, 0xff))
    );
    assert_eq!(XoppColor::from_strokecolor_attr_value("magenta"), Ok(rgba(0xff, 0, 0xff, 0xff)));
    assert_eq!(XoppColor::from_strokecolor_attr_value("orange"), Ok(rgba(0xff, 0x80, 0, 0xff)));
    assert_eq!(
        XoppColor::from_strokecolor_attr_value("yellow"),
        Ok(rgba(0xff, 0xff, 0xf0, 0xff))
    );
    assert_eq!(XoppColor::from_strokecolor_attr_value("white"), Ok(rgba(0xff, 0xff, 0xff, 0xff)));
}

#[test]
fn background_color_names() {
    assert_eq!(
        XoppColor::from_backgroundcolor_attr_value("white"),
        Ok(rgba(0xff, 0xff, 0xff, 0xff))
    );
    assert_eq!(
        XoppColor::from_backgroundcolor_attr_value("blue"),
        Ok(rgba(0xa0, 0xe8, 0xff, 0xff))
    );
    assert_eq!(
        XoppColor::from_backgroundcolor_attr_value("pink"),
        Ok(rgba(0xff, 0xc0, 0xd4, 0xff))
    );
    assert_eq!(
        XoppColor::from_backgroundcolor_attr_value("green"),
        Ok(rgba(0x80, 0xff, 0xc0, 0xff))
    );
    assert_eq!(
        XoppColor::from_backgroundcolor_attr_value("orange"),
        Ok(rgba(0xff, 0xc0, 0x80, 0xff))
    );
    assert_eq!(
        XoppColor::from_backgroundcolor_attr_value("yellow"),
        Ok(rgba(0xff, 0xff, 0x80, 0xff))
    );
    // a stroke color name is no background color name
    assert_eq!(
        XoppColor::from_backgroundcolor_attr_value("black"),
        Err(XoppError::InvalidColorValue)
    );
}

#[test]
fn hex_colors() {
    assert_eq!(
        XoppColor::from_hexcolor_attr_value("#11223344"),
        Ok(rgba(0x11, 0x22, 0x33, 0x44))
    );
    assert_eq!(
        XoppColor::from_strokecolor_attr_value("#ff0000ff"),
        Ok(rgba(0xff, 0, 0, 0xff))
    );
    assert_eq!(
        XoppColor::from_hexcolor_attr_value("  #AbCdEf01\n"),
        Ok(rgba(0xab, 0xcd, 0xef, 0x01))
    );
    // every '#' is dropped, not only the first
    assert_eq!(
        XoppColor::from_hexcolor_attr_value("#12#345678"),
        Ok(rgba(0x12, 0x34, 0x56, 0x78))
    );
    // fewer digits are a smaller number: the leading channels are zero
    assert_eq!(XoppColor::from_hexcolor_attr_value("#ff"), Ok(rgba(0, 0, 0, 0xff)));
    // a plus sign is accepted, as u32::from_str_radix does
    assert_eq!(XoppColor::from_hexcolor_attr_value("+ff"), Ok(rgba(0, 0, 0, 0xff)));
    // leading zeros do not overflow
    assert_eq!(
        XoppColor::from_hexcolor_attr_value("000000000001"),
        Ok(rgba(0, 0, 0, 1))
    );
    // unicode whitespace is trimmed
    assert_eq!(
        XoppColor::from_hexcolor_attr_value("\u{3000}#00000002\u{2009}"),
        Ok(rgba(0, 0, 0, 2))
    );
}

#[test]
fn invalid_colors() {
    let err = Err(XoppError::InvalidColorValue);
    assert_eq!(XoppColor::from_hexcolor_attr_value(""), err);
    assert_eq!(XoppColor::from_hexcolor_attr_value("#"), err);
    assert_eq!(XoppColor::from_hexcolor_attr_value("  "), err);
    assert_eq!(XoppColor::from_hexcolor_attr_value("+"), err);
    assert_eq!(XoppColor::from_hexcolor_attr_value("-ff"), err);
    assert_eq!(XoppColor::from_hexcolor_attr_value("#1122334455"), err);
    assert_eq!(XoppColor::from_hexcolor_attr_value("#gg0000ff"), err);
    assert_eq!(XoppColor::from_hexcolor_attr_value("#ff 00"), err);
    assert_eq!(XoppColor::from_strokecolor_attr_value("Black"), err);
    assert_eq!(XoppColor::from_strokecolor_attr_value(" black"), err);
    assert_eq!(XoppColor::from_strokecolor_attr_value("pink"), err);
}

#[test]
fn color_attr_value_format() {
    assert_eq!(rgba(0x11, 0x22, 0x33, 0x44).as_xml_attr_value(), "#11223344");
    assert_eq!(rgba(0xab, 0x0c, 0xff, 0x00).as_xml_attr_value(), "#ab0cff00");
    assert_eq!(XoppColor::default().as_xml_attr_value(), "#00000000");
}

#[test]
fn color_roundtrip() {
    for c in [
        rgba(0, 0, 0, 0),
        rgba(0xff, 0xff, 0xff, 0xff),
        rgba(0x12, 0xa0, 0x07, 0x80),
    ] {
        let s = c.as_xml_attr_value();
        assert_eq!(XoppColor::from_hexcolor_attr_value(&s), Ok(c));
        assert_eq!(XoppColor::from_strokecolor_attr_value(&s), Ok(c));
        assert_eq!(XoppColor::from_backgroundcolor_attr_value(&s), Ok(c));
    }
}

#[test]
fn hex_text_roundtrip() {
    for s in ["#a1b2c3d4", "#00000000", "#ffffffff", "#0f1e2d3c"] {
        assert_eq!(XoppColor::from_hexcolor_attr_value(s).unwrap().as_xml_attr_value(), s);
    }
}
