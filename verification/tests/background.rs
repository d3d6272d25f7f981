use rnote::color::XoppColor;
use rnote::error::XoppError;
use rnote::xml::XmlDocument;
use rnote::xopp::{
    XoppBackground, XoppBackgroundPixmapDomain, XoppBackgroundSolidStyle, XoppBackgroundType,
    XoppTool,
};

fn load(xml: &str) -> (Result<(), XoppError>, XoppBackground) {
    let doc = XmlDocument::parse(xml).unwrap();
    let root = doc.root_element().unwrap();
    let mut bg = XoppBackground::default();
    let res = bg.load_from_xml(&doc.nodes[root]);
    (res, bg)
}

fn is_solid(bg: &XoppBackground, color: XoppColor, style: XoppBackgroundSolidStyle) -> bool {
    match &bg.bg_type {
        XoppBackgroundType::Solid { color: c, style: s } => *c == color && *s == style,
        _ => false,
    }
}

#[test]
fn defaults() {
    assert_eq!(XoppTool::default(), XoppTool::Pen);
    assert_eq!(XoppBackgroundSolidStyle::default(), XoppBackgroundSolidStyle::Plain);
    assert_eq!(XoppBackgroundPixmapDomain::default(), XoppBackgroundPixmapDomain::Absolute);
    let bg = XoppBackground::default();
    assert_eq!(bg.name, None);
    assert!(is_solid(
        &bg,
        XoppColor { red: 0, green: 0, blue: 0, alpha: 0xff },
        XoppBackgroundSolidStyle::Plain
    ));
}

#[test]
fn attr_values() {
    assert_eq!(XoppTool::Pen.as_xml_attr_value(), "pen");
    assert_eq!(XoppTool::Highlighter.as_xml_attr_value(), "highlighter");
    assert_eq!(XoppTool::Eraser.as_xml_attr_value(), "eraser");
    assert_eq!(XoppTool::from_xml_attr_value("eraser"), Some(XoppTool::Eraser));
    assert_eq!(XoppTool::from_xml_attr_value("pencil"), None);
    assert_eq!(XoppBackgroundSolidStyle::Graph.as_xml_attr_value(), "graph");
    assert_eq!(
        XoppBackgroundSolidStyle::from_xml_attr_value("ruled"),
        Some(XoppBackgroundSolidStyle::Ruled)
    );
    assert_eq!(XoppBackgroundSolidStyle::from_xml_attr_value("Ruled"), None);
    assert_eq!(XoppBackgroundPixmapDomain::Clone.as_xml_attr_value(), "clone");
    assert_eq!(
        XoppBackgroundPixmapDomain::from_xml_attr_value("attach"),
        Some(XoppBackgroundPixmapDomain::Attach)
    );
}

#[test]
fn load_solid_background() {
    let (res, bg) = load(r#"<background name="pg" type="solid" color="blue" style="lined"/>"#);
    assert_eq!(res, Ok(()));
    assert_eq!(bg.name.as_deref(), Some("pg"));
    assert!(is_solid(
        &bg,
        XoppColor { red: 0xa0, green: 0xe8, blue: 0xff, alpha: 0xff },
        XoppBackgroundSolidStyle::Lined
    ));
}

#[test]
fn load_pixmap_and_pdf_background() {
    let (res, bg) = load(r#"<background type="pixmap" domain="attach" filename="a.png"/>"#);
    assert_eq!(res, Ok(()));
    assert_eq!(bg.name, None);
    match &bg.bg_type {
        XoppBackgroundType::Pixmap { domain, filename } => {
            assert_eq!(*domain, XoppBackgroundPixmapDomain::Attach);
            assert_eq!(filename, "a.png");
        }
        _ => panic!("expected a pixmap background"),
    }
    let (res, bg) = load(r#"<background type="pdf"/>"#);
    assert_eq!(res, Ok(()));
    assert!(matches!(bg.bg_type, XoppBackgroundType::Pdf));
}

#[test]
fn load_background_errors() {
    let (res, bg) = load(r#"<background name="n" style="lined"/>"#);
    assert_eq!(
        res,
        Err(XoppError::MissingAttribute { node_id: 1, attribute: "type".to_string() })
    );
    // the name is taken even when the type fails, the type stays
    assert_eq!(bg.name.as_deref(), Some("n"));
    assert!(matches!(bg.bg_type, XoppBackgroundType::Solid { .. }));

    let (res, _) = load(r#"<background type="checkered"/>"#);
    assert_eq!(
        res,
        Err(XoppError::InvalidAttributeValue { node_id: 1, attribute: "type".to_string() })
    );
    let (res, _) = load(r#"<background type="solid" color="white"/>"#);
    assert_eq!(
        res,
        Err(XoppError::MissingAttribute { node_id: 1, attribute: "style".to_string() })
    );
    let (res, _) = load(r#"<background type="solid" style="dotted" color="white"/>"#);
    assert_eq!(
        res,
        Err(XoppError::InvalidAttributeValue { node_id: 1, attribute: "style".to_string() })
    );
    let (res, _) = load(r#"<background type="solid" style="plain"/>"#);
    assert_eq!(
        res,
        Err(XoppError::MissingAttribute { node_id: 1, attribute: "color".to_string() })
    );
    let (res, _) = load(r#"<background type="solid" style="plain" color="teal"/>"#);
    assert_eq!(res, Err(XoppError::InvalidColorValue));
    let (res, _) = load(r#"<background type="pixmap" filename="x"/>"#);
    assert_eq!(
        res,
        Err(XoppError::MissingAttribute { node_id: 1, attribute: "domain".to_string() })
    );
    let (res, _) = load(r#"<background type="pixmap" domain="remote" filename="x"/>"#);
    assert_eq!(
        res,
        Err(XoppError::InvalidAttributeValue { node_id: 1, attribute: "domain".to_string() })
    );
    let (res, _) = load(r#"<background type="pixmap" domain="clone"/>"#);
    assert_eq!(
        res,
        Err(XoppError::MissingAttribute { node_id: 1, attribute: "filename".to_string() })
    );
}

#[test]
fn namespaced_attribute_is_not_found() {
    let (res, _) =
        load(r#"<background xmlns:x="urn:x" x:type="pdf"/>"#);
    assert_eq!(
        res,
        Err(XoppError::MissingAttribute { node_id: 1, attribute: "type".to_string() })
    );
}

fn written(bg: &XoppBackground) -> String {
    let mut w = xmlwriter::XmlWriter::new(xmlwriter::Options::default());
    bg.write_to_xml(&mut w);
    w.end_document()
}

#[test]
fn write_background() {
    let bg = XoppBackground {
        name: Some("page".to_string()),
        bg_type: XoppBackgroundType::Solid {
            color: XoppColor { red: 0xff, green: 0xff, blue: 0xff, alpha: 0xff },
            style: XoppBackgroundSolidStyle::Graph,
        },
    };
    assert_eq!(
        written(&bg),
        "<background name=\"page\" type=\"solid\" color=\"#ffffffff\" style=\"graph\"/>\n"
    );
    let bg = XoppBackground { name: None, bg_type: XoppBackgroundType::Pdf };
    assert_eq!(written(&bg), "<background type=\"pdf\"/>\n");
}

#[test]
fn background_roundtrip() {
    let bgs = [
        XoppBackground {
            name: Some("a".to_string()),
            bg_type: XoppBackgroundType::Pixmap {
                domain: XoppBackgroundPixmapDomain::Clone,
                filename: "img.png".to_string(),
            },
        },
        XoppBackground {
            name: None,
            bg_type: XoppBackgroundType::Solid {
                color: XoppColor { red: 1, green: 2, blue: 3, alpha: 4 },
                style: XoppBackgroundSolidStyle::Ruled,
            },
        },
    ];
    for bg in bgs.iter() {
        let (res, back) = load(&written(bg));
        assert_eq!(res, Ok(()));
        assert_eq!(back.xml_attributes(), bg.xml_attributes());
    }
}

#[test]
fn attr_value_roundtrips() {
    for t in [XoppTool::Pen, XoppTool::Highlighter, XoppTool::Eraser] {
        assert_eq!(XoppTool::from_xml_attr_value(&t.as_xml_attr_value()), Some(t));
    }
    for s in [
        XoppBackgroundSolidStyle::Plain,
        XoppBackgroundSolidStyle::Lined,
        XoppBackgroundSolidStyle::Ruled,
        XoppBackgroundSolidStyle::Graph,
    ] {
        assert_eq!(XoppBackgroundSolidStyle::from_xml_attr_value(&s.as_xml_attr_value()), Some(s));
    }
    for d in [
        XoppBackgroundPixmapDomain::Absolute,
        XoppBackgroundPixmapDomain::Attach,
        XoppBackgroundPixmapDomain::Clone,
    ] {
        assert_eq!(
            XoppBackgroundPixmapDomain::from_xml_attr_value(&d.as_xml_attr_value()),
            Some(d)
        );
    }
}

#[test]
fn write_background_type_attributes() {
    let t = XoppBackgroundType::Pixmap {
        domain: XoppBackgroundPixmapDomain::Absolute,
        filename: "a\"b.png".to_string(),
    };
    let mut w = xmlwriter::XmlWriter::new(xmlwriter::Options::default());
    w.start_element("background");
    t.write_to_xml(&mut w);
    assert_eq!(
        w.end_document(),
        "<background type=\"pixmap\" domain=\"absolute\" filename=\"a&quot;b.png\"/>\n"
    );
}

#[test]
fn write_background_with_other_writer_options() {
    let opt = xmlwriter::Options {
        use_single_quote: true,
        indent: xmlwriter::Indent::Tabs,
        attributes_indent: xmlwriter::Indent::Spaces(2),
    };
    let mut w = xmlwriter::XmlWriter::new(opt);
    w.start_element("page");
    let bg = XoppBackground { name: Some("it's".to_string()), bg_type: XoppBackgroundType::Pdf };
    bg.write_to_xml(&mut w);
    assert_eq!(
        w.end_document(),
        "<page>\n\t<background\n\t  name='it&apos;s'\n\t  type='pdf'/>\n</page>\n"
    );
}
