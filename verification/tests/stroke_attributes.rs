use rnote::color::XoppColor;
use rnote::error::XoppError;
use rnote::xml::XmlDocument;
use rnote::xopp::{stroke_color_attribute, stroke_fill, stroke_tool, text_size, XoppTool};

fn root(xml: &str) -> (XmlDocument, usize) {
    let doc = XmlDocument::parse(xml).unwrap();
    let root = doc.root_element().unwrap();
    (doc, root)
}

fn missing(attribute: &str) -> XoppError {
    XoppError::MissingAttribute { node_id: 1, attribute: attribute.to_string() }
}

fn invalid(attribute: &str) -> XoppError {
    XoppError::InvalidAttributeValue { node_id: 1, attribute: attribute.to_string() }
}

#[test]
fn tool_attribute() {
    let (doc, r) = root(r#"<stroke tool="highlighter"/>"#);
    assert_eq!(stroke_tool(&doc.nodes[r], XoppTool::Pen), Ok(XoppTool::Highlighter));
    // an unknown tool keeps the current one
    let (doc, r) = root(r#"<stroke tool="brush"/>"#);
    assert_eq!(stroke_tool(&doc.nodes[r], XoppTool::Eraser), Ok(XoppTool::Eraser));
    let (doc, r) = root(r#"<stroke/>"#);
    assert_eq!(stroke_tool(&doc.nodes[r], XoppTool::Pen), Err(missing("tool")));
}

#[test]
fn color_attribute() {
    let (doc, r) = root(r##"<stroke color="#00ff00ff"/>"##);
    assert_eq!(
        stroke_color_attribute(&doc.nodes[r]),
        Ok(XoppColor { red: 0, green: 0xff, blue: 0, alpha: 0xff })
    );
    let (doc, r) = root(r#"<stroke color="magenta"/>"#);
    assert_eq!(
        stroke_color_attribute(&doc.nodes[r]),
        Ok(XoppColor { red: 0xff, green: 0, blue: 0xff, alpha: 0xff })
    );
    let (doc, r) = root(r#"<stroke/>"#);
    assert_eq!(stroke_color_attribute(&doc.nodes[r]), Err(missing("color")));
    let (doc, r) = root(r#"<stroke color="nope"/>"#);
    assert_eq!(stroke_color_attribute(&doc.nodes[r]), Err(XoppError::InvalidColorValue));
}

#[test]
fn fill_attribute() {
    let (doc, r) = root(r#"<stroke fill="255"/>"#);
    assert_eq!(stroke_fill(&doc.nodes[r]), Ok(Some(255)));
    let (doc, r) = root(r#"<stroke fill="-3"/>"#);
    assert_eq!(stroke_fill(&doc.nodes[r]), Ok(Some(-3)));
    let (doc, r) = root(r#"<stroke/>"#);
    assert_eq!(stroke_fill(&doc.nodes[r]), Ok(None));
    let (doc, r) = root(r#"<stroke fill="0.5"/>"#);
    assert_eq!(stroke_fill(&doc.nodes[r]), Err(invalid("fill")));
}

#[test]
fn size_attribute() {
    let (doc, r) = root(r#"<text size="12"/>"#);
    assert_eq!(text_size(&doc.nodes[r]), Ok(12));
    let (doc, r) = root(r#"<text/>"#);
    assert_eq!(text_size(&doc.nodes[r]), Err(missing("size")));
    let (doc, r) = root(r#"<text size="-12"/>"#);
    assert_eq!(text_size(&doc.nodes[r]), Err(invalid("size")));
}
