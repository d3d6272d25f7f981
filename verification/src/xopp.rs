//! The page backgrounds and stroke tools of the Xournal++ `.xopp` format,
//! and how they are read from and written to XML.
use vstd::prelude::*;

use crate::color::{
    background_color, color_attr_value, lemma_background_color_roundtrip, XoppColor,
};
use crate::error::XoppError;
use crate::text::str_eq;
use crate::xml::{
    attribute_value, end_element, is_invalid_attribute, is_missing_attribute, start_element,
    write_attribute, xml_writer_model, xml_writer_output, after_end_element, after_start_element,
    attributes_bytes, start_element_bytes, XmlAttributeModel, XmlNode,
};
use vstd::string::StringExecFns;

verus! {

// ---------------------------------------------------------------------------
// Stroke tools
// ---------------------------------------------------------------------------
/// A xopp stroke tool.
#[derive(Debug, Clone, Copy, PartialEq, Eq, Structural)]
pub enum XoppTool {
    /// the Xopp pen
    Pen,
    /// the Xopp highlighter ( alpha = 0.5 )
    Highlighter,
    /// the Xopp eraser
    Eraser,
}

impl Default for XoppTool {
    fn default() -> (t: Self)
        ensures
            t == XoppTool::Pen,
    {
        XoppTool::Pen
    }
}

/// The attribute value that names a tool.
pub open spec fn tool_attr_value(t: XoppTool) -> Seq<char> {
    match t {
        XoppTool::Pen => "pen"@,
        XoppTool::Highlighter => "highlighter"@,
        XoppTool::Eraser => "eraser"@,
    }
}

/// The tool that an attribute value names, if any.
pub open spec fn tool_from_attr(s: Seq<char>) -> Option<XoppTool> {
    if s == "pen"@ {
        Some(XoppTool::Pen)
    } else if s == "highlighter"@ {
        Some(XoppTool::Highlighter)
    } else if s == "eraser"@ {
        Some(XoppTool::Eraser)
    } else {
        None
    }
}

impl XoppTool {
    /// The tool as an XML attribute value.
    pub fn as_xml_attr_value(&self) -> (s: String)
        ensures
            s@ == tool_attr_value(*self),
            s@ == match *self {
                XoppTool::Pen => "pen"@,
                XoppTool::Highlighter => "highlighter"@,
                XoppTool::Eraser => "eraser"@,
            },
    {
        match self {
            XoppTool::Pen => String::from_str("pen"),
            XoppTool::Highlighter => String::from_str("highlighter"),
            XoppTool::Eraser => String::from_str("eraser"),
        }
    }

    /// The tool that an attribute value names; `None` for any other value.
    pub fn from_xml_attr_value(s: &str) -> (res: Option<XoppTool>)
        ensures
            res == tool_from_attr(s@),
            (s@ == "pen"@) == (res == Some(XoppTool::Pen)),
            (s@ == "highlighter"@) == (res == Some(XoppTool::Highlighter)),
            (s@ == "eraser"@) == (res == Some(XoppTool::Eraser)),
    {
        proof {
            lemma_tool_names(s@);
        }
        if str_eq(s, "pen") {
            Some(XoppTool::Pen)
        } else if str_eq(s, "highlighter") {
            Some(XoppTool::Highlighter)
        } else if str_eq(s, "eraser") {
            Some(XoppTool::Eraser)
        } else {
            None
        }
    }
}

/// The tool names of the format are `pen`, `highlighter`, `eraser`: each is written as its
/// name, and an attribute value is read as a tool exactly when it is
/// that one's name.
pub proof fn lemma_tool_names(s: Seq<char>)
    ensures
        tool_attr_value(XoppTool::Pen) == "pen"@,
        tool_attr_value(XoppTool::Highlighter) == "highlighter"@,
        tool_attr_value(XoppTool::Eraser) == "eraser"@,
        (s == "pen"@) == (tool_from_attr(s) == Some(XoppTool::Pen)),
        (s == "highlighter"@) == (tool_from_attr(s) == Some(XoppTool::Highlighter)),
        (s == "eraser"@) == (tool_from_attr(s) == Some(XoppTool::Eraser)),
{
    reveal_strlit("pen");
    reveal_strlit("highlighter");
    reveal_strlit("eraser");
    assert("pen"@.len() != "highlighter"@.len());
    assert("pen"@.len() != "eraser"@.len());
    assert("highlighter"@.len() != "eraser"@.len());
}

/// A written tool reads back as the same tool.
pub proof fn lemma_tool_roundtrip(t: XoppTool)
    ensures
        tool_from_attr(tool_attr_value(t)) == Some(t),
{
    reveal_strlit("pen");
    reveal_strlit("highlighter");
    reveal_strlit("eraser");
    assert("pen"@.len() != "highlighter"@.len());
    assert("pen"@.len() != "eraser"@.len());
    assert("eraser"@.len() != "highlighter"@.len());
}

// ---------------------------------------------------------------------------
// Solid background styles
// ---------------------------------------------------------------------------
/// The xopp background style.
#[derive(Debug, Clone, Copy, PartialEq, Eq, Structural)]
pub enum XoppBackgroundSolidStyle {
    /// The plain background style
    Plain,
    /// The lined background style
    Lined,
    /// The ruled background style
    Ruled,
    /// The graph background style
    Graph,
}

impl Default for XoppBackgroundSolidStyle {
    fn default() -> (s: Self)
        ensures
            s == XoppBackgroundSolidStyle::Plain,
    {
        XoppBackgroundSolidStyle::Plain
    }
}

/// The attribute value that names a background style.
pub open spec fn style_attr_value(s: XoppBackgroundSolidStyle) -> Seq<char> {
    match s {
        XoppBackgroundSolidStyle::Plain => "plain"@,
        XoppBackgroundSolidStyle::Lined => "lined"@,
        XoppBackgroundSolidStyle::Ruled => "ruled"@,
        XoppBackgroundSolidStyle::Graph => "graph"@,
    }
}

/// The background style that an attribute value names, if any.
pub open spec fn style_from_attr(s: Seq<char>) -> Option<XoppBackgroundSolidStyle> {
    if s == "plain"@ {
        Some(XoppBackgroundSolidStyle::Plain)
    } else if s == "lined"@ {
        Some(XoppBackgroundSolidStyle::Lined)
    } else if s == "ruled"@ {
        Some(XoppBackgroundSolidStyle::Ruled)
    } else if s == "graph"@ {
        Some(XoppBackgroundSolidStyle::Graph)
    } else {
        None
    }
}

impl XoppBackgroundSolidStyle {
    /// The style as an XML attribute value.
    pub fn as_xml_attr_value(&self) -> (s: String)
        ensures
            s@ == style_attr_value(*self),
            s@ == match *self {
                XoppBackgroundSolidStyle::Plain => "plain"@,
                XoppBackgroundSolidStyle::Lined => "lined"@,
                XoppBackgroundSolidStyle::Ruled => "ruled"@,
                XoppBackgroundSolidStyle::Graph => "graph"@,
            },
    {
        match self {
            XoppBackgroundSolidStyle::Plain => String::from_str("plain"),
            XoppBackgroundSolidStyle::Lined => String::from_str("lined"),
            XoppBackgroundSolidStyle::Ruled => String::from_str("ruled"),
            XoppBackgroundSolidStyle::Graph => String::from_str("graph"),
        }
    }

    /// The style that an attribute value names; `None` for any other value.
    pub fn from_xml_attr_value(s: &str) -> (res: Option<XoppBackgroundSolidStyle>)
        ensures
            res == style_from_attr(s@),
            (s@ == "plain"@) == (res == Some(XoppBackgroundSolidStyle::Plain)),
            (s@ == "lined"@) == (res == Some(XoppBackgroundSolidStyle::Lined)),
            (s@ == "ruled"@) == (res == Some(XoppBackgroundSolidStyle::Ruled)),
            (s@ == "graph"@) == (res == Some(XoppBackgroundSolidStyle::Graph)),
    {
        proof {
            lemma_style_names(s@);
        }
        if str_eq(s, "plain") {
            Some(XoppBackgroundSolidStyle::Plain)
        } else if str_eq(s, "lined") {
            Some(XoppBackgroundSolidStyle::Lined)
        } else if str_eq(s, "ruled") {
            Some(XoppBackgroundSolidStyle::Ruled)
        } else if str_eq(s, "graph") {
            Some(XoppBackgroundSolidStyle::Graph)
        } else {
            None
        }
    }
}

/// The solid background style names of the format are `plain`, `lined`, `ruled`, `graph`: each is written as its
/// name, and an attribute value is read as a solid background style exactly when it is
/// that one's name.
pub proof fn lemma_style_names(s: Seq<char>)
    ensures
        style_attr_value(XoppBackgroundSolidStyle::Plain) == "plain"@,
        style_attr_value(XoppBackgroundSolidStyle::Lined) == "lined"@,
        style_attr_value(XoppBackgroundSolidStyle::Ruled) == "ruled"@,
        style_attr_value(XoppBackgroundSolidStyle::Graph) == "graph"@,
        (s == "plain"@) == (style_from_attr(s) == Some(XoppBackgroundSolidStyle::Plain)),
        (s == "lined"@) == (style_from_attr(s) == Some(XoppBackgroundSolidStyle::Lined)),
        (s == "ruled"@) == (style_from_attr(s) == Some(XoppBackgroundSolidStyle::Ruled)),
        (s == "graph"@) == (style_from_attr(s) == Some(XoppBackgroundSolidStyle::Graph)),
{
    reveal_strlit("plain");
    reveal_strlit("lined");
    reveal_strlit("ruled");
    reveal_strlit("graph");
    assert("plain"@[0] != "lined"@[0]);
    assert("plain"@[0] != "ruled"@[0]);
    assert("plain"@[0] != "graph"@[0]);
    assert("lined"@[0] != "ruled"@[0]);
    assert("lined"@[0] != "graph"@[0]);
    assert("ruled"@[0] != "graph"@[0]);
}

/// A written background style reads back as the same style.
pub proof fn lemma_style_roundtrip(s: XoppBackgroundSolidStyle)
    ensures
        style_from_attr(style_attr_value(s)) == Some(s),
{
    reveal_strlit("plain");
    reveal_strlit("lined");
    reveal_strlit("ruled");
    reveal_strlit("graph");
    assert("plain"@[0] != "lined"@[0]);
    assert("plain"@[0] != "ruled"@[0]);
    assert("plain"@[0] != "graph"@[0]);
    assert("lined"@[0] != "ruled"@[0]);
    assert("lined"@[0] != "graph"@[0]);
    assert("ruled"@[0] != "graph"@[0]);
}

// ---------------------------------------------------------------------------
// Pixmap domains
// ---------------------------------------------------------------------------
/// The Xopp background pixmap domain.
#[derive(Debug, Clone, Copy, PartialEq, Eq, Structural)]
pub enum XoppBackgroundPixmapDomain {
    /// absolute
    Absolute,
    /// attach
    Attach,
    /// clone
    Clone,
}

impl Default for XoppBackgroundPixmapDomain {
    /// The default pixmap domain
    fn default() -> (d: Self)
        ensures
            d == XoppBackgroundPixmapDomain::Absolute,
    {
        XoppBackgroundPixmapDomain::Absolute
    }
}

/// The attribute value that names a pixmap domain.
pub open spec fn domain_attr_value(d: XoppBackgroundPixmapDomain) -> Seq<char> {
    match d {
        XoppBackgroundPixmapDomain::Absolute => "absolute"@,
        XoppBackgroundPixmapDomain::Attach => "attach"@,
        XoppBackgroundPixmapDomain::Clone => "clone"@,
    }
}

/// The pixmap domain that an attribute value names, if any.
pub open spec fn domain_from_attr(s: Seq<char>) -> Option<XoppBackgroundPixmapDomain> {
    if s == "absolute"@ {
        Some(XoppBackgroundPixmapDomain::Absolute)
    } else if s == "attach"@ {
        Some(XoppBackgroundPixmapDomain::Attach)
    } else if s == "clone"@ {
        Some(XoppBackgroundPixmapDomain::Clone)
    } else {
        None
    }
}

impl XoppBackgroundPixmapDomain {
    /// The domain as an XML attribute value.
    pub fn as_xml_attr_value(&self) -> (s: String)
        ensures
            s@ == domain_attr_value(*self),
            s@ == match *self {
                XoppBackgroundPixmapDomain::Absolute => "absolute"@,
                XoppBackgroundPixmapDomain::Attach => "attach"@,
                XoppBackgroundPixmapDomain::Clone => "clone"@,
            },
    {
        match self {
            XoppBackgroundPixmapDomain::Absolute => String::from_str("absolute"),
            XoppBackgroundPixmapDomain::Attach => String::from_str("attach"),
            XoppBackgroundPixmapDomain::Clone => String::from_str("clone"),
        }
    }

    /// The domain that an attribute value names; `None` for any other value.
    pub fn from_xml_attr_value(s: &str) -> (res: Option<XoppBackgroundPixmapDomain>)
        ensures
            res == domain_from_attr(s@),
            (s@ == "absolute"@) == (res == Some(XoppBackgroundPixmapDomain::Absolute)),
            (s@ == "attach"@) == (res == Some(XoppBackgroundPixmapDomain::Attach)),
            (s@ == "clone"@) == (res == Some(XoppBackgroundPixmapDomain::Clone)),
    {
        proof {
            lemma_domain_names(s@);
        }
        if str_eq(s, "absolute") {
            Some(XoppBackgroundPixmapDomain::Absolute)
        } else if str_eq(s, "attach") {
            Some(XoppBackgroundPixmapDomain::Attach)
        } else if str_eq(s, "clone") {
            Some(XoppBackgroundPixmapDomain::Clone)
        } else {
            None
        }
    }
}

/// The pixmap domain names of the format are `absolute`, `attach`, `clone`: each is written as its
/// name, and an attribute value is read as a pixmap domain exactly when it is
/// that one's name.
pub proof fn lemma_domain_names(s: Seq<char>)
    ensures
        domain_attr_value(XoppBackgroundPixmapDomain::Absolute) == "absolute"@,
        domain_attr_value(XoppBackgroundPixmapDomain::Attach) == "attach"@,
        domain_attr_value(XoppBackgroundPixmapDomain::Clone) == "clone"@,
        (s == "absolute"@) == (domain_from_attr(s) == Some(XoppBackgroundPixmapDomain::Absolute)),
        (s == "attach"@) == (domain_from_attr(s) == Some(XoppBackgroundPixmapDomain::Attach)),
        (s == "clone"@) == (domain_from_attr(s) == Some(XoppBackgroundPixmapDomain::Clone)),
{
    reveal_strlit("absolute");
    reveal_strlit("attach");
    reveal_strlit("clone");
    assert("absolute"@.len() != "attach"@.len());
    assert("absolute"@.len() != "clone"@.len());
    assert("attach"@.len() != "clone"@.len());
}

/// A written pixmap domain reads back as the same domain.
pub proof fn lemma_domain_roundtrip(d: XoppBackgroundPixmapDomain)
    ensures
        domain_from_attr(domain_attr_value(d)) == Some(d),
{
    reveal_strlit("absolute");
    reveal_strlit("attach");
    reveal_strlit("clone");
    assert("absolute"@.len() != "attach"@.len());
    assert("absolute"@.len() != "clone"@.len());
    assert("attach"@.len() != "clone"@.len());
}

// ---------------------------------------------------------------------------
// Backgrounds
// ---------------------------------------------------------------------------
/// Represents a Xopp background type.
#[derive(Debug, Clone)]
pub enum XoppBackgroundType {
    /// A solid background with a color and style
    Solid {
        /// The color
        color: XoppColor,
        /// The solid background style
        style: XoppBackgroundSolidStyle,
    },
    /// A background with a pixmap
    Pixmap {
        /// The domain for the pixmap
        domain: XoppBackgroundPixmapDomain,
        /// The filename that is to the image for the pixmap
        filename: String,
    },
    /// A background with a pdf ( NOT IMPLEMENTED )
    Pdf,
}

/// What a background type holds.
pub enum BackgroundTypeModel {
    Solid { color: XoppColor, style: XoppBackgroundSolidStyle },
    Pixmap { domain: XoppBackgroundPixmapDomain, filename: Seq<char> },
    Pdf,
}

impl View for XoppBackgroundType {
    type V = BackgroundTypeModel;

    open spec fn view(&self) -> BackgroundTypeModel {
        match self {
            XoppBackgroundType::Solid { color, style } => BackgroundTypeModel::Solid {
                color: *color,
                style: *style,
            },
            XoppBackgroundType::Pixmap { domain, filename } => BackgroundTypeModel::Pixmap {
                domain: *domain,
                filename: filename@,
            },
            XoppBackgroundType::Pdf => BackgroundTypeModel::Pdf,
        }
    }
}

/// The default background type: plain, opaque black.
pub open spec fn default_background_type() -> BackgroundTypeModel {
    BackgroundTypeModel::Solid {
        color: XoppColor { red: 0, green: 0, blue: 0, alpha: 0xff },
        style: XoppBackgroundSolidStyle::Plain,
    }
}

impl Default for XoppBackgroundType {
    fn default() -> (t: Self)
        ensures
            t@ == default_background_type(),
    {
        XoppBackgroundType::Solid {
            color: XoppColor { red: 0, green: 0, blue: 0, alpha: 0xff },
            style: XoppBackgroundSolidStyle::Plain,
        }
    }
}

/// The Xopp background.
#[derive(Debug, Clone)]
pub struct XoppBackground {
    /// Optional background name
    pub name: Option<String>,
    /// The background type
    pub bg_type: XoppBackgroundType,
}

/// What a background holds.
pub struct BackgroundModel {
    pub name: Option<Seq<char>>,
    pub bg_type: BackgroundTypeModel,
}

impl View for XoppBackground {
    type V = BackgroundModel;

    open spec fn view(&self) -> BackgroundModel {
        BackgroundModel { name: crate::xml::opt_chars(self.name), bg_type: self.bg_type@ }
    }
}

impl Default for XoppBackground {
    fn default() -> (b: Self)
        ensures
            b@ == (BackgroundModel { name: None, bg_type: default_background_type() }),
    {
        XoppBackground { name: None, bg_type: XoppBackgroundType::default() }
    }
}

/// Why an element could not be read.
pub enum LoadFailure {
    /// The named attribute is missing.
    Missing(Seq<char>),
    /// The named attribute holds a value that is not allowed there.
    Invalid(Seq<char>),
    /// The color attribute is no color.
    Color,
}

/// `e` is the error for the failure `f` at the node with the given id.
pub open spec fn reports(e: XoppError, node_id: usize, f: LoadFailure) -> bool {
    match f {
        LoadFailure::Missing(name) => is_missing_attribute(e, node_id, name),
        LoadFailure::Invalid(name) => is_invalid_attribute(e, node_id, name),
        LoadFailure::Color => e is InvalidColorValue,
    }
}

/// The background type that the attributes of a `background` element
/// describe: `type` selects solid, pixmap or pdf; a solid background needs
/// `style` and `color`, a pixmap background `domain` and `filename`.
pub open spec fn background_type_from_attrs(attrs: Seq<XmlAttributeModel>) -> Result<
    BackgroundTypeModel,
    LoadFailure,
> {
    match attribute_value(attrs, "type"@) {
        None => Err(LoadFailure::Missing("type"@)),
        Some(t) => if t == "solid"@ {
            match attribute_value(attrs, "style"@) {
                None => Err(LoadFailure::Missing("style"@)),
                Some(st) => match style_from_attr(st) {
                    None => Err(LoadFailure::Invalid("style"@)),
                    Some(style) => match attribute_value(attrs, "color"@) {
                        None => Err(LoadFailure::Missing("color"@)),
                        Some(c) => match background_color(c) {
                            None => Err(LoadFailure::Color),
                            Some(color) => Ok(BackgroundTypeModel::Solid { color, style }),
                        },
                    },
                },
            }
        } else if t == "pixmap"@ {
            match attribute_value(attrs, "domain"@) {
                None => Err(LoadFailure::Missing("domain"@)),
                Some(d) => match domain_from_attr(d) {
                    None => Err(LoadFailure::Invalid("domain"@)),
                    Some(domain) => match attribute_value(attrs, "filename"@) {
                        None => Err(LoadFailure::Missing("filename"@)),
                        Some(filename) => Ok(BackgroundTypeModel::Pixmap { domain, filename }),
                    },
                },
            }
        } else if t == "pdf"@ {
            Ok(BackgroundTypeModel::Pdf)
        } else {
            Err(LoadFailure::Invalid("type"@))
        },
    }
}

/// The attributes that describe a background type, in the order they are
/// written.
pub open spec fn background_type_attrs(t: BackgroundTypeModel) -> Seq<(Seq<char>, Seq<char>)> {
    match t {
        BackgroundTypeModel::Solid { color, style } => seq![
            ("type"@, "solid"@),
            ("color"@, color_attr_value(color)),
            ("style"@, style_attr_value(style)),
        ],
        BackgroundTypeModel::Pixmap { domain, filename } => seq![
            ("type"@, "pixmap"@),
            ("domain"@, domain_attr_value(domain)),
            ("filename"@, filename),
        ],
        BackgroundTypeModel::Pdf => seq![("type"@, "pdf"@)],
    }
}

/// The attributes of a `background` element, in the order they are
/// written: its name, if it has one, then those of its type.
pub open spec fn background_attrs(bg: BackgroundModel) -> Seq<(Seq<char>, Seq<char>)> {
    match bg.name {
        Some(name) => seq![("name"@, name)] + background_type_attrs(bg.bg_type),
        None => background_type_attrs(bg.bg_type),
    }
}

/// Attributes as a parser reads them back: without namespaces, in order.
pub open spec fn as_parsed_attributes(pairs: Seq<(Seq<char>, Seq<char>)>) -> Seq<
    XmlAttributeModel,
> {
    pairs.map_values(
        |p: (Seq<char>, Seq<char>)| XmlAttributeModel { namespace: None, name: p.0, value: p.1 },
    )
}

/// A list of attribute name/value pairs holds the given pairs.
pub open spec fn holds_pairs(v: Seq<(String, String)>, pairs: Seq<(Seq<char>, Seq<char>)>) -> bool {
    &&& v.len() == pairs.len()
    &&& forall|i: int| 0 <= i < v.len() ==> (#[trigger] v[i]).0@ == pairs[i].0 && v[i].1@ == pairs[i].1
}

fn attr(name: &str, value: String) -> (p: (String, String))
    ensures
        p.0@ == name@,
        p.1@ == value@,
{
    (String::from_str(name), value)
}

impl XoppBackgroundType {
    /// The attributes that describe this type, in the order they are
    /// written.
    pub fn xml_attributes(&self) -> (attrs: Vec<(String, String)>)
        ensures
            holds_pairs(attrs@, background_type_attrs(self@)),
    {
        let mut attrs: Vec<(String, String)> = Vec::new();
        match self {
            XoppBackgroundType::Solid { color, style } => {
                attrs.push(attr("type", String::from_str("solid")));
                attrs.push(attr("color", color.as_xml_attr_value()));
                attrs.push(attr("style", style.as_xml_attr_value()));
            },
            XoppBackgroundType::Pixmap { domain, filename } => {
                attrs.push(attr("type", String::from_str("pixmap")));
                attrs.push(attr("domain", domain.as_xml_attr_value()));
                attrs.push(attr("filename", filename.clone()));
            },
            XoppBackgroundType::Pdf => {
                attrs.push(attr("type", String::from_str("pdf")));
            },
        }
        attrs
    }

    /// Writes the attributes of this type into the open start tag, in the
    /// order `xml_attributes` lists them.
    pub fn write_to_xml(&self, w: &mut xmlwriter::XmlWriter)
        requires
            xml_writer_model(*old(w)).phase is Attributes,
        ensures
            xml_writer_model(*final(w)) == xml_writer_model(*old(w)),
            xml_writer_output(*final(w)) == xml_writer_output(*old(w)) + attributes_bytes(
                xml_writer_model(*old(w)),
                background_type_attrs(self@),
            ),
    {
        let attrs = self.xml_attributes();
        write_attributes(w, &attrs);
        proof {
            assert(pair_chars(attrs@) =~= background_type_attrs(self@));
        }
    }
}

/// The characters of a list of name/value pairs.
pub open spec fn pair_chars(v: Seq<(String, String)>) -> Seq<(Seq<char>, Seq<char>)> {
    v.map_values(|p: (String, String)| (p.0@, p.1@))
}

/// Writes the given attributes, in order, into the open start tag.
fn write_attributes(w: &mut xmlwriter::XmlWriter, attrs: &Vec<(String, String)>)
    requires
        xml_writer_model(*old(w)).phase is Attributes,
    ensures
        xml_writer_model(*final(w)) == xml_writer_model(*old(w)),
        xml_writer_output(*final(w)) == xml_writer_output(*old(w)) + attributes_bytes(
            xml_writer_model(*old(w)),
            pair_chars(attrs@),
        ),
{
    let ghost start = xml_writer_model(*w);
    let ghost start_output = xml_writer_output(*w);
    let mut i: usize = 0;
    assert(pair_chars(attrs@).take(0) =~= Seq::<(Seq<char>, Seq<char>)>::empty());
    while i < attrs.len()
        invariant
            i <= attrs.len(),
            xml_writer_model(*w) == start,
            start.phase is Attributes,
            xml_writer_output(*w) == start_output + attributes_bytes(
                start,
                pair_chars(attrs@).take(i as int),
            ),
        decreases attrs.len() - i,
    {
        write_attribute(w, attrs[i].0.as_str(), attrs[i].1.as_str());
        proof {
            let pairs = pair_chars(attrs@);
            assert(pairs.take(i + 1).drop_last() =~= pairs.take(i as int));
            assert(pairs.take(i + 1).last() == (attrs@[i as int].0@, attrs@[i as int].1@));
            assert(start_output + attributes_bytes(start, pairs.take(i as int))
                + crate::xml::attribute_bytes(start, attrs@[i as int].0@, attrs@[i as int].1@)
                =~= start_output + attributes_bytes(start, pairs.take(i + 1)));
        }
        i = i + 1;
    }
    assert(pair_chars(attrs@).take(attrs@.len() as int) =~= pair_chars(attrs@));
}

impl XoppBackground {
    /// The attributes of the `background` element, in the order they are
    /// written.
    pub fn xml_attributes(&self) -> (attrs: Vec<(String, String)>)
        ensures
            holds_pairs(attrs@, background_attrs(self@)),
    {
        let type_attrs = self.bg_type.xml_attributes();
        let mut attrs: Vec<(String, String)> = Vec::new();
        if let Some(name) = &self.name {
            attrs.push(attr("name", name.clone()));
        }
        let ghost first = attrs@.len();
        let mut i: usize = 0;
        while i < type_attrs.len()
            invariant
                i <= type_attrs.len(),
                first <= 1,
                attrs@.len() == first + i,
                holds_pairs(type_attrs@, background_type_attrs(self.bg_type@)),
                self.name is Some ==> first == 1 && attrs@[0].0@ == "name"@ && attrs@[0].1@
                    == self.name->0@,
                self.name is None ==> first == 0,
                forall|j: int|
                    0 <= j < i ==> (#[trigger] attrs@[first + j]).0@ == type_attrs@[j].0@
                        && attrs@[first + j].1@ == type_attrs@[j].1@,
            decreases type_attrs.len() - i,
        {
            attrs.push((type_attrs[i].0.clone(), type_attrs[i].1.clone()));
            i = i + 1;
        }
        proof {
            let pairs = background_attrs(self@);
            assert forall|j: int| 0 <= j < attrs@.len() implies (#[trigger] attrs@[j]).0@
                == pairs[j].0 && attrs@[j].1@ == pairs[j].1 by {
                if j >= first {
                    assert(attrs@[first + (j - first)] == attrs@[j]);
                }
            }
        }
        attrs
    }

    /// Writes the `background` element: its start tag, its attributes in the
    /// order `xml_attributes` lists them, and `/>`.
    pub fn write_to_xml(&self, w: &mut xmlwriter::XmlWriter)
        ensures
            xml_writer_model(*final(w)) == after_end_element(
                after_start_element(xml_writer_model(*old(w)), "background"@),
            ),
            xml_writer_output(*final(w)) == xml_writer_output(*old(w)) + start_element_bytes(
                xml_writer_model(*old(w)),
                "background"@,
            ) + attributes_bytes(
                after_start_element(xml_writer_model(*old(w)), "background"@),
                background_attrs(self@),
            ) + seq![0x2fu8, 0x3eu8],
    {
        let attrs = self.xml_attributes();
        start_element(w, "background");
        write_attributes(w, &attrs);
        end_element(w);
        proof {
            assert(pair_chars(attrs@) =~= background_attrs(self@));
        }
    }

    /// Reads the background from a `background` element: the name is
    /// replaced by the element's `name` attribute, or none, in any case; the
    /// type is replaced only when the element describes a valid one.
    pub fn load_from_xml(&mut self, node: &XmlNode) -> (res: Result<(), XoppError>)
        ensures
            final(self)@.name == attribute_value(node@.attributes, "name"@),
            match background_type_from_attrs(node@.attributes) {
                Ok(t) => res is Ok && final(self)@.bg_type == t,
                Err(f) => res matches Err(e) && reports(e, node.id, f) && final(self)@.bg_type
                    == old(self)@.bg_type,
            },
    {
        self.name = match node.attribute("name") {
            Some(name) => Some(String::from_str(name)),
            None => None,
        };
        let ty = match node.attribute("type") {
            Some(t) => t,
            None => {
                return Err(missing(node, "type"));
            },
        };
        if str_eq(ty, "solid") {
            let style_value = match node.attribute("style") {
                Some(s) => s,
                None => {
                    return Err(missing(node, "style"));
                },
            };
            let style = match XoppBackgroundSolidStyle::from_xml_attr_value(style_value) {
                Some(style) => style,
                None => {
                    return Err(invalid(node, "style"));
                },
            };
            let color_value = match node.attribute("color") {
                Some(c) => c,
                None => {
                    return Err(missing(node, "color"));
                },
            };
            let color = match XoppColor::from_backgroundcolor_attr_value(color_value) {
                Ok(c) => c,
                Err(e) => {
                    return Err(e);
                },
            };
            self.bg_type = XoppBackgroundType::Solid { color, style };
        } else if str_eq(ty, "pixmap") {
            let domain_value = match node.attribute("domain") {
                Some(d) => d,
                None => {
                    return Err(missing(node, "domain"));
                },
            };
            let domain = match XoppBackgroundPixmapDomain::from_xml_attr_value(domain_value) {
                Some(d) => d,
                None => {
                    return Err(invalid(node, "domain"));
                },
            };
            let filename = match node.attribute("filename") {
                Some(f) => String::from_str(f),
                None => {
                    return Err(missing(node, "filename"));
                },
            };
            self.bg_type = XoppBackgroundType::Pixmap { domain, filename };
        } else if str_eq(ty, "pdf") {
            self.bg_type = XoppBackgroundType::Pdf;
        } else {
            return Err(invalid(node, "type"));
        }
        Ok(())
    }
}

/// The error for a missing attribute of `node`.
fn missing(node: &XmlNode, attribute: &str) -> (e: XoppError)
    ensures
        is_missing_attribute(e, node.id, attribute@),
{
    XoppError::MissingAttribute { node_id: node.id, attribute: String::from_str(attribute) }
}

/// The error for an attribute of `node` whose value is not allowed.
fn invalid(node: &XmlNode, attribute: &str) -> (e: XoppError)
    ensures
        is_invalid_attribute(e, node.id, attribute@),
{
    XoppError::InvalidAttributeValue { node_id: node.id, attribute: String::from_str(attribute) }
}

// ---------------------------------------------------------------------------
// Attributes of strokes and texts
// ---------------------------------------------------------------------------
/// The tool of a `stroke` element: the `tool` attribute is required; a value
/// that names no tool leaves the tool as it was.
pub fn stroke_tool(node: &XmlNode, current: XoppTool) -> (res: Result<XoppTool, XoppError>)
    ensures
        match attribute_value(node@.attributes, "tool"@) {
            None => res matches Err(e) && is_missing_attribute(e, node.id, "tool"@),
            Some(v) => res == Ok::<XoppTool, XoppError>(
                match tool_from_attr(v) {
                    Some(t) => t,
                    None => current,
                },
            ),
        },
{
    match node.attribute("tool") {
        None => Err(missing(node, "tool")),
        Some(v) => match XoppTool::from_xml_attr_value(v) {
            Some(t) => Ok(t),
            None => Ok(current),
        },
    }
}

/// The color of a `stroke` or `text` element: the `color` attribute is
/// required and holds a stroke color.
pub fn stroke_color_attribute(node: &XmlNode) -> (res: Result<XoppColor, XoppError>)
    ensures
        match attribute_value(node@.attributes, "color"@) {
            None => res matches Err(e) && is_missing_attribute(e, node.id, "color"@),
            Some(v) => res == crate::color::color_result(crate::color::stroke_color(v)),
        },
{
    match node.attribute("color") {
        None => Err(missing(node, "color")),
        Some(v) => XoppColor::from_strokecolor_attr_value(v),
    }
}

/// The fill of a `stroke` element: none without a `fill` attribute, else
/// its value as a decimal `i32`.
pub fn stroke_fill(node: &XmlNode) -> (res: Result<Option<i32>, XoppError>)
    ensures
        match attribute_value(node@.attributes, "fill"@) {
            None => res == Ok::<Option<i32>, XoppError>(None),
            Some(v) => match crate::text::parse_i32_decimal(v) {
                Some(f) => res == Ok::<Option<i32>, XoppError>(Some(f)),
                None => res matches Err(e) && is_invalid_attribute(e, node.id, "fill"@),
            },
        },
{
    match node.attribute("fill") {
        None => Ok(None),
        Some(v) => match crate::text::parse_i32(v) {
            Some(f) => Ok(Some(f)),
            None => Err(invalid(node, "fill")),
        },
    }
}

/// The font size of a `text` element: the `size` attribute is required and
/// holds a decimal `u32`.
pub fn text_size(node: &XmlNode) -> (res: Result<u32, XoppError>)
    ensures
        match attribute_value(node@.attributes, "size"@) {
            None => res matches Err(e) && is_missing_attribute(e, node.id, "size"@),
            Some(v) => match crate::text::parse_u32_radix(v, 10) {
                Some(n) => res == Ok::<u32, XoppError>(n),
                None => res matches Err(e) && is_invalid_attribute(e, node.id, "size"@),
            },
        },
{
    match node.attribute("size") {
        None => Err(missing(node, "size")),
        Some(v) => match crate::text::parse_u32(v, 10) {
            Some(n) => Ok(n),
            None => Err(invalid(node, "size")),
        },
    }
}

// ---------------------------------------------------------------------------
// Laws
// ---------------------------------------------------------------------------
proof fn lemma_attribute_names_distinct()
    ensures
        "name"@ != "type"@,
        "name"@ != "color"@,
        "name"@ != "style"@,
        "name"@ != "domain"@,
        "name"@ != "filename"@,
        "type"@ != "color"@,
        "type"@ != "style"@,
        "type"@ != "domain"@,
        "type"@ != "filename"@,
        "color"@ != "style"@,
        "domain"@ != "filename"@,
        "solid"@ != "pixmap"@,
        "solid"@ != "pdf"@,
        "pixmap"@ != "pdf"@,
{
    reveal_strlit("name");
    reveal_strlit("type");
    reveal_strlit("color");
    reveal_strlit("style");
    reveal_strlit("domain");
    reveal_strlit("filename");
    reveal_strlit("solid");
    reveal_strlit("pixmap");
    reveal_strlit("pdf");
    assert("name"@[0] != "type"@[0]);
    assert("color"@[0] != "style"@[0]);
    assert("domain"@.len() != "filename"@.len());
    assert("solid"@.len() != "pixmap"@.len());
    assert("solid"@.len() != "pdf"@.len());
    assert("pixmap"@.len() != "pdf"@.len());
    assert("name"@.len() != "color"@.len());
    assert("name"@.len() != "style"@.len());
    assert("name"@.len() != "domain"@.len());
    assert("name"@.len() != "filename"@.len());
    assert("type"@.len() != "color"@.len());
    assert("type"@.len() != "style"@.len());
    assert("type"@.len() != "domain"@.len());
    assert("type"@.len() != "filename"@.len());
}

/// Reading back the attributes of a written background type gives the same
/// type.
pub proof fn lemma_background_type_roundtrip(t: BackgroundTypeModel)
    ensures
        background_type_from_attrs(as_parsed_attributes(background_type_attrs(t))) == Ok::<
            BackgroundTypeModel,
            LoadFailure,
        >(t),
{
    lemma_attribute_names_distinct();
    let attrs = as_parsed_attributes(background_type_attrs(t));
    match t {
        BackgroundTypeModel::Solid { color, style } => {
            lemma_style_roundtrip(style);
            lemma_background_color_roundtrip(color);
            assert(attrs.drop_first()[0] == attrs[1]);
            assert(attrs.drop_first().drop_first()[0] == attrs[2]);
            assert(attribute_value(attrs, "type"@) == Some("solid"@));
            assert(attribute_value(attrs.drop_first(), "color"@) == Some(color_attr_value(color)));
            assert(attribute_value(attrs, "color"@) == Some(color_attr_value(color)));
            assert(attribute_value(attrs.drop_first().drop_first(), "style"@) == Some(
                style_attr_value(style),
            ));
            assert(attribute_value(attrs.drop_first(), "style"@) == Some(style_attr_value(style)));
            assert(attribute_value(attrs, "style"@) == Some(style_attr_value(style)));
        },
        BackgroundTypeModel::Pixmap { domain, filename } => {
            lemma_domain_roundtrip(domain);
            assert(attrs.drop_first()[0] == attrs[1]);
            assert(attrs.drop_first().drop_first()[0] == attrs[2]);
            assert(attribute_value(attrs, "type"@) == Some("pixmap"@));
            assert(attribute_value(attrs.drop_first(), "domain"@) == Some(
                domain_attr_value(domain),
            ));
            assert(attribute_value(attrs, "domain"@) == Some(domain_attr_value(domain)));
            assert(attribute_value(attrs.drop_first().drop_first(), "filename"@) == Some(filename));
            assert(attribute_value(attrs.drop_first(), "filename"@) == Some(filename));
            assert(attribute_value(attrs, "filename"@) == Some(filename));
        },
        BackgroundTypeModel::Pdf => {
            assert(attribute_value(attrs, "type"@) == Some("pdf"@));
        },
    }
}

proof fn lemma_type_attrs_have_no_name(t: BackgroundTypeModel)
    ensures
        attribute_value(as_parsed_attributes(background_type_attrs(t)), "name"@) is None,
{
    lemma_attribute_names_distinct();
    let attrs = as_parsed_attributes(background_type_attrs(t));
    let e = Seq::<XmlAttributeModel>::empty();
    assert(attribute_value(e, "name"@) is None);
    match t {
        BackgroundTypeModel::Pdf => {
            assert(attrs.drop_first() =~= e);
        },
        _ => {
            assert(attrs.drop_first().drop_first().drop_first() =~= e);
            assert(attrs.drop_first()[0] == attrs[1]);
            assert(attrs.drop_first().drop_first()[0] == attrs[2]);
            assert(attribute_value(attrs.drop_first().drop_first(), "name"@) is None);
            assert(attribute_value(attrs.drop_first(), "name"@) is None);
        },
    }
}

/// Reading back a written background gives the same background: the
/// attributes that `xml_attributes` lists, read as `load_from_xml` reads
/// them, give back its name and its type.
pub proof fn lemma_background_roundtrip(bg: BackgroundModel)
    ensures
        attribute_value(as_parsed_attributes(background_attrs(bg)), "name"@) == bg.name,
        background_type_from_attrs(as_parsed_attributes(background_attrs(bg))) == Ok::<
            BackgroundTypeModel,
            LoadFailure,
        >(bg.bg_type),
{
    lemma_attribute_names_distinct();
    lemma_background_type_roundtrip(bg.bg_type);
    lemma_type_attrs_have_no_name(bg.bg_type);
    let type_pairs = background_type_attrs(bg.bg_type);
    match bg.name {
        Some(name) => {
            let attrs = as_parsed_attributes(background_attrs(bg));
            assert(attrs.drop_first() =~= as_parsed_attributes(type_pairs));
            assert(attrs[0].name == "name"@);
            let tattrs = as_parsed_attributes(type_pairs);
            assert(attribute_value(attrs, "type"@) == attribute_value(tattrs, "type"@));
            assert(attribute_value(attrs, "style"@) == attribute_value(tattrs, "style"@));
            assert(attribute_value(attrs, "color"@) == attribute_value(tattrs, "color"@));
            assert(attribute_value(attrs, "domain"@) == attribute_value(tattrs, "domain"@));
            assert(attribute_value(attrs, "filename"@) == attribute_value(tattrs, "filename"@));
        },
        None => {},
    }
}

} // verus!
