//! The XML documents that the file formats are written in: a parsed
//! document as plain values, and the writer that produces one.
use vstd::prelude::*;

use crate::error::XoppError;
use crate::text::str_eq;
use vstd::string::StringExecFns;
use vstd::utf8::encode_utf8;

verus! {

// ---------------------------------------------------------------------------
// Parsed documents
// ---------------------------------------------------------------------------
/// An attribute of an element.
pub struct XmlAttribute {
    /// The namespace URI, if the attribute name has a prefix.
    pub namespace: Option<String>,
    /// The local name.
    pub name: String,
    /// The value, with entities resolved.
    pub value: String,
}

/// What an attribute holds.
pub struct XmlAttributeModel {
    pub namespace: Option<Seq<char>>,
    pub name: Seq<char>,
    pub value: Seq<char>,
}

/// The characters of an optional string.
pub open spec fn opt_chars(s: Option<String>) -> Option<Seq<char>> {
    match s {
        Some(s) => Some(s@),
        None => None,
    }
}

impl View for XmlAttribute {
    type V = XmlAttributeModel;

    open spec fn view(&self) -> XmlAttributeModel {
        XmlAttributeModel { namespace: opt_chars(self.namespace), name: self.name@, value: self.value@ }
    }
}

/// A node of a parsed document, in document order. Elements have a tag
/// name and attributes; the root, text, comment and processing-instruction
/// nodes are not elements.
pub struct XmlNode {
    /// The node's identifier within its document.
    pub id: usize,
    /// The identifier of the parent node; the document root has none.
    pub parent: Option<usize>,
    /// Whether the node is an element.
    pub is_element: bool,
    /// The local tag name of an element; empty for other nodes.
    pub tag_name: String,
    /// The attributes of an element, in document order.
    pub attributes: Vec<XmlAttribute>,
    /// The text of the node: for an element, the text of its first child
    /// when that child is a text node.
    pub text: Option<String>,
}

/// What a node holds.
pub struct XmlNodeModel {
    pub id: usize,
    pub parent: Option<usize>,
    pub is_element: bool,
    pub tag_name: Seq<char>,
    pub attributes: Seq<XmlAttributeModel>,
    pub text: Option<Seq<char>>,
}

impl View for XmlNode {
    type V = XmlNodeModel;

    open spec fn view(&self) -> XmlNodeModel {
        XmlNodeModel {
            id: self.id,
            parent: self.parent,
            is_element: self.is_element,
            tag_name: self.tag_name@,
            attributes: self.attributes@.map_values(|a: XmlAttribute| a@),
            text: opt_chars(self.text),
        }
    }
}

/// A parsed document: all its nodes in document order, the document root
/// first.
pub struct XmlDocument {
    pub nodes: Vec<XmlNode>,
}

impl View for XmlDocument {
    type V = Seq<XmlNodeModel>;

    open spec fn view(&self) -> Seq<XmlNodeModel> {
        self.nodes@.map_values(|n: XmlNode| n@)
    }
}

/// The nodes of the XML document that a text holds, in document order, as
/// `roxmltree` parses it with its default options; `None` when the text is
/// no well-formed document.
pub uninterp spec fn xml_parsed(text: Seq<char>) -> Option<Seq<XmlNodeModel>>;

/// Parses an XML document with `roxmltree::Document::parse_with_options`
/// and default options, and lists its descendants (`Document::descendants`)
/// with their id, parent id, element-ness, local tag name, attributes and
/// text. The result is what `xml_parsed` names; the error message is the
/// parser's.
#[verifier::external_body]
fn parse_xml_nodes(text: &str) -> (res: Result<Vec<XmlNode>, String>)
    ensures
        match res {
            Ok(nodes) => xml_parsed(text@) == Some(nodes@.map_values(|n: XmlNode| n@)),
            Err(_) => xml_parsed(text@) is None,
        },
{
    let doc = roxmltree::Document::parse_with_options(text, roxmltree::ParsingOptions::default())
        .map_err(|e| e.to_string())?;
    Ok(doc.descendants().map(|n| XmlNode {
        id: n.id().get_usize(),
        parent: n.parent().map(|p| p.id().get_usize()),
        is_element: n.is_element(),
        tag_name: n.tag_name().name().to_string(),
        attributes: n.attributes().iter().map(|a| XmlAttribute {
            namespace: a.namespace().map(String::from),
            name: a.name().to_string(),
            value: a.value().to_string(),
        }).collect(),
        text: n.text().map(String::from),
    }).collect())
}

/// The value of the first attribute without a namespace whose local name is
/// `name`.
pub open spec fn attribute_value(attrs: Seq<XmlAttributeModel>, name: Seq<char>) -> Option<
    Seq<char>,
>
    decreases attrs.len(),
{
    if attrs.len() == 0 {
        None
    } else if attrs[0].namespace is None && attrs[0].name == name {
        Some(attrs[0].value)
    } else {
        attribute_value(attrs.drop_first(), name)
    }
}

/// The positions, from `from` on, of the elements whose parent is the node
/// with identifier `parent_id`, in document order.
pub open spec fn element_children_from(nodes: Seq<XmlNodeModel>, parent_id: usize, from: int) -> Seq<
    int,
>
    decreases nodes.len() - from,
{
    if from >= nodes.len() || from < 0 {
        Seq::empty()
    } else {
        let rest = element_children_from(nodes, parent_id, from + 1);
        if nodes[from].is_element && nodes[from].parent == Some(parent_id) {
            seq![from] + rest
        } else {
            rest
        }
    }
}

/// The positions of the element children of the node at position `i`: the
/// later nodes that are elements and whose parent is that node.
pub open spec fn element_children(nodes: Seq<XmlNodeModel>, i: int) -> Seq<int> {
    element_children_from(nodes, nodes[i].id, i + 1)
}

/// The position of the root element: the first element child of the
/// document root.
pub open spec fn root_element_position(nodes: Seq<XmlNodeModel>) -> Option<int> {
    if nodes.len() == 0 {
        None
    } else {
        let children = element_children(nodes, 0);
        if children.len() == 0 {
            None
        } else {
            Some(children[0])
        }
    }
}

proof fn lemma_element_children_bounds(nodes: Seq<XmlNodeModel>, parent_id: usize, from: int)
    requires
        0 <= from,
    ensures
        forall|k: int|
            0 <= k < element_children_from(nodes, parent_id, from).len() ==> from <= #[trigger] element_children_from(
                nodes,
                parent_id,
                from,
            )[k] < nodes.len(),
    decreases nodes.len() - from,
{
    if from < nodes.len() {
        lemma_element_children_bounds(nodes, parent_id, from + 1);
        let rest = element_children_from(nodes, parent_id, from + 1);
        let all = element_children_from(nodes, parent_id, from);
        assert forall|k: int| 0 <= k < all.len() implies from <= #[trigger] all[k] < nodes.len() by {
            if nodes[from].is_element && nodes[from].parent == Some(parent_id) {
                if k > 0 {
                    assert(all[k] == rest[k - 1]);
                }
            }
        }
    }
}

impl XmlNode {
    /// The value of the attribute with the given local name and no
    /// namespace, as `roxmltree::Node::attribute` finds it.
    pub fn attribute(&self, name: &str) -> (res: Option<&str>)
        ensures
            match res {
                Some(v) => attribute_value(self@.attributes, name@) == Some(v@),
                None => attribute_value(self@.attributes, name@) is None,
            },
    {
        let ghost attrs = self@.attributes;
        let mut i: usize = 0;
        assert(attrs.skip(0) =~= attrs);
        while i < self.attributes.len()
            invariant
                i <= self.attributes.len(),
                attrs == self@.attributes,
                attrs.len() == self.attributes.len(),
                attribute_value(attrs, name@) == attribute_value(attrs.skip(i as int), name@),
            decreases self.attributes.len() - i,
        {
            let a = &self.attributes[i];
            assert(attrs[i as int] == a@);
            assert(attrs.skip(i as int)[0] == a@);
            assert(attrs.skip(i as int).drop_first() =~= attrs.skip(i + 1));
            if a.namespace.is_none() && str_eq(a.name.as_str(), name) {
                return Some(a.value.as_str());
            }
            i = i + 1;
        }
        None
    }

    /// The value of an attribute that the element must have; its absence is
    /// an error naming the node and the attribute.
    pub fn required_attribute(&self, name: &str) -> (res: Result<&str, XoppError>)
        ensures
            match res {
                Ok(v) => attribute_value(self@.attributes, name@) == Some(v@),
                Err(e) => attribute_value(self@.attributes, name@) is None
                    && is_missing_attribute(e, self.id, name@),
            },
    {
        match self.attribute(name) {
            Some(v) => Ok(v),
            None => Err(
                XoppError::MissingAttribute { node_id: self.id, attribute: String::from_str(name) },
            ),
        }
    }
}

/// `e` reports that the node with the given id lacks the named attribute.
pub open spec fn is_missing_attribute(e: XoppError, node_id: usize, name: Seq<char>) -> bool {
    e matches XoppError::MissingAttribute { node_id: id, attribute } && id == node_id
        && attribute@ == name
}

/// `e` reports that the named attribute of the node with the given id holds
/// a value that is not allowed.
pub open spec fn is_invalid_attribute(e: XoppError, node_id: usize, name: Seq<char>) -> bool {
    e matches XoppError::InvalidAttributeValue { node_id: id, attribute } && id == node_id
        && attribute@ == name
}

impl XmlDocument {
    /// Parses an XML document.
    pub fn parse(text: &str) -> (res: Result<XmlDocument, XoppError>)
        ensures
            match res {
                Ok(doc) => xml_parsed(text@) == Some(doc@),
                Err(e) => xml_parsed(text@) is None && e is InvalidXml,
            },
    {
        match parse_xml_nodes(text) {
            Ok(nodes) => Ok(XmlDocument { nodes }),
            Err(message) => Err(XoppError::InvalidXml { message }),
        }
    }

    /// The positions of the element children of the node at position `i`,
    /// in document order.
    pub fn element_children(&self, i: usize) -> (children: Vec<usize>)
        requires
            i < self@.len(),
        ensures
            children@.len() == element_children(self@, i as int).len(),
            forall|k: int|
                0 <= k < children@.len() ==> children@[k] as int == #[trigger] element_children(
                    self@,
                    i as int,
                )[k],
            forall|k: int| 0 <= k < children@.len() ==> i < #[trigger] children@[k] < self@.len(),
    {
        proof {
            lemma_element_children_bounds(self@, self@[i as int].id, i + 1);
        }
        let ghost nodes = self@;
        let parent_id = self.nodes[i].id;
        let mut found: Vec<usize> = Vec::new();
        let mut j = self.nodes.len();
        // walk backwards so that the positions come out in document order
        while j > i + 1
            invariant
                i + 1 <= j <= self.nodes.len(),
                nodes == self@,
                nodes.len() == self.nodes.len(),
                parent_id == nodes[i as int].id,
                found@.len() == element_children_from(nodes, parent_id, j as int).len(),
                forall|k: int|
                    0 <= k < found@.len() ==> found@[found@.len() - 1 - k] as int
                        == #[trigger] element_children_from(nodes, parent_id, j as int)[k],
            decreases j,
        {
            j = j - 1;
            let n = &self.nodes[j];
            assert(nodes[j as int] == n@);
            if n.is_element && n.parent == Some(parent_id) {
                found.push(j);
            }
        }
        let mut children: Vec<usize> = Vec::new();
        let mut k = found.len();
        while k > 0
            invariant
                k <= found@.len(),
                children@.len() == found@.len() - k,
                forall|m: int|
                    0 <= m < children@.len() ==> children@[m] == found@[found@.len() - 1 - m],
            decreases k,
        {
            k = k - 1;
            children.push(found[k]);
        }
        assert forall|k: int| 0 <= k < children@.len() implies i < #[trigger] children@[k]
            < self@.len() by {
            assert(children@[k] as int == element_children_from(nodes, parent_id, i + 1)[k]);
        }
        children
    }

    /// The position of the root element: the first element child of the
    /// document root.
    pub fn root_element(&self) -> (res: Option<usize>)
        ensures
            match res {
                Some(p) => root_element_position(self@) == Some(p as int),
                None => root_element_position(self@) is None,
            },
    {
        if self.nodes.len() == 0 {
            return None;
        }
        let children = self.element_children(0);
        if children.len() == 0 {
            None
        } else {
            Some(children[0])
        }
    }
}

/// The position in `tags`, from `k` on, of the first tag equal to `tag`.
pub open spec fn tag_position_from(tags: Seq<Seq<char>>, tag: Seq<char>, k: int) -> Option<int>
    decreases tags.len() - k,
{
    if k < 0 || k >= tags.len() {
        None
    } else if tags[k] == tag {
        Some(k)
    } else {
        tag_position_from(tags, tag, k + 1)
    }
}

/// The nodes at the given positions whose tag is one of `tags`, in order,
/// each paired with the position of its tag in `tags`.
pub open spec fn classify_nodes(nodes: Seq<XmlNodeModel>, positions: Seq<int>, tags: Seq<Seq<char>>) -> Seq<
    (int, int),
>
    decreases positions.len(),
{
    if positions.len() == 0 {
        Seq::empty()
    } else {
        let init = classify_nodes(nodes, positions.drop_last(), tags);
        match tag_position_from(tags, nodes[positions.last()].tag_name, 0) {
            Some(k) => init.push((k, positions.last())),
            None => init,
        }
    }
}

/// The element children of the node at position `i` whose tag is one of
/// `tags`, in document order, each paired with the position of its tag in
/// `tags`.
pub open spec fn tagged_children(nodes: Seq<XmlNodeModel>, i: int, tags: Seq<Seq<char>>) -> Seq<
    (int, int),
> {
    classify_nodes(nodes, element_children(nodes, i), tags)
}

/// The node at position `p` is an element child of the node at position
/// `i`: a later element whose parent is that node.
pub open spec fn is_element_child(nodes: Seq<XmlNodeModel>, i: int, p: int) -> bool {
    &&& 0 <= i < p < nodes.len()
    &&& nodes[p].is_element
    &&& nodes[p].parent == Some(nodes[i].id)
}

/// `tag` is one of `tags`.
pub open spec fn is_listed(tags: Seq<Seq<char>>, tag: Seq<char>) -> bool {
    exists|k: int| 0 <= k < tags.len() && tags[k] == tag
}

proof fn lemma_element_children_from(nodes: Seq<XmlNodeModel>, parent_id: usize, from: int)
    requires
        0 <= from,
    ensures
        ({
            let s = element_children_from(nodes, parent_id, from);
            &&& forall|k: int|
                0 <= k < s.len() ==> from <= #[trigger] s[k] < nodes.len() && nodes[s[k]].is_element
                    && nodes[s[k]].parent == Some(parent_id)
            &&& forall|k1: int, k2: int| 0 <= k1 < k2 < s.len() ==> #[trigger] s[k1] < #[trigger] s[k2]
            &&& forall|p: int|
                from <= p < nodes.len() && #[trigger] nodes[p].is_element && nodes[p].parent == Some(
                    parent_id,
                ) ==> s.contains(p)
        }),
    decreases nodes.len() - from,
{
    if from < nodes.len() {
        lemma_element_children_from(nodes, parent_id, from + 1);
        let rest = element_children_from(nodes, parent_id, from + 1);
        let s = element_children_from(nodes, parent_id, from);
        if nodes[from].is_element && nodes[from].parent == Some(parent_id) {
            assert(s == seq![from] + rest);
            assert forall|k: int| 0 < k < s.len() implies s[k] == rest[k - 1] by {}
            assert forall|p: int|
                from <= p < nodes.len() && #[trigger] nodes[p].is_element && nodes[p].parent
                    == Some(parent_id) implies s.contains(p) by {
                if p == from {
                    assert(s[0] == p);
                } else {
                    let k = choose|k: int| 0 <= k < rest.len() && rest[k] == p;
                    assert(s[k + 1] == p);
                }
            }
        } else {
            assert forall|p: int|
                from <= p < nodes.len() && #[trigger] nodes[p].is_element && nodes[p].parent
                    == Some(parent_id) implies s.contains(p) by {
                assert(p != from);
            }
        }
    }
}

proof fn lemma_tag_position_from(tags: Seq<Seq<char>>, tag: Seq<char>, from: int)
    requires
        0 <= from,
    ensures
        tag_position_from(tags, tag, from) matches Some(k) ==> from <= k < tags.len() && tags[k]
            == tag && forall|j: int| from <= j < k ==> tags[j] != tag,
        (exists|j: int| from <= j < tags.len() && tags[j] == tag) ==> tag_position_from(
            tags,
            tag,
            from,
        ) is Some,
    decreases tags.len() - from,
{
    if from < tags.len() {
        lemma_tag_position_from(tags, tag, from + 1);
        if tags[from] != tag {
            if exists|j: int| from <= j < tags.len() && tags[j] == tag {
                let j = choose|j: int| from <= j < tags.len() && tags[j] == tag;
                assert(j != from);
            }
        }
    }
}

proof fn lemma_classify_nodes(nodes: Seq<XmlNodeModel>, ps: Seq<int>, tags: Seq<Seq<char>>)
    ensures
        ({
            let r = classify_nodes(nodes, ps, tags);
            &&& forall|k: int|
                0 <= k < r.len() ==> ps.contains(#[trigger] r[k].1) && tag_position_from(
                    tags,
                    nodes[r[k].1].tag_name,
                    0,
                ) == Some(r[k].0)
            &&& (forall|j1: int, j2: int| 0 <= j1 < j2 < ps.len() ==> #[trigger] ps[j1] < #[trigger] ps[j2])
                ==> forall|k1: int, k2: int|
                0 <= k1 < k2 < r.len() ==> #[trigger] r[k1].1 < #[trigger] r[k2].1
            &&& forall|j: int|
                0 <= j < ps.len() && #[trigger] tag_position_from(tags, nodes[ps[j]].tag_name, 0)
                    is Some ==> exists|k: int| 0 <= k < r.len() && r[k].1 == ps[j]
        }),
    decreases ps.len(),
{
    if ps.len() > 0 {
        let init_ps = ps.drop_last();
        lemma_classify_nodes(nodes, init_ps, tags);
        let init = classify_nodes(nodes, init_ps, tags);
        let r = classify_nodes(nodes, ps, tags);
        let last = ps.last();
        assert forall|k: int| 0 <= k < init.len() implies ps.contains(#[trigger] init[k].1) by {
            let j = choose|j: int| 0 <= j < init_ps.len() && init_ps[j] == init[k].1;
            assert(ps[j] == init[k].1);
        }
        match tag_position_from(tags, nodes[last].tag_name, 0) {
            Some(t) => {
                assert(r == init.push((t, last)));
                assert(ps[ps.len() - 1] == last);
                if forall|j1: int, j2: int| 0 <= j1 < j2 < ps.len() ==> #[trigger] ps[j1] < #[trigger] ps[j2] {
                    assert forall|j1: int, j2: int| 0 <= j1 < j2 < init_ps.len() implies #[trigger] init_ps[j1]
                        < #[trigger] init_ps[j2] by {
                        assert(init_ps[j1] == ps[j1] && init_ps[j2] == ps[j2]);
                    }
                    assert forall|k: int| 0 <= k < init.len() implies #[trigger] init[k].1 < last by {
                        let j = choose|j: int| 0 <= j < init_ps.len() && init_ps[j] == init[k].1;
                        assert(ps[j] < ps[ps.len() - 1]);
                    }
                }
                assert forall|j: int|
                    0 <= j < ps.len() && #[trigger] tag_position_from(tags, nodes[ps[j]].tag_name, 0)
                        is Some implies exists|k: int| 0 <= k < r.len() && r[k].1 == ps[j] by {
                    if j == ps.len() - 1 {
                        assert(r[r.len() - 1].1 == ps[j]);
                    } else {
                        assert(init_ps[j] == ps[j]);
                        assert(tag_position_from(tags, nodes[init_ps[j]].tag_name, 0) is Some);
                        let k = choose|k: int| 0 <= k < init.len() && init[k].1 == init_ps[j];
                        assert(r[k] == init[k]);
                    }
                }
            },
            None => {
                assert(r == init);
                if forall|j1: int, j2: int| 0 <= j1 < j2 < ps.len() ==> #[trigger] ps[j1] < #[trigger] ps[j2] {
                    assert forall|j1: int, j2: int| 0 <= j1 < j2 < init_ps.len() implies #[trigger] init_ps[j1]
                        < #[trigger] init_ps[j2] by {
                        assert(init_ps[j1] == ps[j1] && init_ps[j2] == ps[j2]);
                    }
                }
                assert forall|j: int|
                    0 <= j < ps.len() && #[trigger] tag_position_from(tags, nodes[ps[j]].tag_name, 0)
                        is Some implies exists|k: int| 0 <= k < r.len() && r[k].1 == ps[j] by {
                    assert(j != ps.len() - 1);
                    assert(init_ps[j] == ps[j]);
                    assert(tag_position_from(tags, nodes[init_ps[j]].tag_name, 0) is Some);
                }
            },
        }
    }
}

/// The element children of a node that carry one of the listed tags are
/// all listed, once each, in document order: every entry is an element
/// child whose tag is the entry's tag (the first position of that tag in
/// the list), the entries come in increasing position, and every element
/// child whose tag is listed has an entry, whatever its neighbours' tags.
pub proof fn lemma_tagged_children(nodes: Seq<XmlNodeModel>, i: int, tags: Seq<Seq<char>>)
    requires
        0 <= i < nodes.len(),
    ensures
        ({
            let r = tagged_children(nodes, i, tags);
            &&& forall|k: int|
                0 <= k < r.len() ==> is_element_child(nodes, i, #[trigger] r[k].1) && 0 <= r[k].0
                    < tags.len() && tags[r[k].0] == nodes[r[k].1].tag_name && forall|j: int|
                    0 <= j < r[k].0 ==> tags[j] != nodes[r[k].1].tag_name
            &&& forall|k1: int, k2: int| 0 <= k1 < k2 < r.len() ==> #[trigger] r[k1].1 < #[trigger] r[k2].1
            &&& forall|p: int|
                #[trigger] is_element_child(nodes, i, p) && is_listed(tags, nodes[p].tag_name)
                    ==> exists|k: int| 0 <= k < r.len() && r[k].1 == p
        }),
{
    let ps = element_children(nodes, i);
    let pid = nodes[i].id;
    lemma_element_children_from(nodes, pid, i + 1);
    lemma_classify_nodes(nodes, ps, tags);
    let r = tagged_children(nodes, i, tags);
    assert forall|k: int| 0 <= k < r.len() implies is_element_child(nodes, i, #[trigger] r[k].1) && 0
        <= r[k].0 < tags.len() && tags[r[k].0] == nodes[r[k].1].tag_name && forall|j: int|
        0 <= j < r[k].0 ==> tags[j] != nodes[r[k].1].tag_name by {
        let j = choose|j: int| 0 <= j < ps.len() && ps[j] == r[k].1;
        lemma_tag_position_from(tags, nodes[r[k].1].tag_name, 0);
    }
    assert forall|p: int| #[trigger] is_element_child(nodes, i, p) && is_listed(tags, nodes[p].tag_name)
        implies exists|k: int| 0 <= k < r.len() && r[k].1 == p by {
        assert(nodes[p].is_element);
        let j = choose|j: int| 0 <= j < ps.len() && ps[j] == p;
        lemma_tag_position_from(tags, nodes[p].tag_name, 0);
        assert(tag_position_from(tags, nodes[ps[j]].tag_name, 0) is Some);
    }
}

/// The characters of each tag.
pub open spec fn tag_chars(tags: Seq<&str>) -> Seq<Seq<char>> {
    tags.map_values(|t: &str| t@)
}

/// The position in `tags` of the first tag equal to `tag`.
fn tag_position(tags: &[&str], tag: &str) -> (res: Option<usize>)
    ensures
        match res {
            Some(k) => tag_position_from(tag_chars(tags@), tag@, 0) == Some(k as int),
            None => tag_position_from(tag_chars(tags@), tag@, 0) is None,
        },
{
    let ghost all = tag_chars(tags@);
    let mut k: usize = 0;
    while k < tags.len()
        invariant
            k <= tags@.len(),
            all == tag_chars(tags@),
            tag_position_from(all, tag@, 0) == tag_position_from(all, tag@, k as int),
        decreases tags.len() - k,
    {
        assert(all[k as int] == tags@[k as int]@);
        if str_eq(tags[k], tag) {
            return Some(k);
        }
        k = k + 1;
    }
    None
}

impl XmlDocument {
    /// The element children of the node at position `i` whose tag is one of
    /// `tags`, in document order, each as the position of its tag in `tags`
    /// and its own position.
    pub fn tagged_children(&self, i: usize, tags: &[&str]) -> (res: Vec<(usize, usize)>)
        requires
            i < self@.len(),
        ensures
            res@.len() == tagged_children(self@, i as int, tag_chars(tags@)).len(),
            forall|k: int|
                0 <= k < res@.len() ==> (#[trigger] res@[k]).0 as int == tagged_children(
                    self@,
                    i as int,
                    tag_chars(tags@),
                )[k].0 && res@[k].1 as int == tagged_children(self@, i as int, tag_chars(tags@))[k].1,
            forall|k: int| 0 <= k < res@.len() ==> i < (#[trigger] res@[k]).1 < self@.len(),
            forall|k: int|
                0 <= k < res@.len() ==> is_element_child(self@, i as int, (#[trigger] res@[k]).1 as int)
                    && (res@[k].0 as int) < tags@.len() && tags@[res@[k].0 as int]@ == self@[res@[k].1 as int].tag_name,
            forall|k1: int, k2: int|
                0 <= k1 < k2 < res@.len() ==> (#[trigger] res@[k1]).1 < (#[trigger] res@[k2]).1,
            forall|p: int|
                #[trigger] is_element_child(self@, i as int, p) && is_listed(
                    tag_chars(tags@),
                    self@[p].tag_name,
                ) ==> exists|k: int| 0 <= k < res@.len() && res@[k].1 as int == p,
    {
        proof {
            lemma_tagged_children(self@, i as int, tag_chars(tags@));
        }
        let children = self.element_children(i);
        let ghost positions = element_children(self@, i as int);
        let ghost all = tag_chars(tags@);
        let mut res: Vec<(usize, usize)> = Vec::new();
        let mut j: usize = 0;
        assert(positions.take(0) =~= Seq::<int>::empty());
        while j < children.len()
            invariant
                j <= children@.len(),
                children@.len() == positions.len(),
                positions == element_children(self@, i as int),
                all == tag_chars(tags@),
                forall|k: int| 0 <= k < children@.len() ==> children@[k] as int == positions[k],
                forall|k: int| 0 <= k < children@.len() ==> i < #[trigger] children@[k] < self@.len(),
                res@.len() == classify_nodes(self@, positions.take(j as int), all).len(),
                forall|k: int|
                    0 <= k < res@.len() ==> (#[trigger] res@[k]).0 as int == classify_nodes(
                        self@,
                        positions.take(j as int),
                        all,
                    )[k].0 && res@[k].1 as int == classify_nodes(
                        self@,
                        positions.take(j as int),
                        all,
                    )[k].1,
                forall|k: int| 0 <= k < res@.len() ==> i < (#[trigger] res@[k]).1 < self@.len(),
            decreases children@.len() - j,
        {
            let c = children[j];
            assert(positions.take(j + 1).drop_last() =~= positions.take(j as int));
            assert(positions.take(j + 1).last() == c as int);
            assert(self@[c as int] == self.nodes@[c as int]@);
            match tag_position(tags, self.nodes[c].tag_name.as_str()) {
                Some(k) => {
                    res.push((k, c));
                },
                None => {},
            }
            j = j + 1;
        }
        assert(positions.take(children@.len() as int) =~= positions);
        proof {
            let spec = tagged_children(self@, i as int, tag_chars(tags@));
            assert forall|k: int| 0 <= k < res@.len() implies is_element_child(
                self@,
                i as int,
                (#[trigger] res@[k]).1 as int,
            ) && (res@[k].0 as int) < tags@.len() && tags@[res@[k].0 as int]@
                == self@[res@[k].1 as int].tag_name by {
                assert(spec[k].0 == res@[k].0 as int && spec[k].1 == res@[k].1 as int);
                assert(tag_chars(tags@)[spec[k].0] == tags@[spec[k].0]@);
            }
            assert forall|k1: int, k2: int| 0 <= k1 < k2 < res@.len() implies (#[trigger] res@[k1]).1
                < (#[trigger] res@[k2]).1 by {
                assert(spec[k1].1 == res@[k1].1 as int && spec[k2].1 == res@[k2].1 as int);
            }
            assert forall|p: int|
                #[trigger] is_element_child(self@, i as int, p) && is_listed(
                    tag_chars(tags@),
                    self@[p].tag_name,
                ) implies exists|k: int| 0 <= k < res@.len() && res@[k].1 as int == p by {
                let k = choose|k: int| 0 <= k < spec.len() && spec[k].1 == p;
                assert(res@[k].1 as int == spec[k].1);
            }
        }
        res
    }
}

// ---------------------------------------------------------------------------
// Writing
// ---------------------------------------------------------------------------
#[verifier::external_type_specification]
#[verifier::external_body]
pub struct ExXmlWriter(xmlwriter::XmlWriter);

/// Where an `xmlwriter::XmlWriter` stands.
pub enum XmlWriterPhase {
    /// Nothing has been written yet.
    Empty,
    /// Between nodes.
    Document,
    /// A start tag is open, so that attributes may follow.
    Attributes,
}

/// What an `xmlwriter::XmlWriter` holds besides the bytes it has written.
pub struct XmlWriterModel {
    /// Where the writer stands.
    pub phase: XmlWriterPhase,
    /// The open elements, innermost last: the bytes of each name and
    /// whether the element has children yet.
    pub open: Seq<(Seq<u8>, bool)>,
    /// The bytes of one level of node indentation; `None` when nodes are
    /// not indented (`Indent::None`), which also leaves out line breaks.
    pub indent: Option<Seq<u8>>,
    /// The bytes of one level of attribute indentation; `None` when
    /// attributes stay on the tag's line (`Indent::None`).
    pub attributes_indent: Option<Seq<u8>>,
    /// Attribute values are quoted with single quotes.
    pub single_quote: bool,
    /// Whitespace is written as is, without line breaks or indentation.
    pub preserve_whitespaces: bool,
}

/// The state of an `xmlwriter::XmlWriter`: its fields `state`,
/// `depth_stack` (with each open element's name), `opt` and
/// `preserve_whitespaces`.
pub uninterp spec fn xml_writer_model(w: xmlwriter::XmlWriter) -> XmlWriterModel;

/// The bytes that an `xmlwriter::XmlWriter` has written so far.
pub uninterp spec fn xml_writer_output(w: xmlwriter::XmlWriter) -> Seq<u8>;

/// `unit` repeated `n` times.
pub open spec fn repeat_bytes(unit: Seq<u8>, n: nat) -> Seq<u8>
    decreases n,
{
    if n == 0 {
        Seq::empty()
    } else {
        repeat_bytes(unit, (n - 1) as nat) + unit
    }
}

/// The indentation for `depth` levels: nothing when there is no unit or
/// whitespace is preserved.
pub open spec fn indent_bytes(unit: Option<Seq<u8>>, preserve: bool, depth: nat) -> Seq<u8> {
    match unit {
        Some(u) => if preserve {
            Seq::empty()
        } else {
            repeat_bytes(u, depth)
        },
        None => Seq::empty(),
    }
}

/// The line break before a node: none without indentation or when
/// whitespace is preserved.
pub open spec fn new_line_bytes(m: XmlWriterModel) -> Seq<u8> {
    if m.indent is Some && !m.preserve_whitespaces {
        seq![0x0au8]
    } else {
        Seq::empty()
    }
}

/// The bytes that `start_element(name)` appends: `>` to close an open start
/// tag, a line break unless nothing was written, the indentation of the
/// depth, then `<name`.
pub open spec fn start_element_bytes(m: XmlWriterModel, name: Seq<char>) -> Seq<u8> {
    let closes = m.phase is Attributes && m.open.len() > 0;
    (if closes {
        seq![0x3eu8]
    } else {
        Seq::empty()
    }) + (if !(m.phase is Empty) {
        new_line_bytes(m)
    } else {
        Seq::empty()
    }) + indent_bytes(m.indent, m.preserve_whitespaces, m.open.len()) + seq![0x3cu8]
        + encode_utf8(name)
}

/// The state after `start_element(name)`.
pub open spec fn after_start_element(m: XmlWriterModel, name: Seq<char>) -> XmlWriterModel {
    let open = if m.phase is Attributes && m.open.len() > 0 {
        m.open.update(m.open.len() - 1, (m.open.last().0, true))
    } else {
        m.open
    };
    XmlWriterModel {
        phase: XmlWriterPhase::Attributes,
        open: open.push((encode_utf8(name), false)),
        ..m
    }
}

/// The bytes that `end_element()` appends: `/>` for an element without
/// children, else a line break and indentation unless whitespace is
/// preserved, then `</name>`; nothing when no element is open.
pub open spec fn end_element_bytes(m: XmlWriterModel) -> Seq<u8> {
    if m.open.len() == 0 {
        Seq::empty()
    } else if m.open.last().1 {
        (if m.preserve_whitespaces {
            Seq::empty()
        } else {
            new_line_bytes(m) + indent_bytes(
                m.indent,
                m.preserve_whitespaces,
                (m.open.len() - 1) as nat,
            )
        }) + seq![0x3cu8, 0x2fu8] + m.open.last().0 + seq![0x3eu8]
    } else {
        seq![0x2fu8, 0x3eu8]
    }
}

/// The state after `end_element()`.
pub open spec fn after_end_element(m: XmlWriterModel) -> XmlWriterModel {
    XmlWriterModel {
        phase: XmlWriterPhase::Document,
        open: if m.open.len() == 0 {
            m.open
        } else {
            m.open.drop_last()
        },
        ..m
    }
}

/// `bytes` with every `quote` byte replaced by `escape`.
pub open spec fn escape_quote(bytes: Seq<u8>, quote: u8, escape: Seq<u8>) -> Seq<u8>
    decreases bytes.len(),
{
    if bytes.len() == 0 {
        bytes
    } else {
        let init = escape_quote(bytes.drop_last(), quote, escape);
        if bytes.last() == quote {
            init + escape
        } else {
            init.push(bytes.last())
        }
    }
}

/// The quote byte of attribute values.
pub open spec fn quote_byte(m: XmlWriterModel) -> u8 {
    if m.single_quote {
        0x27u8
    } else {
        0x22u8
    }
}

/// What a quote in an attribute value is written as: `&apos;` or `&quot;`.
pub open spec fn quote_escape(m: XmlWriterModel) -> Seq<u8> {
    if m.single_quote {
        seq![0x26u8, 0x61u8, 0x70u8, 0x6fu8, 0x73u8, 0x3bu8]
    } else {
        seq![0x26u8, 0x71u8, 0x75u8, 0x6fu8, 0x74u8, 0x3bu8]
    }
}

/// The bytes that `write_attribute(name, value)` appends: a space, or a
/// line break and the indentation of the element and of one attribute
/// level, then `name=`, the quoted value with its quotes escaped.
pub open spec fn attribute_bytes(m: XmlWriterModel, name: Seq<char>, value: Seq<char>) -> Seq<u8> {
    let prefix = match m.attributes_indent {
        None => seq![0x20u8],
        Some(_) => seq![0x0au8] + (if m.open.len() > 0 {
            indent_bytes(m.indent, m.preserve_whitespaces, (m.open.len() - 1) as nat)
        } else {
            Seq::empty()
        }) + indent_bytes(m.attributes_indent, m.preserve_whitespaces, 1),
    };
    prefix + encode_utf8(name) + seq![0x3du8, quote_byte(m)] + escape_quote(
        encode_utf8(value),
        quote_byte(m),
        quote_escape(m),
    ) + seq![quote_byte(m)]
}

/// The bytes of a list of attributes written in order.
pub open spec fn attributes_bytes(m: XmlWriterModel, attrs: Seq<(Seq<char>, Seq<char>)>) -> Seq<u8>
    decreases attrs.len(),
{
    if attrs.len() == 0 {
        Seq::empty()
    } else {
        attributes_bytes(m, attrs.drop_last()) + attribute_bytes(
            m,
            attrs.last().0,
            attrs.last().1,
        )
    }
}

/// `XmlWriter::start_element`: closes an open start tag, then opens the
/// element `name`; attributes may follow.
#[verifier::external_body]
pub(crate) fn start_element(w: &mut xmlwriter::XmlWriter, name: &str)
    ensures
        xml_writer_model(*final(w)) == after_start_element(xml_writer_model(*old(w)), name@),
        xml_writer_output(*final(w)) == xml_writer_output(*old(w)) + start_element_bytes(
            xml_writer_model(*old(w)),
            name@,
        ),
{
    w.start_element(name)
}

/// `XmlWriter::write_attribute`: adds an attribute to the open start tag,
/// which it panics without.
#[verifier::external_body]
pub(crate) fn write_attribute(w: &mut xmlwriter::XmlWriter, name: &str, value: &str)
    requires
        xml_writer_model(*old(w)).phase is Attributes,
    ensures
        xml_writer_model(*final(w)) == xml_writer_model(*old(w)),
        xml_writer_output(*final(w)) == xml_writer_output(*old(w)) + attribute_bytes(
            xml_writer_model(*old(w)),
            name@,
            value@,
        ),
{
    w.write_attribute(name, value)
}

/// `XmlWriter::end_element`: closes the innermost open element, if any.
#[verifier::external_body]
pub(crate) fn end_element(w: &mut xmlwriter::XmlWriter)
    ensures
        xml_writer_model(*final(w)) == after_end_element(xml_writer_model(*old(w))),
        xml_writer_output(*final(w)) == xml_writer_output(*old(w)) + end_element_bytes(
            xml_writer_model(*old(w)),
        ),
{
    w.end_element()
}

} // verus!
