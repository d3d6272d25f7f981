use rnote::error::XoppError;
use rnote::file::{decode_xopp_bytes, encode_xopp_bytes};
use rnote::textured::TexturedDotsDistribution;
use rnote::xml::XmlDocument;

#[test]
fn encode_then_decode() {
    let xml = "<xournal fileversion=\"4\"><title>T</title><page/></xournal>";
    let bytes = encode_xopp_bytes(xml, "doc.xopp").unwrap();
    // gzip magic number
    assert_eq!(&bytes[..2], &[0x1f, 0x8b]);
    let doc = decode_xopp_bytes(&bytes).unwrap();
    let root = doc.root_element().unwrap();
    assert_eq!(doc.nodes[root].tag_name, "xournal");
    assert_eq!(doc.nodes[root].attribute("fileversion"), Some("4"));
    let children = doc.element_children(root);
    assert_eq!(children.len(), 2);
    assert_eq!(doc.nodes[children[0]].tag_name, "title");
    assert_eq!(doc.nodes[children[0]].text.as_deref(), Some("T"));
    assert_eq!(doc.nodes[children[1]].tag_name, "page");
}

#[test]
fn decode_errors() {
    assert_eq!(decode_xopp_bytes(b"not gzip").err(), Some(XoppError::Decompression));
    let bytes = encode_xopp_bytes("<a></b>", "x").unwrap();
    assert!(matches!(decode_xopp_bytes(&bytes), Err(XoppError::InvalidXml { .. })));
}

#[test]
fn document_structure() {
    let doc = XmlDocument::parse("<!-- c --><r a='1'>hi<b/>tail<c><d/></c></r>").unwrap();
    let root = doc.root_element().unwrap();
    assert_eq!(doc.nodes[root].tag_name, "r");
    assert_eq!(doc.nodes[root].text.as_deref(), Some("hi"));
    let kids = doc.element_children(root);
    let names: Vec<&str> = kids.iter().map(|&k| doc.nodes[k].tag_name.as_str()).collect();
    assert_eq!(names, vec!["b", "c"]);
    assert!(XmlDocument::parse("<a></b>").is_err());
}

#[test]
fn textured_default() {
    assert_eq!(TexturedDotsDistribution::default(), TexturedDotsDistribution::Normal);
}

#[test]
fn tagged_children_in_document_order() {
    let doc = XmlDocument::parse(
        "<layer><text/><stroke/><other/><image/><stroke/>x<text/></layer>",
    )
    .unwrap();
    let root = doc.root_element().unwrap();
    let tagged = doc.tagged_children(root, &["stroke", "text", "image"]);
    let kinds: Vec<usize> = tagged.iter().map(|&(k, _)| k).collect();
    assert_eq!(kinds, vec![1, 0, 2, 0, 1]);
    for &(k, p) in tagged.iter() {
        assert_eq!(doc.nodes[p].tag_name, ["stroke", "text", "image"][k]);
    }
    // a tag listed twice is classified by its first position
    let tagged = doc.tagged_children(root, &["image", "image"]);
    assert_eq!(tagged.len(), 1);
    assert_eq!(tagged[0].0, 0);
}

#[test]
fn concatenated_members_are_all_read() {
    let mut bytes = encode_xopp_bytes("<r><a/>", "one").unwrap();
    bytes.extend(encode_xopp_bytes("<b/></r>", "two").unwrap());
    let doc = decode_xopp_bytes(&bytes).unwrap();
    let root = doc.root_element().unwrap();
    let kids = doc.element_children(root);
    assert_eq!(kids.len(), 2);
    assert_eq!(doc.nodes[kids[1]].tag_name, "b");
}
