//! XML documents, as `roxmltree` parses them.
//!
//! Nodes are known by their number in document order. What the parser finds is a
//! function of the text, and is named here; nothing else is claimed of it.

use vstd::prelude::*;

verus! {

/// `roxmltree::Document`: a parsed document.
#[verifier::external_type_specification]
#[verifier::external_body]
pub struct ExDocument<'input>(roxmltree::Document<'input>);

/// The text that a document was parsed from.
pub uninterp spec fn document_text(document: roxmltree::Document<'_>) -> Seq<char>;

/// What `roxmltree` says is wrong with a text, if it cannot be parsed.
pub uninterp spec fn xml_failure(text: Seq<char>) -> Option<Seq<char>>;

/// The local name of the node's tag, if there is such a node.
pub uninterp spec fn xml_tag(text: Seq<char>, node: int) -> Option<Seq<char>>;

/// The byte at which the node starts in the text.
pub uninterp spec fn xml_start(text: Seq<char>, node: int) -> int;

/// The value of the node's first attribute of that local name, in any namespace or none.
pub uninterp spec fn xml_attribute(text: Seq<char>, node: int, name: Seq<char>) -> Option<
    Seq<char>,
>;

/// The value of the node's attribute of that name and namespace.
pub uninterp spec fn xml_attribute_in(
    text: Seq<char>,
    node: int,
    namespace: Seq<char>,
    name: Seq<char>,
) -> Option<Seq<char>>;

/// The element that holds the node, if there is one.
pub uninterp spec fn xml_parent(text: Seq<char>, node: int) -> Option<int>;

/// The first element that no other one holds.
pub uninterp spec fn xml_root(text: Seq<char>) -> int;

/// `roxmltree::Document::parse_with_options` with document type definitions allowed
/// and the other options as they are by default. Whether it succeeds, and the text of
/// its error, depend on the text alone; a document remembers its text.
#[verifier::external_body]
pub(crate) fn parse_xml<'a>(text: &'a str) -> (res: Result<roxmltree::Document<'a>, String>)
    ensures
        match res {
            Ok(document) => xml_failure(text@) is None && document_text(document) == text@,
            Err(error) => xml_failure(text@) == Some(error@),
        },
{
    let options = roxmltree::ParsingOptions { allow_dtd: true, ..Default::default() };
    roxmltree::Document::parse_with_options(text, options).map_err(|error| error.to_string())
}

/// `roxmltree::Node::tag_name` of the node with that number; `None` where
/// `Document::get_node` finds none.
#[verifier::external_body]
pub(crate) fn node_tag(document: &roxmltree::Document<'_>, node: u32) -> (res: Option<String>)
    requires
        node < u32::MAX,
    ensures
        match res {
            Some(tag) => xml_tag(document_text(*document), node as int) == Some(tag@),
            None => xml_tag(document_text(*document), node as int) is None,
        },
{
    document.get_node(roxmltree::NodeId::new(node)).map(|found| found.tag_name().name().to_owned())
}

/// The start of `roxmltree::Node::range`, of a node that is there.
#[verifier::external_body]
pub(crate) fn node_start(document: &roxmltree::Document<'_>, node: u32) -> (res: usize)
    requires
        node < u32::MAX,
        xml_tag(document_text(*document), node as int) is Some,
    ensures
        res == xml_start(document_text(*document), node as int),
{
    document.get_node(roxmltree::NodeId::new(node)).unwrap().range().start
}

/// `roxmltree::Node::attribute` with a name that gives no namespace, which any attribute of
/// that local name matches.
#[verifier::external_body]
pub(crate) fn node_attribute(
    document: &roxmltree::Document<'_>,
    node: u32,
    name: &str,
) -> (res: Option<String>)
    requires
        node < u32::MAX,
    ensures
        match res {
            Some(value) => xml_attribute(document_text(*document), node as int, name@) == Some(
                value@,
            ),
            None => xml_attribute(document_text(*document), node as int, name@) is None,
        },
{
    let found = document.get_node(roxmltree::NodeId::new(node))?;
    found.attribute(name).map(str::to_owned)
}

/// `roxmltree::Node::attribute` with a name in a namespace.
#[verifier::external_body]
pub(crate) fn node_attribute_in(
    document: &roxmltree::Document<'_>,
    node: u32,
    namespace: &str,
    name: &str,
) -> (res: Option<String>)
    requires
        node < u32::MAX,
    ensures
        match res {
            Some(value) => xml_attribute_in(
                document_text(*document),
                node as int,
                namespace@,
                name@,
            ) == Some(value@),
            None => xml_attribute_in(
                document_text(*document),
                node as int,
                namespace@,
                name@,
            ) is None,
        },
{
    let found = document.get_node(roxmltree::NodeId::new(node))?;
    found.attribute((namespace, name)).map(str::to_owned)
}

/// `roxmltree::Node::parent_element`. An element comes before what it holds, so its
/// number is the smaller one.
#[verifier::external_body]
pub(crate) fn node_parent(document: &roxmltree::Document<'_>, node: u32) -> (res: Option<u32>)
    requires
        node < u32::MAX,
    ensures
        match res {
            Some(parent) => xml_parent(document_text(*document), node as int) == Some(
                parent as int,
            ),
            None => xml_parent(document_text(*document), node as int) is None,
        },
        res matches Some(parent) ==> parent < node,
{
    let found = document.get_node(roxmltree::NodeId::new(node))?;
    found.parent_element().map(|parent| parent.id().get())
}

/// `roxmltree::Document::root_element`.
#[verifier::external_body]
pub(crate) fn root_node(document: &roxmltree::Document<'_>) -> (res: u32)
    ensures
        res == xml_root(document_text(*document)),
{
    document.root_element().id().get()
}

} // verus!
