//! Sidecar documents: rewriting the reference that a sidecar holds to the
//! picture it belongs to.

use vstd::prelude::*;

verus! {

/// An element of a parsed sidecar document.
#[verifier::external_type_specification]
#[verifier::external_body]
pub struct ExElement(minidom::Element);

/// The error that `minidom` reports on reading or writing a document.
#[verifier::external_type_specification]
#[verifier::external_body]
pub struct ExDomError(minidom::Error);

/// A node below an element: a child element or a run of text.
pub enum NodeModel {
    Element(ElementModel),
    Text(Seq<char>),
}

/// An element as a tree of plain values: its local name, its namespace,
/// its attributes by name, and the nodes below it, child elements and
/// text alike, in document order.
pub struct ElementModel {
    pub name: Seq<char>,
    pub namespace: Seq<char>,
    pub attributes: Map<Seq<char>, Seq<char>>,
    pub nodes: Seq<NodeModel>,
}

/// The local name of an element.
pub uninterp spec fn element_name(elem: minidom::Element) -> Seq<char>;

/// The namespace of an element.
pub uninterp spec fn element_namespace(elem: minidom::Element) -> Seq<char>;

/// The attributes of an element: each attribute's name, as the document
/// writes it, and its value.
pub uninterp spec fn attributes(elem: minidom::Element) -> Map<Seq<char>, Seq<char>>;

/// The nodes below an element, child elements and text, in document
/// order.
pub uninterp spec fn nodes(elem: minidom::Element) -> Seq<NodeModel>;

/// The bytes that writing an element out as a document gives.
pub uninterp spec fn document_bytes(elem: minidom::Element) -> Seq<u8>;

/// The root element that `minidom` parses out of `text`, or `None` where it
/// reports an error.
pub uninterp spec fn parsed(text: Seq<char>) -> Option<ElementModel>;

/// An element as a tree of plain values.
pub open spec fn model_of(elem: minidom::Element) -> ElementModel {
    ElementModel {
        name: element_name(elem),
        namespace: element_namespace(elem),
        attributes: attributes(elem),
        nodes: nodes(elem),
    }
}

/// Why a sidecar cannot be patched.
#[derive(Debug, Clone, Copy, PartialEq, Eq, Structural)]
pub enum SidecarError {
    /// The sidecar is no well-formed document.
    Malformed,
    /// The document has no RDF element below its root.
    MissingRdf,
    /// The RDF element has no description element.
    MissingDescription,
    /// The description carries no reference to a picture.
    MissingDerivedFrom,
}

/// The namespace of the RDF elements.
pub open spec fn rdf_namespace() -> Seq<char> {
    "http://www.w3.org/1999/02/22-rdf-syntax-ns#"@
}

/// The name of the attribute that refers to the picture.
pub open spec fn derived_from_key() -> Seq<char> {
    "xmpMM:DerivedFrom"@
}

/// Whether `node` is an element with the given name and namespace.
pub open spec fn is_named(node: NodeModel, name: Seq<char>, namespace: Seq<char>) -> bool {
    match node {
        NodeModel::Element(e) => e.name == name && e.namespace == namespace,
        NodeModel::Text(_) => false,
    }
}

/// Whether the first element of `nodes` with the given name and namespace
/// stands at position `i`.
pub open spec fn is_first_at(nodes: Seq<NodeModel>, name: Seq<char>, namespace: Seq<char>, i: int) -> bool {
    &&& 0 <= i < nodes.len()
    &&& is_named(nodes[i], name, namespace)
    &&& forall|j: int| 0 <= j < i ==> !is_named(#[trigger] nodes[j], name, namespace)
}

/// Whether an element of `nodes` has the given name and namespace.
pub open spec fn has_child(nodes: Seq<NodeModel>, name: Seq<char>, namespace: Seq<char>) -> bool {
    exists|i: int| is_first_at(nodes, name, namespace, i)
}

/// The position in `nodes` of the first element with the given name and
/// namespace; meaningful where `has_child`.
pub open spec fn first_child(nodes: Seq<NodeModel>, name: Seq<char>, namespace: Seq<char>) -> int {
    choose|i: int| is_first_at(nodes, name, namespace, i)
}

/// The element at position `i` of `nodes`; meaningful where an element
/// stands there.
pub open spec fn element_at(nodes: Seq<NodeModel>, i: int) -> ElementModel {
    nodes[i]->Element_0
}

/// `elem` with the attribute `key` set to `value`.
pub open spec fn with_attribute(elem: ElementModel, key: Seq<char>, value: Seq<char>) -> ElementModel {
    ElementModel {
        name: elem.name,
        namespace: elem.namespace,
        attributes: elem.attributes.insert(key, value),
        nodes: elem.nodes,
    }
}

/// `elem` with the element `child` in the place of its node at position
/// `i`, and every other node, element or text, as before.
pub open spec fn with_child(elem: ElementModel, i: int, child: ElementModel) -> ElementModel {
    ElementModel {
        name: elem.name,
        namespace: elem.namespace,
        attributes: elem.attributes,
        nodes: elem.nodes.update(i, NodeModel::Element(child)),
    }
}

/// What pointing a description at `img_path` comes to: a description
/// without the reference attribute is refused, any other gets the
/// attribute's value replaced.
pub open spec fn described(description: ElementModel, img_path: Seq<char>) -> Result<ElementModel, SidecarError> {
    if description.attributes.contains_key(derived_from_key()) {
        Ok(with_attribute(description, derived_from_key(), img_path))
    } else {
        Err(SidecarError::MissingDerivedFrom)
    }
}

/// What patching a document comes to. The description is the first
/// description element of the first RDF element below the root; a document
/// that lacks either, or whose description lacks the reference attribute,
/// is refused. Otherwise the document is as before but for the value of
/// that one attribute, which is `img_path`: every other element,
/// attribute and text is kept, in its place.
pub open spec fn patched(doc: ElementModel, img_path: Seq<char>) -> Result<ElementModel, SidecarError> {
    if !has_child(doc.nodes, "RDF"@, rdf_namespace()) {
        Err(SidecarError::MissingRdf)
    } else {
        let i = first_child(doc.nodes, "RDF"@, rdf_namespace());
        let rdf = element_at(doc.nodes, i);
        if !has_child(rdf.nodes, "Description"@, rdf_namespace()) {
            Err(SidecarError::MissingDescription)
        } else {
            let j = first_child(rdf.nodes, "Description"@, rdf_namespace());
            match described(element_at(rdf.nodes, j), img_path) {
                Err(e) => Err(e),
                Ok(description) => Ok(with_child(doc, i, with_child(rdf, j, description))),
            }
        }
    }
}

/// Patching touches one attribute of one element: the root keeps its name,
/// namespace and attributes, every node below it but the RDF element is as
/// before, and so is every node below the RDF element but the description,
/// which keeps its name, namespace, nodes and every other attribute.
pub proof fn lemma_patch_keeps_the_rest(doc: ElementModel, img_path: Seq<char>)
    requires
        patched(doc, img_path).is_ok(),
    ensures
        ({
            let after = patched(doc, img_path).unwrap();
            let i = first_child(doc.nodes, "RDF"@, rdf_namespace());
            let rdf = element_at(doc.nodes, i);
            let rdf_after = element_at(after.nodes, i);
            let j = first_child(rdf.nodes, "Description"@, rdf_namespace());
            let description = element_at(rdf.nodes, j);
            let description_after = element_at(rdf_after.nodes, j);
            &&& after.name == doc.name && after.namespace == doc.namespace && after.attributes == doc.attributes
            &&& after.nodes.len() == doc.nodes.len()
            &&& forall|k: int| 0 <= k < doc.nodes.len() && k != i ==> after.nodes[k] == doc.nodes[k]
            &&& rdf_after.name == rdf.name && rdf_after.namespace == rdf.namespace && rdf_after.attributes
                == rdf.attributes
            &&& rdf_after.nodes.len() == rdf.nodes.len()
            &&& forall|k: int| 0 <= k < rdf.nodes.len() && k != j ==> rdf_after.nodes[k] == rdf.nodes[k]
            &&& description_after.name == description.name && description_after.namespace == description.namespace
            &&& description_after.nodes == description.nodes
            &&& description_after.attributes == description.attributes.insert(derived_from_key(), img_path)
        }),
{
}

/// Whether `r` is the outcome `expected` of rewriting a sidecar: the
/// expected error, or the bytes of a document that is the expected one.
pub open spec fn is_rewritten(r: Result<Vec<u8>, SidecarError>, expected: Result<ElementModel, SidecarError>) -> bool {
    match expected {
        Err(e) => r == Err::<Vec<u8>, SidecarError>(e),
        Ok(doc) => r.is_ok() && exists|root: minidom::Element|
            model_of(root) == doc && r.unwrap()@ == #[trigger] document_bytes(root),
    }
}

/// What rewriting the sidecar text `content` comes to: text that does not
/// parse is refused, any other is patched.
pub open spec fn rewritten(content: Seq<char>, img_path: Seq<char>) -> Result<ElementModel, SidecarError> {
    match parsed(content) {
        None => Err(SidecarError::Malformed),
        Some(doc) => patched(doc, img_path),
    }
}

/// Parses a document from its text by `minidom::Element`'s `from_str`.
/// The root element that comes back is the one that `parsed` names; an
/// error comes back exactly where `parsed` names none.
#[verifier::external_body]
fn parse_document(text: &str) -> (r: Result<minidom::Element, minidom::Error>)
    ensures
        match r {
            Ok(root) => parsed(text@) == Some(model_of(root)),
            Err(_) => parsed(text@).is_none(),
        },
{
    text.parse::<minidom::Element>()
}

/// Calls `minidom::Element::get_child_mut`, which goes through the nodes
/// below the element in order and hands out the first that is an element
/// with the given name and namespace, or none where there is no such node.
/// The element itself changes only in that node, which ends as the
/// reference handed out leaves it.
#[verifier::external_body]
fn child_mut<'a>(elem: &'a mut minidom::Element, name: &str, namespace: &str) -> (r: Option<&'a mut minidom::Element>)
    ensures
        r.is_some() == has_child(nodes(*old(elem)), name@, namespace@),
        r.is_none() ==> *final(elem) == *old(elem),
        r.is_some() ==> ({
            let i = first_child(nodes(*old(elem)), name@, namespace@);
            &&& model_of(*r.unwrap()) == element_at(nodes(*old(elem)), i)
            &&& model_of(*final(elem)) == with_child(model_of(*old(elem)), i, model_of(*final(r.unwrap())))
        }),
{
    elem.get_child_mut(name, namespace)
}

/// Calls `minidom::Element::attr` and tells whether the element has the
/// attribute.
#[verifier::external_body]
fn has_attr(elem: &minidom::Element, name: &str) -> (r: bool)
    ensures
        r == attributes(*elem).contains_key(name@),
{
    elem.attr(name).is_some()
}

/// Calls `minidom::Element::set_attr` with a text value: afterwards the
/// attribute has that value, and name, namespace, the other attributes and
/// the nodes below are as before.
#[verifier::external_body]
fn set_attr(elem: &mut minidom::Element, name: &str, value: &str)
    ensures
        attributes(*final(elem)) == attributes(*old(elem)).insert(name@, value@),
        nodes(*final(elem)) == nodes(*old(elem)),
        element_name(*final(elem)) == element_name(*old(elem)),
        element_namespace(*final(elem)) == element_namespace(*old(elem)),
{
    elem.set_attr(name, value)
}

/// Writes a document out into memory by `minidom::Element::write_to`.
/// That call fails only where its writer does, which a vector never does:
/// it succeeds, and the bytes are those that `document_bytes` names.
#[verifier::external_body]
fn serialize(root: &minidom::Element) -> (r: Result<Vec<u8>, minidom::Error>)
    ensures
        r.is_ok(),
        r.unwrap()@ == document_bytes(*root),
{
    let mut out: Vec<u8> = Vec::new();
    root.write_to(&mut out).map(|_| out)
}

/// Points a description at the picture `img_path`. A description without
/// the reference attribute is refused and left as it is.
pub fn set_derived_from(description: &mut minidom::Element, img_path: &str) -> (r: Result<(), SidecarError>)
    ensures
        match described(model_of(*old(description)), img_path@) {
            Ok(after) => r.is_ok() && model_of(*final(description)) == after,
            Err(e) => r == Err::<(), SidecarError>(e) && *final(description) == *old(description),
        },
{
    if has_attr(description, "xmpMM:DerivedFrom") {
        set_attr(description, "xmpMM:DerivedFrom", img_path);
        Ok(())
    } else {
        Err(SidecarError::MissingDerivedFrom)
    }
}

/// Points the description of a parsed sidecar at the picture `img_path`.
/// A document that is refused is left as it is.
pub fn patch_document(root: &mut minidom::Element, img_path: &str) -> (r: Result<(), SidecarError>)
    ensures
        match patched(model_of(*old(root)), img_path@) {
            Ok(after) => r.is_ok() && model_of(*final(root)) == after,
            Err(e) => r == Err::<(), SidecarError>(e) && model_of(*final(root)) == model_of(*old(root)),
        },
{
    let ghost before = model_of(*root);
    match child_mut(root, "RDF", "http://www.w3.org/1999/02/22-rdf-syntax-ns#") {
        None => Err(SidecarError::MissingRdf),
        Some(rdf) => {
            let ghost rdf_before = model_of(*rdf);
            match child_mut(rdf, "Description", "http://www.w3.org/1999/02/22-rdf-syntax-ns#") {
                None => {
                    assert(before.nodes.update(
                        first_child(before.nodes, "RDF"@, rdf_namespace()),
                        NodeModel::Element(rdf_before),
                    ) =~= before.nodes);
                    Err(SidecarError::MissingDescription)
                },
                Some(description) => {
                    let ghost description_before = model_of(*description);
                    let r = set_derived_from(description, img_path);
                    proof {
                        let j = first_child(rdf_before.nodes, "Description"@, rdf_namespace());
                        let i = first_child(before.nodes, "RDF"@, rdf_namespace());
                        if r.is_err() {
                            assert(rdf_before.nodes.update(j, NodeModel::Element(description_before))
                                =~= rdf_before.nodes);
                            assert(before.nodes.update(i, NodeModel::Element(rdf_before)) =~= before.nodes);
                        }
                    }
                    r
                },
            }
        },
    }
}

/// Rewrites the text of a sidecar so that it refers to the picture
/// `img_path`, and hands out the new text as bytes.
///
/// Text that is no document gives `Malformed`. A document without the RDF
/// element, without the description in it, or without the reference
/// attribute on that, gives the error that says so. Any other document is
/// written out with the reference set to `img_path` and nothing else
/// changed among its elements, attributes and text.
pub fn rewrite_sidecar_file(content: &str, img_path: &str) -> (r: Result<Vec<u8>, SidecarError>)
    ensures
        is_rewritten(r, rewritten(content@, img_path@)),
{
    match parse_document(content) {
        Err(_) => Err(SidecarError::Malformed),
        Ok(mut root) => match patch_document(&mut root, img_path) {
            Err(e) => Err(e),
            Ok(()) => match serialize(&root) {
                Ok(bytes) => Ok(bytes),
                Err(_) => vstd::pervasive::unreached(),
            },
        },
    }
}

} // verus!
