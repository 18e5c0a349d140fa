use photo_organizer::prefix::{get_default_prefix, prefix_from_capture};
use photo_organizer::sidecar::{rewrite_sidecar_file, SidecarError};

const RDF: &str = "http://www.w3.org/1999/02/22-rdf-syntax-ns#";

fn sidecar(description: &str) -> String {
    format!(
        "<x:xmpmeta xmlns:x=\"adobe:ns:meta/\"><rdf:RDF xmlns:rdf=\"{}\">{}</rdf:RDF></x:xmpmeta>",
        RDF, description
    )
}

fn described(attributes: &str) -> String {
    sidecar(&format!(
        "<rdf:Description xmlns:xmpMM=\"http://ns.adobe.com/xap/1.0/mm/\" rdf:about=\"\" {}/>",
        attributes
    ))
}

#[test]
fn the_reference_is_rewritten() {
    let text = described("xmpMM:DerivedFrom=\"DSC001.NEF\"");
    let out = rewrite_sidecar_file(&text, "0007 2024-01-01 12-00-00 Model.NEF").unwrap();
    let out = String::from_utf8(out).unwrap();
    assert!(out.contains("xmpMM:DerivedFrom=\"0007 2024-01-01 12-00-00 Model.NEF\""), "{}", out);
    assert!(!out.contains("DSC001.NEF"), "{}", out);
}

#[test]
fn the_rewritten_sidecar_reads_back_with_the_new_reference() {
    let text = described("xmpMM:DerivedFrom=\"old.nef\" xmpMM:Other=\"kept\"");
    let out = rewrite_sidecar_file(&text, "/photos/new.nef").unwrap();
    let out = String::from_utf8(out).unwrap();
    let root: minidom::Element = out.parse().unwrap();
    let description = root.get_child("RDF", RDF).unwrap().get_child("Description", RDF).unwrap();
    assert_eq!(description.attr("xmpMM:DerivedFrom"), Some("/photos/new.nef"));
    assert_eq!(description.attr("xmpMM:Other"), Some("kept"));
}

#[test]
fn rewriting_twice_is_rewriting_once() {
    let text = described("xmpMM:DerivedFrom=\"old.nef\"");
    let once = rewrite_sidecar_file(&text, "new.nef").unwrap();
    let twice = rewrite_sidecar_file(&String::from_utf8(once.clone()).unwrap(), "new.nef").unwrap();
    assert_eq!(once, twice);
}

#[test]
fn text_that_is_no_document_is_refused() {
    assert_eq!(rewrite_sidecar_file("", "a.nef"), Err(SidecarError::Malformed));
    assert_eq!(rewrite_sidecar_file("not xml at all", "a.nef"), Err(SidecarError::Malformed));
    assert_eq!(rewrite_sidecar_file("<a xmlns=\"n\"><b></a>", "a.nef"), Err(SidecarError::Malformed));
}

#[test]
fn a_document_without_rdf_is_refused() {
    assert_eq!(
        rewrite_sidecar_file("<x:xmpmeta xmlns:x=\"adobe:ns:meta/\"></x:xmpmeta>", "a.nef"),
        Err(SidecarError::MissingRdf)
    );
    let other_namespace = "<x:xmpmeta xmlns:x=\"adobe:ns:meta/\"><RDF xmlns=\"elsewhere\"/></x:xmpmeta>";
    assert_eq!(rewrite_sidecar_file(other_namespace, "a.nef"), Err(SidecarError::MissingRdf));
}

#[test]
fn a_document_without_description_is_refused() {
    assert_eq!(rewrite_sidecar_file(&sidecar(""), "a.nef"), Err(SidecarError::MissingDescription));
}

#[test]
fn a_description_without_reference_is_refused() {
    assert_eq!(rewrite_sidecar_file(&described(""), "a.nef"), Err(SidecarError::MissingDerivedFrom));
    assert_eq!(
        rewrite_sidecar_file(&described("xmpMM:DocumentID=\"7\""), "a.nef"),
        Err(SidecarError::MissingDerivedFrom)
    );
}

#[test]
fn default_prefix_drops_leading_digits_spaces_and_dashes() {
    assert_eq!(get_default_prefix(Some("2024-01-05 Trip to Rome")), Some(String::from("Trip to Rome")));
    assert_eq!(get_default_prefix(Some("Holiday")), Some(String::from("Holiday")));
    assert_eq!(get_default_prefix(Some("01 - 2nd day")), Some(String::from("nd day")));
    assert_eq!(get_default_prefix(Some("a-1 2")), Some(String::from("a-1 2")));
}

#[test]
fn default_prefix_may_be_empty() {
    assert_eq!(get_default_prefix(Some("2024-01-05")), Some(String::new()));
    assert_eq!(get_default_prefix(Some("")), Some(String::new()));
    assert_eq!(get_default_prefix(None), Some(String::new()));
}

#[test]
fn default_prefix_of_a_name_with_a_line_break_is_none() {
    assert_eq!(get_default_prefix(Some("2024 two\nlines")), None);
}

#[test]
fn prefix_from_capture_goes_by_the_capture() {
    assert_eq!(prefix_from_capture(Some("x"), Some(String::from("y"))), Some(String::from("y")));
    assert_eq!(prefix_from_capture(Some("x"), None), None);
    assert_eq!(prefix_from_capture(None, Some(String::from("y"))), Some(String::new()));
    assert_eq!(prefix_from_capture(None, None), Some(String::new()));
}

const MM: &str = "xmlns:xmpMM=\"http://ns.adobe.com/xap/1.0/mm/\"";

#[test]
fn only_the_first_description_is_rewritten() {
    let text = sidecar(&format!(
        "<rdf:Description {} xmpMM:DerivedFrom=\"a.nef\"/><rdf:Description {} xmpMM:DerivedFrom=\"b.nef\"/>",
        MM, MM
    ));
    let out = String::from_utf8(rewrite_sidecar_file(&text, "new.nef").unwrap()).unwrap();
    let root: minidom::Element = out.parse().unwrap();
    let references: Vec<Option<&str>> =
        root.get_child("RDF", RDF).unwrap().children().map(|d| d.attr("xmpMM:DerivedFrom")).collect();
    assert_eq!(references, vec![Some("new.nef"), Some("b.nef")]);
}

#[test]
fn the_first_rdf_element_decides() {
    let text = format!(
        "<x:xmpmeta xmlns:x=\"adobe:ns:meta/\" xmlns:rdf=\"{}\"><rdf:RDF/><rdf:RDF><rdf:Description {} \
         xmpMM:DerivedFrom=\"a.nef\"/></rdf:RDF></x:xmpmeta>",
        RDF, MM
    );
    assert_eq!(rewrite_sidecar_file(&text, "new.nef"), Err(SidecarError::MissingDescription));
}

#[test]
fn the_first_description_decides() {
    let text = sidecar(&format!(
        "<rdf:Description {} rdf:about=\"\"/><rdf:Description {} xmpMM:DerivedFrom=\"b.nef\"/>",
        MM, MM
    ));
    assert_eq!(rewrite_sidecar_file(&text, "new.nef"), Err(SidecarError::MissingDerivedFrom));
}

#[test]
fn elements_of_other_names_are_passed_over() {
    let text = format!(
        "<x:xmpmeta xmlns:x=\"adobe:ns:meta/\" xmlns:rdf=\"{}\"><x:note/><rdf:RDF><rdf:Bag/><rdf:Description {} \
         xmpMM:DerivedFrom=\"a.nef\" xmpMM:Kept=\"yes\"><rdf:Bag/></rdf:Description></rdf:RDF></x:xmpmeta>",
        RDF, MM
    );
    let out = String::from_utf8(rewrite_sidecar_file(&text, "new.nef").unwrap()).unwrap();
    let root: minidom::Element = out.parse().unwrap();
    assert_eq!(root.children().count(), 2);
    let rdf = root.get_child("RDF", RDF).unwrap();
    assert_eq!(rdf.children().count(), 2);
    let description = rdf.get_child("Description", RDF).unwrap();
    assert_eq!(description.attr("xmpMM:DerivedFrom"), Some("new.nef"));
    assert_eq!(description.attr("xmpMM:Kept"), Some("yes"));
    assert_eq!(description.children().count(), 1);
}

#[test]
fn text_is_kept_in_its_place() {
    let text = format!(
        "<x:xmpmeta xmlns:x=\"adobe:ns:meta/\" xmlns:rdf=\"{}\">before<rdf:RDF>one<rdf:Description {} \
         xmpMM:DerivedFrom=\"a.nef\">inside &amp; out</rdf:Description>two</rdf:RDF>after</x:xmpmeta>",
        RDF, MM
    );
    let out = String::from_utf8(rewrite_sidecar_file(&text, "new.nef").unwrap()).unwrap();
    let root: minidom::Element = out.parse().unwrap();
    let texts: Vec<&str> = root.texts().collect();
    assert_eq!(texts, vec!["before", "after"]);
    let rdf = root.get_child("RDF", RDF).unwrap();
    let texts: Vec<&str> = rdf.texts().collect();
    assert_eq!(texts, vec!["one", "two"]);
    let description = rdf.get_child("Description", RDF).unwrap();
    assert_eq!(description.text(), "inside & out");
    assert_eq!(description.attr("xmpMM:DerivedFrom"), Some("new.nef"));
    let before: minidom::Element = text.parse().unwrap();
    assert_eq!(root.nodes().count(), before.nodes().count());
}

#[test]
fn a_sound_sidecar_is_always_written() {
    for path in ["", "a", "/photos/0007 2024-01-01 12-00-00 Model.NEF", "quote\" <&> 'x'", "\u{e9}t\u{e9}.nef"] {
        let out = rewrite_sidecar_file(&described("xmpMM:DerivedFrom=\"old.nef\""), path).unwrap();
        let root: minidom::Element = String::from_utf8(out).unwrap().parse().unwrap();
        let description = root.get_child("RDF", RDF).unwrap().get_child("Description", RDF).unwrap();
        assert_eq!(description.attr("xmpMM:DerivedFrom"), Some(path));
    }
}
