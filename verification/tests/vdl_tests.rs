//! Tests of the pipeline-description node and its property getters.

use versatiles::error::Error;
use versatiles::vdl::{make_properties, VDLNode};
use versatiles::vdl_text::{parse_document, parse_pipeline, print_pipeline};

fn node_with(props: Vec<(&str, &str)>) -> VDLNode {
    let mut node = VDLNode::new("node");
    node.properties = make_properties(props);
    node
}

#[test]
fn test_vdlnode_get_property() -> Result<(), Error> {
    let node = node_with(vec![("key1", "value1"), ("key2", "value2")]);
    assert_eq!(
        node.get_property_vec("key1", 0)?,
        vec!["value1".to_string()]
    );
    assert_eq!(
        node.get_property_vec("key2", 0)?,
        vec!["value2".to_string()]
    );
    assert!(node.get_property_vec("key3", 0)?.len() == 0);
    Ok(())
}

#[test]
fn test_get_property_vec_min_size() {
    let node = node_with(vec![("key1", "value1")]);
    assert!(node.get_property_vec("key1", 2).is_err());
    assert!(matches!(
        node.get_property_vec("key3", 1),
        Err(Error::Config(_))
    ));
}

#[test]
fn test_get_property_string() -> Result<(), Error> {
    let node = node_with(vec![("filename", "a.versatiles")]);
    assert_eq!(
        node.get_property_string0("filename")?,
        Some("a.versatiles".to_string())
    );
    assert_eq!(node.get_property_string0("other")?, None);
    assert_eq!(node.get_property_string1("filename")?, "a.versatiles");
    Ok(())
}

#[test]
fn test_get_property1_missing_field_message() {
    let node = node_with(vec![("layer", "x")]);
    match node.get_property_string1("id_field") {
        Err(Error::Config(msg)) => {
            assert_eq!(msg, "field 'id_field' does not exist");
        }
        other => panic!("expected a configuration error, got {:?}", other),
    }
}

#[test]
fn test_get_property_bool() -> Result<(), Error> {
    for truthy in ["1", "true", "yes", "ok", " TRUE ", "Yes", "\tok\n"] {
        let node = node_with(vec![("flag", truthy)]);
        assert_eq!(node.get_property_bool("flag")?, true, "value {:?}", truthy);
    }
    for falsy in ["0", "false", "no", "", "  ", "tru e"] {
        let node = node_with(vec![("flag", falsy)]);
        assert_eq!(node.get_property_bool("flag")?, false, "value {:?}", falsy);
    }
    let node = node_with(vec![]);
    assert_eq!(node.get_property_bool("missing")?, false);
    Ok(())
}

#[test]
fn test_get_property_number() -> Result<(), Error> {
    let node = node_with(vec![("n", "300")]);
    assert_eq!(node.get_property_number0("n")?, Some(300));
    assert_eq!(node.get_property_number0("missing")?, None);

    let node = node_with(vec![("n", "18446744073709551615")]);
    assert_eq!(node.get_property_number0("n")?, Some(u64::MAX));

    let node = node_with(vec![("n", "18446744073709551616")]);
    assert!(node.get_property_number0("n").is_err());

    let node = node_with(vec![("n", "abc")]);
    assert!(matches!(
        node.get_property_number0("n"),
        Err(Error::Config(_))
    ));
    Ok(())
}

#[test]
fn test_error_message_accessor() {
    let e = Error::Cancelled;
    assert_eq!(e.message(), "");
    let e = Error::Io("backing source failed".to_string());
    assert_eq!(e.message(), "backing source failed");
}

#[test]
fn test_vdl_parse_print_round_trip() -> Result<(), Error> {
    let doc = "read[filename=\"a.versatiles\"]|pbf_update_properties[layer=\"x\",id_field=\"i\",data=\"t.csv\"]";
    let pipeline = parse_pipeline(doc)?;
    assert_eq!(pipeline.nodes.len(), 2);
    assert_eq!(pipeline.nodes[0].name, "read");
    assert_eq!(
        pipeline.nodes[0].get_property_string1("filename")?,
        "a.versatiles"
    );
    assert_eq!(pipeline.nodes[1].name, "pbf_update_properties");
    assert_eq!(pipeline.nodes[1].get_property_string1("layer")?, "x");

    // printing reproduces the document, so re-parsing yields the same tree
    let printed = print_pipeline(&pipeline);
    assert_eq!(printed, doc);
    let reparsed = parse_pipeline(&printed)?;
    assert_eq!(reparsed, pipeline);
    Ok(())
}

#[test]
fn test_vdl_parse_rejects_malformed_documents() {
    for bad in [
        "",
        "read[",
        "read[filename]",
        "read[filename=]",
        "read[filename=\"a\"",
        "read|",
        "|read",
        "read]",
        "read[k=\"a\",k=\"b\"]",
        "read [filename=\"a\"]",
    ] {
        assert!(
            matches!(parse_pipeline(bad), Err(Error::Corrupt(_))),
            "document {:?} should be rejected",
            bad
        );
    }
}

#[test]
fn test_make_properties_repeated_key_keeps_last_value() -> Result<(), Error> {
    let node = node_with(vec![("k", "a"), ("k", "b"), ("other", "c")]);
    assert_eq!(node.properties.len(), 2);
    assert_eq!(node.get_property_string1("k")?, "b");
    assert_eq!(node.get_property_string1("other")?, "c");
    Ok(())
}

#[test]
fn test_parse_document_strips_whitespace_and_comments() -> Result<(), Error> {
    let doc = "read [ filename = \"a.versatiles\" ]  # the source\n  | pbf_update_properties [ layer = \"x\" ]\n";
    let pipeline = parse_document(doc)?;
    assert_eq!(pipeline.nodes.len(), 2);
    assert_eq!(pipeline.nodes[0].name, "read");
    assert_eq!(
        pipeline.nodes[0].get_property_string1("filename")?,
        "a.versatiles"
    );
    assert_eq!(pipeline.nodes[1].get_property_string1("layer")?, "x");

    // spaces inside a quoted value are significant and survive
    let pipeline = parse_document("read[name=\"two words\"]")?;
    assert_eq!(pipeline.nodes[0].get_property_string1("name")?, "two words");

    // printing yields the canonical text, which parses to the same tree
    let printed = print_pipeline(&pipeline);
    assert_eq!(printed, "read[name=\"two words\"]");
    assert_eq!(parse_document(&printed)?, pipeline);
    Ok(())
}
