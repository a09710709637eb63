//! Tests of container dispatch, the unsupported converter, and the
//! composer's action table.

use versatiles::composer::{
    get_composer_operation_docs, parse_operation_action, OperationKind,
};
use versatiles::container::{container_kind_for_filename, ContainerKind, TileConverter};
use versatiles::error::Error;
use versatiles::mock::{MockTilesReader, MockTilesReaderProfile};

#[test]
fn test_container_kind_by_extension() -> Result<(), Error> {
    assert_eq!(
        container_kind_for_filename("temp.versatiles")?,
        ContainerKind::Versatiles
    );
    assert_eq!(container_kind_for_filename("temp.tar")?, ContainerKind::Tar);
    assert_eq!(
        container_kind_for_filename("tiles.mbtiles")?,
        ContainerKind::MBTiles
    );
    assert_eq!(
        container_kind_for_filename("a.b.c.versatiles")?,
        ContainerKind::Versatiles
    );
    assert!(matches!(
        container_kind_for_filename("filename.txt"),
        Err(Error::Unsupported(_))
    ));
    assert!(container_kind_for_filename("no_extension").is_err());
    Ok(())
}

#[test]
fn test_mbtiles_converter_is_unsupported() {
    assert!(matches!(
        TileConverter::new("filename.txt"),
        Err(Error::Unsupported(_))
    ));

    let mut converter = TileConverter {};
    let reader = MockTilesReader::new_mock_profile(MockTilesReaderProfile::Png).unwrap();
    assert!(matches!(
        converter.convert_from(&reader),
        Err(Error::Unsupported(_))
    ));
}

#[test]
fn test_parse_operation_action() -> Result<(), Error> {
    assert_eq!(parse_operation_action("read")?, OperationKind::Read);
    assert_eq!(
        parse_operation_action("pbf_update_properties")?,
        OperationKind::PbfUpdateProperties
    );
    match parse_operation_action("resize") {
        Err(Error::Config(msg)) => assert_eq!(msg, "operation 'resize' is unknown"),
        other => panic!("expected a configuration error, got {:?}", other),
    }
    Ok(())
}

#[test]
fn test_composer_operation_docs() {
    let docs = get_composer_operation_docs();
    assert!(docs.contains("Operation \"read\":"));
    assert!(docs.contains("Operation \"pbf_update_properties\":"));
}
