//! The composer: operations assembled from a pipeline description.
//!
//! Every operation exposes the reader contract, so pipelines compose by
//! stream chaining.  The dispatch from an action name to an operation
//! kind, and the operation documentation, live here; building the
//! operations themselves is the caller's task.

use vstd::prelude::*;
use vstd::string::StringExecFns;
use crate::error::{config_field_error, Error};
use crate::types::{Blob, TileCoord3, TilesReaderParameters};

verus! {

/// The interface of one operation in a composed pipeline: it answers like
/// a reader, whatever stands upstream of it.
pub trait TileComposerOperation {
    /// The operation's configured name.
    fn get_name(&self) -> &str;

    /// What the operation declares about its output.
    fn get_parameters(&self) -> &TilesReaderParameters;

    /// The metadata of the operation's output.
    fn get_meta(&self) -> Result<Option<Blob>, Error>;

    /// The tile the operation yields at `coord`.
    fn get_tile_data(&self, coord: &TileCoord3) -> Result<Option<Blob>, Error>;
}

/// The closed set of operation kinds a pipeline node can name.
#[derive(Debug, Clone, Copy, PartialEq, Eq, Structural)]
pub enum OperationKind {
    Read,
    PbfUpdateProperties,
}

/// True when the two strings hold the same characters.
pub fn str_equal(a: &str, b: &str) -> (r: bool)
    ensures
        r == (a@ == b@),
{
    let sa = a.to_owned();
    let sb = b.to_owned();
    sa.eq(&sb)
}

/// Maps an action name to its operation kind; an unknown action is a
/// configuration error naming it.
pub fn parse_operation_action(action: &str) -> (r: Result<OperationKind, Error>)
    ensures
        match r {
            Ok(k) => match k {
                OperationKind::Read => action@ == "read"@,
                OperationKind::PbfUpdateProperties => action@ == "pbf_update_properties"@,
            },
            Err(e) => {
                &&& e is Config
                &&& action@ != "read"@
                &&& action@ != "pbf_update_properties"@
            },
        },
{
    if str_equal(action, "read") {
        Ok(OperationKind::Read)
    } else if str_equal(action, "pbf_update_properties") {
        Ok(OperationKind::PbfUpdateProperties)
    } else {
        Err(config_field_error("operation '", action, "' is unknown"))
    }
}

/// The documentation of every operation kind, one section per kind.
pub fn get_composer_operation_docs() -> (r: String)
    ensures
        r@ == "Operation \"read\":\n\n"@ + "reads tiles from one archive and emits them unchanged"@
            + "\n\nOperation \"pbf_update_properties\":\n\n"@
            + "rewrites feature properties of one vector-tile layer from a lookup table"@,
{
    let mut docs = String::from_str("Operation \"read\":\n\n");
    docs.append("reads tiles from one archive and emits them unchanged");
    docs.append("\n\nOperation \"pbf_update_properties\":\n\n");
    docs.append("rewrites feature properties of one vector-tile layer from a lookup table");
    docs
}

} // verus!
