//! Names for the databases that a property list can describe a connection
//! to.

use vstd::prelude::*;

verus! {

/// The supported databases.
#[derive(Clone, Copy, Debug)]
pub enum DbType {
    SQLite3,
}

} // verus!
