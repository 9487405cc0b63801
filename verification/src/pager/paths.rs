//! Names of the files beside a database.

use vstd::prelude::*;
use vstd::string::StringExecFns;

verus! {

/// The path of the log of the database at `main`: `-wal` is appended.
pub fn wal_path_for(main: &str) -> (r: String)
    ensures
        r@ == main@ + "-wal"@,
{
    let mut path: String = main.to_owned();
    path.append("-wal");
    path
}

/// The path of the file that carries the locks of the database at `main`:
/// `-lock` is appended.
pub fn lock_path_for(main: &str) -> (r: String)
    ensures
        r@ == main@ + "-lock"@,
{
    let mut path: String = main.to_owned();
    path.append("-lock");
    path
}

} // verus!
