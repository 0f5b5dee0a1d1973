//! What is copied into the snapshot of a workspace.
use vstd::prelude::*;

use crate::text::same;

verus! {

/// What stands at an entry of a directory, itself and not what it leads to.
#[derive(Clone, Copy, Debug, PartialEq, Eq, Structural)]
pub enum Found {
    Link,
    Directory,
    File,
    Special,
}

/// What is done with an entry.
#[derive(Clone, Copy, Debug, PartialEq, Eq, Structural)]
pub enum Treatment {
    /// It is left out.
    Skip,
    /// A link to the same is made: it is not followed.
    Link,
    Descend,
    Copy,
}

/// What is done with an entry: history and what is no plain file are left out.
pub open spec fn treatment_of(name: Seq<char>, found: Found) -> Treatment {
    if name == ".git"@ {
        Treatment::Skip
    } else {
        match found {
            Found::Link => Treatment::Link,
            Found::Directory => Treatment::Descend,
            Found::File => Treatment::Copy,
            Found::Special => Treatment::Skip,
        }
    }
}

/// What is done with an entry of a directory that a snapshot is taken of.
pub fn treat(name: &str, found: Found) -> (r: Treatment)
    ensures
        r == treatment_of(name@, found),
{
    if same(name, ".git") {
        return Treatment::Skip;
    }
    match found {
        Found::Link => Treatment::Link,
        Found::Directory => Treatment::Descend,
        Found::File => Treatment::Copy,
        Found::Special => Treatment::Skip,
    }
}

/// The mode of a copied file: its permissions, without more.
pub fn copied_mode(file: bool, mode: u32) -> (r: Result<u32, String>)
    ensures
        if file {
            r matches Ok(m) && m == mode & 0o777
        } else {
            r matches Err(e) && e@ == "workspace file changed type during snapshot"@
        },
{
    if !file {
        return Err(String::from_str("workspace file changed type during snapshot"));
    }
    Ok(mode & 0o777)
}

} // verus!
