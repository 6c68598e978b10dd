//! The command surface of the tool: which component to bump and which file
//! to patch. The argument parser around the library builds these values;
//! here they are plain data with the mapping onto the increment kinds.

use vstd::prelude::*;

use crate::version::VersionType;

verus! {

/// The arguments of one subcommand: the path of the file to patch.
#[derive(Clone, Debug)]
pub struct CmdArgs {
    pub file_path: String,
}

/// One invocation of the tool: which component to bump, with its
/// arguments.
#[derive(Clone, Debug)]
pub enum Command {
    Patch(CmdArgs),
    Minor(CmdArgs),
    Major(CmdArgs),
}

impl Command {
    /// The increment kind this command selects.
    pub open spec fn version_type_spec(&self) -> VersionType {
        match self {
            Command::Patch(_) => VersionType::Patch,
            Command::Minor(_) => VersionType::Minor,
            Command::Major(_) => VersionType::Major,
        }
    }

    /// The path of the file this command patches.
    pub open spec fn file_path_spec(&self) -> Seq<char> {
        match self {
            Command::Patch(a) => a.file_path@,
            Command::Minor(a) => a.file_path@,
            Command::Major(a) => a.file_path@,
        }
    }

    /// The increment kind this command selects.
    pub fn version_type(&self) -> (r: VersionType)
        ensures
            r == self.version_type_spec(),
    {
        match self {
            Command::Patch(_) => VersionType::Patch,
            Command::Minor(_) => VersionType::Minor,
            Command::Major(_) => VersionType::Major,
        }
    }

    /// The path of the file this command patches.
    pub fn file_path(&self) -> (r: &String)
        ensures
            r@ == self.file_path_spec(),
    {
        match self {
            Command::Patch(a) => &a.file_path,
            Command::Minor(a) => &a.file_path,
            Command::Major(a) => &a.file_path,
        }
    }
}

} // verus!
