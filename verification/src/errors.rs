use vstd::prelude::*;

verus! {

/// Errors returned by the library.
///
/// Paths are carried as their segment lists, relative to the filesystem root
/// for absolute locations and relative to the database root otherwise.
#[derive(Debug, Clone, PartialEq)]
pub enum DatabaseError {
    /// Requested path-step trimming exceeds the available path depth.
    PathStepOverflow(i32, i32),
    /// No matching directory name was found while walking upward.
    NoClosestDir(String),
    /// The identity's name has no tracked entries in the index.
    NoMatchingID(String),
    /// Creating or renaming to an identity that already exists at the target path.
    IdAlreadyExists(String),
    /// Source and destination resolve to the same location.
    IdenticalSourceDestination(Vec<String>),
    /// An export destination points inside the managed database root.
    ExportDestinationInsideDatabase(Vec<String>),
    /// An import source path points inside the managed database root.
    ImportSourceInsideDatabase(Vec<String>),
    /// The requested position is outside the bounds of the name's list.
    IndexOutOfBounds { id: String, index: usize, len: usize },
    /// The root identity was used where a concrete item is required.
    RootIdUnsupported,
    /// A path was expected to denote a directory but does not.
    NotADirectory(Vec<String>),
    /// A path was expected to denote a file but does not.
    NotAFile(Vec<String>),
    /// A platform string could not be converted into text.
    OsStringConversion,
    /// The item has no parent inside the tracked database tree.
    NoParent(String),
}

impl DatabaseError {
    /// A short human-readable description of the error kind.
    pub fn describe(&self) -> (r: &'static str)
        ensures
            r@.len() > 0,
    {
        let d = match self {
            DatabaseError::PathStepOverflow(_, _) => "steps greater than path length",
            DatabaseError::NoClosestDir(_) => "directory not found along path",
            DatabaseError::NoMatchingID(_) => "id does not point to a known path",
            DatabaseError::IdAlreadyExists(_) => "id already exists",
            DatabaseError::IdenticalSourceDestination(_) => "source and destination are identical",
            DatabaseError::ExportDestinationInsideDatabase(_) => "export destination is inside the database",
            DatabaseError::ImportSourceInsideDatabase(_) => "import source is inside the database",
            DatabaseError::IndexOutOfBounds { id: _, index: _, len: _ } => "index out of bounds for id",
            DatabaseError::RootIdUnsupported => "root database id cannot be used for this operation",
            DatabaseError::NotADirectory(_) => "path does not point to a directory",
            DatabaseError::NotAFile(_) => "path does not point to a file",
            DatabaseError::OsStringConversion => "could not convert platform string to text",
            DatabaseError::NoParent(_) => "id does not have a parent",
        };
        proof {
            reveal_strlit("steps greater than path length");
            reveal_strlit("directory not found along path");
            reveal_strlit("id does not point to a known path");
            reveal_strlit("id already exists");
            reveal_strlit("source and destination are identical");
            reveal_strlit("export destination is inside the database");
            reveal_strlit("import source is inside the database");
            reveal_strlit("index out of bounds for id");
            reveal_strlit("root database id cannot be used for this operation");
            reveal_strlit("path does not point to a directory");
            reveal_strlit("path does not point to a file");
            reveal_strlit("could not convert platform string to text");
            reveal_strlit("id does not have a parent");
        }
        d
    }
}

} // verus!
