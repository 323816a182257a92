//! The error kinds of the copy engine and the messages that report them.
use vstd::prelude::*;

verus! {

#[verifier::external_type_specification]
#[verifier::external_body]
pub struct ExIoError(std::io::Error);

#[verifier::external_type_specification]
pub struct ExIoErrorKind(std::io::ErrorKind);

/// Relies on `std::io::Error::kind`: the category of an I/O error. Nothing
/// is claimed of which category comes back.
pub assume_specification[ std::io::Error::kind ](e: &std::io::Error) -> std::io::ErrorKind;

/// Relies on `Display` for `std::io::Error` (through `ToString`): the
/// operating system's description of the error. Nothing is claimed of the text.
#[verifier::external_body]
fn io_error_text(e: &std::io::Error) -> String {
    e.to_string()
}

/// Failure of one transfer, of its checks, or of its attribute pass.
#[derive(Debug)]
pub enum CopyError {
    Io(std::io::Error),
    FileExists(String),
    PermissionDenied(String),
    InvalidSource(String),
    InvalidDestination(String),
    CopyFailed { source: String, destination: String, reason: String },
    ReflinkFailed { source: String, destination: String },
    HardlinkFailed { source: String, destination: String },
    SymlinkFailed { source: String, destination: String },
    PreserveFailed(PreserveError),
}

/// Failure of an attribute pass.
#[derive(Debug)]
pub enum PreserveError {
    Io(std::io::Error),
    UnsupportedAttribute(String),
    FailedToPreserve { path: String, attribute: String },
}

/// A malformed exclusion pattern.
#[derive(Debug)]
pub enum ExcludeError {
    InvalidPattern(String),
    PatternCompilation(globset::Error),
}

/// The message of a `PreserveError`; `None` where it quotes an I/O error,
/// whose text the operating system gives.
pub open spec fn preserve_error_text(e: PreserveError) -> Option<Seq<char>> {
    match e {
        PreserveError::Io(_) => None,
        PreserveError::UnsupportedAttribute(a) => Some("Unsupported preserve attribute: "@ + a@),
        PreserveError::FailedToPreserve { path, attribute } => Some(
            "Failed to preserve '"@ + attribute@ + "' for '"@ + path@ + "'"@,
        ),
    }
}

/// The words that name a transfer from `s` to `d` in a message.
pub open spec fn pair_text(head: Seq<char>, s: Seq<char>, d: Seq<char>) -> Seq<char> {
    head + " from '"@ + s + "' to '"@ + d + "'"@
}

/// The message of a `CopyError`; `None` where it quotes an I/O error.
pub open spec fn copy_error_text(e: CopyError) -> Option<Seq<char>> {
    match e {
        CopyError::Io(_) => None,
        CopyError::FileExists(p) => Some("File already exists: "@ + p@),
        CopyError::PermissionDenied(p) => Some("Permission denied: "@ + p@),
        CopyError::InvalidSource(p) => Some("Invalid source path: "@ + p@),
        CopyError::InvalidDestination(p) => Some("Invalid destination path: "@ + p@),
        CopyError::CopyFailed { source, destination, reason } => Some(
            "Failed to copy '"@ + source@ + "' to '"@ + destination@ + "': "@ + reason@,
        ),
        CopyError::ReflinkFailed { source, destination } => Some(
            pair_text("Reflink failed"@, source@, destination@),
        ),
        CopyError::HardlinkFailed { source, destination } => Some(
            pair_text("Hardlink failed"@, source@, destination@),
        ),
        CopyError::SymlinkFailed { source, destination } => Some(
            pair_text("Symlink failed"@, source@, destination@),
        ),
        CopyError::PreserveFailed(p) => match preserve_error_text(p) {
            Some(t) => Some("Preserve failed: "@ + t),
            None => None,
        },
    }
}

fn pair_message(head: &str, s: &String, d: &String) -> (r: String)
    ensures
        r@ == pair_text(head@, s@, d@),
{
    String::from_str(head).concat(" from '").concat(s.as_str()).concat("' to '").concat(
        d.as_str(),
    ).concat("'")
}

impl PreserveError {
    /// The human-readable message of this error.
    pub fn message(&self) -> (r: String)
        ensures
            preserve_error_text(*self) matches Some(t) ==> r@ == t,
            *self is Io ==> exists|t: Seq<char>| r@ == "IO error: "@ + t,
    {
        match self {
            PreserveError::Io(e) => String::from_str("IO error: ").concat(io_error_text(e).as_str()),
            PreserveError::UnsupportedAttribute(a) => String::from_str(
                "Unsupported preserve attribute: ",
            ).concat(a.as_str()),
            PreserveError::FailedToPreserve { path, attribute } => String::from_str(
                "Failed to preserve '",
            ).concat(attribute.as_str()).concat("' for '").concat(path.as_str()).concat("'"),
        }
    }
}

impl CopyError {
    /// The I/O category that this error reports as.
    pub fn kind(&self) -> (r: std::io::ErrorKind)
        ensures
            match *self {
                CopyError::Io(_) => true,
                CopyError::FileExists(_) => r == std::io::ErrorKind::AlreadyExists,
                CopyError::PermissionDenied(_) => r == std::io::ErrorKind::PermissionDenied,
                CopyError::InvalidSource(_) => r == std::io::ErrorKind::NotFound,
                CopyError::InvalidDestination(_) => r == std::io::ErrorKind::NotFound,
                CopyError::ReflinkFailed { .. } => r == std::io::ErrorKind::Unsupported,
                _ => r == std::io::ErrorKind::Other,
            },
    {
        match self {
            CopyError::Io(e) => e.kind(),
            CopyError::FileExists(_) => std::io::ErrorKind::AlreadyExists,
            CopyError::PermissionDenied(_) => std::io::ErrorKind::PermissionDenied,
            CopyError::InvalidSource(_) => std::io::ErrorKind::NotFound,
            CopyError::InvalidDestination(_) => std::io::ErrorKind::NotFound,
            CopyError::CopyFailed { .. } => std::io::ErrorKind::Other,
            CopyError::ReflinkFailed { .. } => std::io::ErrorKind::Unsupported,
            CopyError::HardlinkFailed { .. } => std::io::ErrorKind::Other,
            CopyError::SymlinkFailed { .. } => std::io::ErrorKind::Other,
            CopyError::PreserveFailed(_) => std::io::ErrorKind::Other,
        }
    }

    /// The human-readable message of this error.
    pub fn message(&self) -> (r: String)
        ensures
            copy_error_text(*self) matches Some(t) ==> r@ == t,
            *self is Io ==> exists|t: Seq<char>| r@ == "IO error: "@ + t,
            *self matches CopyError::PreserveFailed(PreserveError::Io(_)) ==> exists|t: Seq<char>|
                r@ == "Preserve failed: IO error: "@ + t,
    {
        match self {
            CopyError::Io(e) => String::from_str("IO error: ").concat(io_error_text(e).as_str()),
            CopyError::FileExists(p) => String::from_str("File already exists: ").concat(p.as_str()),
            CopyError::PermissionDenied(p) => String::from_str("Permission denied: ").concat(
                p.as_str(),
            ),
            CopyError::InvalidSource(p) => String::from_str("Invalid source path: ").concat(
                p.as_str(),
            ),
            CopyError::InvalidDestination(p) => String::from_str(
                "Invalid destination path: ",
            ).concat(p.as_str()),
            CopyError::CopyFailed { source, destination, reason } => String::from_str(
                "Failed to copy '",
            ).concat(source.as_str()).concat("' to '").concat(destination.as_str()).concat(
                "': ",
            ).concat(reason.as_str()),
            CopyError::ReflinkFailed { source, destination } => pair_message(
                "Reflink failed",
                source,
                destination,
            ),
            CopyError::HardlinkFailed { source, destination } => pair_message(
                "Hardlink failed",
                source,
                destination,
            ),
            CopyError::SymlinkFailed { source, destination } => pair_message(
                "Symlink failed",
                source,
                destination,
            ),
            CopyError::PreserveFailed(e) => {
                let m = e.message();
                let r = String::from_str("Preserve failed: ").concat(m.as_str());
                proof {
                    if e is Io {
                        reveal_strlit("Preserve failed: ");
                        reveal_strlit("IO error: ");
                        reveal_strlit("Preserve failed: IO error: ");
                        let t = choose|t: Seq<char>| m@ == "IO error: "@ + t;
                        assert(r@ =~= "Preserve failed: IO error: "@ + t);
                    }
                }
                r
            },
        }
    }
}

impl From<PreserveError> for CopyError {
    fn from(e: PreserveError) -> (r: CopyError)
        ensures
            r == CopyError::PreserveFailed(e),
    {
        CopyError::PreserveFailed(e)
    }
}

impl vstd::std_specs::convert::FromSpecImpl<PreserveError> for CopyError {
    open spec fn obeys_from_spec() -> bool {
        true
    }

    open spec fn from_spec(e: PreserveError) -> CopyError {
        CopyError::PreserveFailed(e)
    }
}

impl ExcludeError {
    /// The human-readable message of this error.
    pub fn message(&self) -> (r: String)
        ensures
            *self matches ExcludeError::InvalidPattern(p) ==> r@ == "Invalid exclude pattern: "@
                + p@,
            *self is PatternCompilation ==> exists|t: Seq<char>|
                r@ == "Pattern compilation error: "@ + t,
    {
        match self {
            ExcludeError::InvalidPattern(p) => String::from_str("Invalid exclude pattern: ").concat(
                p.as_str(),
            ),
            ExcludeError::PatternCompilation(e) => String::from_str(
                "Pattern compilation error: ",
            ).concat(crate::exclude::glob_error_text(e).as_str()),
        }
    }
}

impl From<std::io::Error> for CopyError {
    fn from(e: std::io::Error) -> (r: CopyError)
        ensures
            r == CopyError::Io(e),
    {
        CopyError::Io(e)
    }
}

impl vstd::std_specs::convert::FromSpecImpl<std::io::Error> for CopyError {
    open spec fn obeys_from_spec() -> bool {
        true
    }

    open spec fn from_spec(e: std::io::Error) -> CopyError {
        CopyError::Io(e)
    }
}

impl From<std::io::Error> for PreserveError {
    fn from(e: std::io::Error) -> (r: PreserveError)
        ensures
            r == PreserveError::Io(e),
    {
        PreserveError::Io(e)
    }
}

impl vstd::std_specs::convert::FromSpecImpl<std::io::Error> for PreserveError {
    open spec fn obeys_from_spec() -> bool {
        true
    }

    open spec fn from_spec(e: std::io::Error) -> PreserveError {
        PreserveError::Io(e)
    }
}

impl From<globset::Error> for ExcludeError {
    fn from(e: globset::Error) -> (r: ExcludeError)
        ensures
            r == ExcludeError::PatternCompilation(e),
    {
        ExcludeError::PatternCompilation(e)
    }
}

impl vstd::std_specs::convert::FromSpecImpl<globset::Error> for ExcludeError {
    open spec fn obeys_from_spec() -> bool {
        true
    }

    open spec fn from_spec(e: globset::Error) -> ExcludeError {
        ExcludeError::PatternCompilation(e)
    }
}

} // verus!
