//! Known classes of failure. A lower level attaches one where the cause is
//! detected; the boundary that logs the error records its code and
//! remediation. Adding a variant is how a new failure class gets a
//! remediation; nothing matches on error text.

use vstd::prelude::*;

verus! {

/// One known failure class. The set is deliberately small: most failures are
/// environmental, and a handful of classes covers them.
#[derive(Debug, Clone, Copy, PartialEq, Eq, Hash, Structural)]
pub enum ErrorKind {
    SourceUnavailable,
    PermissionDenied,
    DecodeFailed,
    QuicklookUnavailable,
    ModelUnavailable,
    LibraryBusy,
    LibrarySchema,
    Database,
}

/// Every kind, in declaration order.
pub open spec fn all_kinds() -> Seq<ErrorKind> {
    seq![
        ErrorKind::SourceUnavailable,
        ErrorKind::PermissionDenied,
        ErrorKind::DecodeFailed,
        ErrorKind::QuicklookUnavailable,
        ErrorKind::ModelUnavailable,
        ErrorKind::LibraryBusy,
        ErrorKind::LibrarySchema,
        ErrorKind::Database,
    ]
}

/// Whether a code reads as snake case: lower-case ASCII letters and `_`.
pub open spec fn is_snake_case(s: Seq<char>) -> bool {
    forall|i: int| 0 <= i < s.len() ==> (('a' <= #[trigger] s[i] && s[i] <= 'z') || s[i] == '_')
}

impl ErrorKind {
    /// The stable machine code of a kind.
    pub open spec fn code_text(self) -> Seq<char> {
        match self {
            ErrorKind::SourceUnavailable => "source_unavailable"@,
            ErrorKind::PermissionDenied => "permission_denied"@,
            ErrorKind::DecodeFailed => "decode_failed"@,
            ErrorKind::QuicklookUnavailable => "quicklook_unavailable"@,
            ErrorKind::ModelUnavailable => "model_unavailable"@,
            ErrorKind::LibraryBusy => "library_busy"@,
            ErrorKind::LibrarySchema => "library_schema"@,
            ErrorKind::Database => "database"@,
        }
    }

    /// The remediation a kind carries, when there is one.
    pub open spec fn remediation_text(self) -> Option<Seq<char>> {
        match self {
            ErrorKind::SourceUnavailable => Some(
                "Reconnect the drive holding the library, then run the command again."@,
            ),
            ErrorKind::PermissionDenied => Some("Grant read access to the file or folder."@),
            ErrorKind::DecodeFailed => Some(
                "The file is unreadable or unsupported; videre skips it after two attempts."@,
            ),
            ErrorKind::QuicklookUnavailable => Some(
                "HEIC and video need macOS QuickLook; these files are skipped on this platform."@,
            ),
            ErrorKind::ModelUnavailable => Some(
                "Check network access for the first run, or the Hugging Face cache location."@,
            ),
            ErrorKind::LibraryBusy => Some(
                "Another videre command is using this library; retry when it finishes."@,
            ),
            ErrorKind::LibrarySchema | ErrorKind::Database => None,
        }
    }

    /// The short phrase a kind reads as inside an error chain.
    pub open spec fn label_text(self) -> Seq<char> {
        match self {
            ErrorKind::SourceUnavailable => "the file could not be read from its drive"@,
            ErrorKind::PermissionDenied => "permission denied"@,
            ErrorKind::DecodeFailed => "the file could not be decoded"@,
            ErrorKind::QuicklookUnavailable => "QuickLook is unavailable"@,
            ErrorKind::ModelUnavailable => "the model could not be loaded"@,
            ErrorKind::LibraryBusy => "the library is busy"@,
            ErrorKind::LibrarySchema => "the library database needs attention"@,
            ErrorKind::Database => "database error"@,
        }
    }

    /// Every kind, in declaration order.
    pub fn all() -> (r: Vec<ErrorKind>)
        ensures
            r@ == all_kinds(),
    {
        let r = vec![
            ErrorKind::SourceUnavailable,
            ErrorKind::PermissionDenied,
            ErrorKind::DecodeFailed,
            ErrorKind::QuicklookUnavailable,
            ErrorKind::ModelUnavailable,
            ErrorKind::LibraryBusy,
            ErrorKind::LibrarySchema,
            ErrorKind::Database,
        ];
        assert(r@ =~= all_kinds());
        r
    }

    /// Stable machine code, written to the log. Never rename one: readers
    /// and saved logs depend on it.
    pub fn code(self) -> (r: &'static str)
        ensures
            r@ == self.code_text(),
    {
        match self {
            ErrorKind::SourceUnavailable => "source_unavailable",
            ErrorKind::PermissionDenied => "permission_denied",
            ErrorKind::DecodeFailed => "decode_failed",
            ErrorKind::QuicklookUnavailable => "quicklook_unavailable",
            ErrorKind::ModelUnavailable => "model_unavailable",
            ErrorKind::LibraryBusy => "library_busy",
            ErrorKind::LibrarySchema => "library_schema",
            ErrorKind::Database => "database",
        }
    }

    /// What the user can do about it, when there is something to do.
    pub fn remediation(self) -> (r: Option<&'static str>)
        ensures
            r is Some <==> self.remediation_text() is Some,
            r is Some ==> r->0@ == self.remediation_text()->0,
    {
        match self {
            ErrorKind::SourceUnavailable => {
                Some("Reconnect the drive holding the library, then run the command again.")
            },
            ErrorKind::PermissionDenied => Some("Grant read access to the file or folder."),
            ErrorKind::DecodeFailed => {
                Some("The file is unreadable or unsupported; videre skips it after two attempts.")
            },
            ErrorKind::QuicklookUnavailable => Some(
                "HEIC and video need macOS QuickLook; these files are skipped on this platform.",
            ),
            ErrorKind::ModelUnavailable => {
                Some("Check network access for the first run, or the Hugging Face cache location.")
            },
            ErrorKind::LibraryBusy => {
                Some("Another videre command is using this library; retry when it finishes.")
            },
            ErrorKind::LibrarySchema | ErrorKind::Database => None,
        }
    }

    /// A short phrase that reads naturally inside a rendered error chain.
    pub fn label(self) -> (r: &'static str)
        ensures
            r@ == self.label_text(),
    {
        match self {
            ErrorKind::SourceUnavailable => "the file could not be read from its drive",
            ErrorKind::PermissionDenied => "permission denied",
            ErrorKind::DecodeFailed => "the file could not be decoded",
            ErrorKind::QuicklookUnavailable => "QuickLook is unavailable",
            ErrorKind::ModelUnavailable => "the model could not be loaded",
            ErrorKind::LibraryBusy => "the library is busy",
            ErrorKind::LibrarySchema => "the library database needs attention",
            ErrorKind::Database => "database error",
        }
    }
}

/// Codes are unique: two different kinds never share a code, so a saved
/// log names its failure class unambiguously.
pub proof fn lemma_codes_are_unique(a: ErrorKind, b: ErrorKind)
    ensures
        a != b ==> a.code_text() != b.code_text(),
{
    reveal_strlit("source_unavailable");
    reveal_strlit("permission_denied");
    reveal_strlit("decode_failed");
    reveal_strlit("quicklook_unavailable");
    reveal_strlit("model_unavailable");
    reveal_strlit("library_busy");
    reveal_strlit("library_schema");
    reveal_strlit("database");
    if a != b && a.code_text() == b.code_text() {
        assert(a.code_text().len() == b.code_text().len());
        assert(a.code_text()[0] == b.code_text()[0]);
        assert(a.code_text()[2] == b.code_text()[2]);
        assert(a.code_text()[8] == b.code_text()[8]);
    }
}

/// Every code is snake case: lower-case ASCII letters and underscores only.
pub proof fn lemma_codes_are_snake_case(k: ErrorKind)
    ensures
        is_snake_case(k.code_text()),
{
    reveal_strlit("source_unavailable");
    reveal_strlit("permission_denied");
    reveal_strlit("decode_failed");
    reveal_strlit("quicklook_unavailable");
    reveal_strlit("model_unavailable");
    reveal_strlit("library_busy");
    reveal_strlit("library_schema");
    reveal_strlit("database");
}

} // verus!
