//! What can go wrong with an entry, and how it is told.
//!
//! Paths in these types are byte strings; with `Seq<u8>` in their place, a type states what a
//! value of it means.
use crate::text::{around, lossy, lossy_text, octal, octal_text};
use vstd::prelude::*;
use vstd::slice::slice_to_vec;
use vstd::string::*;

verus! {

/// Why an entry was refused.
#[derive(Debug)]
pub enum EntryError<P = Vec<u8>> {
    /// A pax extended header is not made of records alone.
    MalformedPaxExtension,
    /// A link does not say what it links to.
    NoLinkName,
    /// A link has an absolute target, and only targets inside the destination are allowed.
    AbsoluteLink(P),
    /// A link has an empty target.
    EmptyLink(P),
    /// The target of a symbolic link leads above the root.
    InvalidLink(P),
    /// A symbolic link and its target have no common directory.
    LinkWithoutParent(P),
    /// The target of a symbolic link lies outside the destination.
    LinkOutside(P),
    /// The modification time is beyond what the system can hold.
    MtimeExceedsSystem,
    /// The modification time is before the start of Unix time.
    MtimeBeforeEpoch,
    /// The modification time does not fit the platform's timestamps.
    MtimeExceedsPlatform,
    /// A hole is longer than a position in a file can be moved.
    HoleTooLong,
    /// Fewer or more bytes were written than the entry holds.
    IncompleteFile,
    /// The archive ended within the data of an entry.
    UnexpectedEof,
    /// A path leads outside the destination.
    OutsideDestination,
}

/// The kinds of errors that are told apart.
#[derive(Debug, Clone, Copy, PartialEq, Eq, Structural)]
pub enum ErrorKind {
    /// Something is there already.
    AlreadyExists,
    /// Something is not there.
    NotFound,
    /// The data cannot be used.
    InvalidData,
    /// Any other kind.
    Other,
}

impl View for EntryError {
    type V = EntryError<Seq<u8>>;

    open spec fn view(&self) -> EntryError<Seq<u8>> {
        match self {
            EntryError::MalformedPaxExtension => EntryError::MalformedPaxExtension,
            EntryError::NoLinkName => EntryError::NoLinkName,
            EntryError::AbsoluteLink(path) => EntryError::AbsoluteLink(path@),
            EntryError::EmptyLink(path) => EntryError::EmptyLink(path@),
            EntryError::InvalidLink(path) => EntryError::InvalidLink(path@),
            EntryError::LinkWithoutParent(path) => EntryError::LinkWithoutParent(path@),
            EntryError::LinkOutside(path) => EntryError::LinkOutside(path@),
            EntryError::MtimeExceedsSystem => EntryError::MtimeExceedsSystem,
            EntryError::MtimeBeforeEpoch => EntryError::MtimeBeforeEpoch,
            EntryError::MtimeExceedsPlatform => EntryError::MtimeExceedsPlatform,
            EntryError::HoleTooLong => EntryError::HoleTooLong,
            EntryError::IncompleteFile => EntryError::IncompleteFile,
            EntryError::UnexpectedEof => EntryError::UnexpectedEof,
            EntryError::OutsideDestination => EntryError::OutsideDestination,
        }
    }
}

impl EntryError<Seq<u8>> {
    /// The kind of an error.
    pub open spec fn kind_of(self) -> ErrorKind {
        match self {
            EntryError::MtimeExceedsSystem => ErrorKind::InvalidData,
            EntryError::MtimeBeforeEpoch => ErrorKind::InvalidData,
            EntryError::MtimeExceedsPlatform => ErrorKind::InvalidData,
            EntryError::HoleTooLong => ErrorKind::InvalidData,
            _ => ErrorKind::Other,
        }
    }

    /// The message of an error.
    pub open spec fn message_of(self) -> Seq<char> {
        match self {
            EntryError::MalformedPaxExtension => "malformed pax extension"@,
            EntryError::NoLinkName => "hard link listed but no link name found"@,
            EntryError::AbsoluteLink(path) => "symlink path `"@ + lossy_text(path)
                + "` is absolute, but external symlinks are not allowed"@,
            EntryError::EmptyLink(path) => "symlink destination for "@ + lossy_text(path)
                + " is empty"@,
            EntryError::InvalidLink(path) => "symlink destination for "@ + lossy_text(path)
                + " is not a valid path"@,
            EntryError::LinkWithoutParent(path) => "symlink destination for "@ + lossy_text(path)
                + " lacks a parent path"@,
            EntryError::LinkOutside(path) => "symlink destination for "@ + lossy_text(path)
                + " is outside of the target directory"@,
            EntryError::MtimeExceedsSystem => "mtime exceeds system limits"@,
            EntryError::MtimeBeforeEpoch => "mtime predates the Unix epoch"@,
            EntryError::MtimeExceedsPlatform => "mtime exceeds platform limits"@,
            EntryError::HoleTooLong => "hole exceeds file offset limits"@,
            EntryError::IncompleteFile => "failed to write entire file"@,
            EntryError::UnexpectedEof => "unexpected EOF while reading archive entry data"@,
            EntryError::OutsideDestination => "Invalid argument"@,
        }
    }
}

impl EntryError {
    /// Another error with the same meaning.
    pub(crate) fn duplicate(&self) -> (copy: EntryError)
        ensures
            copy@ == self@,
    {
        match self {
            EntryError::MalformedPaxExtension => EntryError::MalformedPaxExtension,
            EntryError::NoLinkName => EntryError::NoLinkName,
            EntryError::AbsoluteLink(path) => EntryError::AbsoluteLink(
                slice_to_vec(path.as_slice()),
            ),
            EntryError::EmptyLink(path) => EntryError::EmptyLink(slice_to_vec(path.as_slice())),
            EntryError::InvalidLink(path) => EntryError::InvalidLink(slice_to_vec(path.as_slice())),
            EntryError::LinkWithoutParent(path) => EntryError::LinkWithoutParent(
                slice_to_vec(path.as_slice()),
            ),
            EntryError::LinkOutside(path) => EntryError::LinkOutside(slice_to_vec(path.as_slice())),
            EntryError::MtimeExceedsSystem => EntryError::MtimeExceedsSystem,
            EntryError::MtimeBeforeEpoch => EntryError::MtimeBeforeEpoch,
            EntryError::MtimeExceedsPlatform => EntryError::MtimeExceedsPlatform,
            EntryError::HoleTooLong => EntryError::HoleTooLong,
            EntryError::IncompleteFile => EntryError::IncompleteFile,
            EntryError::UnexpectedEof => EntryError::UnexpectedEof,
            EntryError::OutsideDestination => EntryError::OutsideDestination,
        }
    }

    /// The kind of this error.
    pub fn kind(&self) -> (kind: ErrorKind)
        ensures
            kind == self@.kind_of(),
    {
        match self {
            EntryError::MtimeExceedsSystem => ErrorKind::InvalidData,
            EntryError::MtimeBeforeEpoch => ErrorKind::InvalidData,
            EntryError::MtimeExceedsPlatform => ErrorKind::InvalidData,
            EntryError::HoleTooLong => ErrorKind::InvalidData,
            _ => ErrorKind::Other,
        }
    }

    /// The message of this error.
    pub fn message(&self) -> (text: String)
        ensures
            text@ == self@.message_of(),
    {
        match self {
            EntryError::MalformedPaxExtension => "malformed pax extension".to_owned(),
            EntryError::NoLinkName => "hard link listed but no link name found".to_owned(),
            EntryError::AbsoluteLink(path) => around(
                "symlink path `",
                path.as_slice(),
                "` is absolute, but external symlinks are not allowed",
            ),
            EntryError::EmptyLink(path) => around(
                "symlink destination for ",
                path.as_slice(),
                " is empty",
            ),
            EntryError::InvalidLink(path) => around(
                "symlink destination for ",
                path.as_slice(),
                " is not a valid path",
            ),
            EntryError::LinkWithoutParent(path) => around(
                "symlink destination for ",
                path.as_slice(),
                " lacks a parent path",
            ),
            EntryError::LinkOutside(path) => around(
                "symlink destination for ",
                path.as_slice(),
                " is outside of the target directory",
            ),
            EntryError::MtimeExceedsSystem => "mtime exceeds system limits".to_owned(),
            EntryError::MtimeBeforeEpoch => "mtime predates the Unix epoch".to_owned(),
            EntryError::MtimeExceedsPlatform => "mtime exceeds platform limits".to_owned(),
            EntryError::HoleTooLong => "hole exceeds file offset limits".to_owned(),
            EntryError::IncompleteFile => "failed to write entire file".to_owned(),
            EntryError::UnexpectedEof => {
                "unexpected EOF while reading archive entry data".to_owned()
            },
            EntryError::OutsideDestination => "Invalid argument".to_owned(),
        }
    }
}

/// The kinds of errors: the data of an entry is invalid where a time or a hole goes beyond a limit,
/// and every other reason is of no particular kind.
pub proof fn law_error_kinds(error: EntryError<Seq<u8>>)
    ensures
        error.kind_of() == ErrorKind::InvalidData <==> error is MtimeExceedsSystem || error
            is MtimeBeforeEpoch || error is MtimeExceedsPlatform || error is HoleTooLong,
        error.kind_of() == ErrorKind::InvalidData || error.kind_of() == ErrorKind::Other,
{
}

/// Whether a text is another one between two fixed ones.
pub open spec fn framed(
    text: Seq<char>,
    before: Seq<char>,
    inner: Seq<char>,
    after: Seq<char>,
) -> bool {
    text == before + inner + after
}

/// The message about a path tells the whole path, as text, within words that are the same for every
/// path.
pub proof fn law_message_tells_the_path(a: Seq<u8>, b: Seq<u8>)
    ensures
        same_frame(
            EntryError::AbsoluteLink(a).message_of(),
            lossy_text(a),
            EntryError::AbsoluteLink(b).message_of(),
            lossy_text(b),
        ),
        same_frame(
            EntryError::EmptyLink(a).message_of(),
            lossy_text(a),
            EntryError::EmptyLink(b).message_of(),
            lossy_text(b),
        ),
        same_frame(
            EntryError::InvalidLink(a).message_of(),
            lossy_text(a),
            EntryError::InvalidLink(b).message_of(),
            lossy_text(b),
        ),
        same_frame(
            EntryError::LinkWithoutParent(a).message_of(),
            lossy_text(a),
            EntryError::LinkWithoutParent(b).message_of(),
            lossy_text(b),
        ),
        same_frame(
            EntryError::LinkOutside(a).message_of(),
            lossy_text(a),
            EntryError::LinkOutside(b).message_of(),
            lossy_text(b),
        ),
{
    let link = "symlink destination for "@;
    assert(framed(
        EntryError::AbsoluteLink(a).message_of(),
        "symlink path `"@,
        lossy_text(a),
        "` is absolute, but external symlinks are not allowed"@,
    ));
    assert(framed(EntryError::EmptyLink(a).message_of(), link, lossy_text(a), " is empty"@));
    assert(framed(
        EntryError::InvalidLink(a).message_of(),
        link,
        lossy_text(a),
        " is not a valid path"@,
    ));
    assert(framed(
        EntryError::LinkWithoutParent(a).message_of(),
        link,
        lossy_text(a),
        " lacks a parent path"@,
    ));
    assert(framed(
        EntryError::LinkOutside(a).message_of(),
        link,
        lossy_text(a),
        " is outside of the target directory"@,
    ));
}

/// Whether two texts are two others between the same words.
pub open spec fn same_frame(
    text: Seq<char>,
    inner: Seq<char>,
    text2: Seq<char>,
    inner2: Seq<char>,
) -> bool {
    exists|before: Seq<char>, after: Seq<char>|
        #[trigger] framed(text, before, inner, after) && framed(text2, before, inner2, after)
}

/// What was being done when something failed.
#[derive(Debug)]
pub enum Context<P = Vec<u8>> {
    /// Reading the path of an entry; the path as far as it could be read.
    InvalidPath(P),
    /// Making the directory of a directory entry.
    CreateDir(P),
    /// Making a hard link from the first path at the second.
    HardLink(P, P),
    /// Resolving a path.
    Canonicalize(P),
    /// Finding that something is not inside this destination.
    Outside(P),
    /// Writing the entry with the first path in its header to the second path.
    UnpackInto(P, P),
    /// Setting the modification time.
    SetMtime(P),
    /// Setting the permissions.
    SetPermissions(u32, P),
    /// Setting an extended attribute of the path, with this name and this value.
    SetXattr(P, P, P),
    /// Making the directory that an entry belongs in.
    CreateParent(P),
    /// Unpacking the entry to this path.
    UnpackEntry(P),
}

impl View for Context {
    type V = Context<Seq<u8>>;

    open spec fn view(&self) -> Context<Seq<u8>> {
        match self {
            Context::InvalidPath(path) => Context::InvalidPath(path@),
            Context::CreateDir(path) => Context::CreateDir(path@),
            Context::HardLink(source, path) => Context::HardLink(source@, path@),
            Context::Canonicalize(path) => Context::Canonicalize(path@),
            Context::Outside(path) => Context::Outside(path@),
            Context::UnpackInto(name, path) => Context::UnpackInto(name@, path@),
            Context::SetMtime(path) => Context::SetMtime(path@),
            Context::SetPermissions(mode, path) => Context::SetPermissions(*mode, path@),
            Context::SetXattr(path, key, value) => Context::SetXattr(path@, key@, value@),
            Context::CreateParent(path) => Context::CreateParent(path@),
            Context::UnpackEntry(path) => Context::UnpackEntry(path@),
        }
    }
}

impl Context<Seq<u8>> {
    /// The message of an error with the given message in this context. Most contexts speak for
    /// themselves.
    ///
    /// For an extended attribute the text ends where its name and value are to follow in the
    /// platform's notation.
    pub open spec fn description_of(self, cause: Seq<char>) -> Seq<char> {
        match self {
            Context::InvalidPath(path) => "invalid path in entry header: "@ + lossy_text(path)
                + ""@,
            Context::CreateDir(path) => cause + (" when creating dir "@ + lossy_text(path) + ""@),
            Context::HardLink(source, path) => cause + (" when hard linking "@ + lossy_text(source)
                + " to "@) + lossy_text(path),
            Context::Canonicalize(path) => cause + (" while canonicalizing "@ + lossy_text(path)
                + ""@),
            Context::Outside(path) => "trying to unpack outside of destination path: "@
                + lossy_text(path) + ""@,
            Context::UnpackInto(name, path) => ("failed to unpack `"@ + lossy_text(name)
                + "` into `"@) + (lossy_text(path) + "`"@),
            Context::SetMtime(path) => "failed to set mtime for `"@ + lossy_text(path) + "`"@,
            Context::SetPermissions(mode, path) => "failed to set permissions to "@ + octal_text(
                mode as nat,
            ) + (" for `"@ + lossy_text(path) + "`"@),
            Context::SetXattr(path, _, _) => "failed to set extended attributes to "@ + lossy_text(
                path,
            ) + ". Xattrs: "@,
            Context::CreateParent(path) => "failed to create `"@ + lossy_text(path) + "`"@,
            Context::UnpackEntry(path) => "failed to unpack `"@ + lossy_text(path) + "`"@,
        }
    }
}

impl Context {
    /// The message of an error with the given message in this context.
    ///
    /// For an extended attribute the text ends where its name and value are to follow in the
    /// platform's notation.
    pub fn describe(&self, cause: &str) -> (text: String)
        ensures
            text@ == self@.description_of(cause@),
    {
        match self {
            Context::InvalidPath(path) => around(
                "invalid path in entry header: ",
                path.as_slice(),
                "",
            ),
            Context::CreateDir(path) => {
                let mut text = cause.to_owned();
                text.append(around(" when creating dir ", path.as_slice(), "").as_str());
                text
            },
            Context::HardLink(source, path) => {
                let mut text = cause.to_owned();
                text.append(around(" when hard linking ", source.as_slice(), " to ").as_str());
                text.append(lossy(path.as_slice()).as_str());
                text
            },
            Context::Canonicalize(path) => {
                let mut text = cause.to_owned();
                text.append(around(" while canonicalizing ", path.as_slice(), "").as_str());
                text
            },
            Context::Outside(path) => around(
                "trying to unpack outside of destination path: ",
                path.as_slice(),
                "",
            ),
            Context::UnpackInto(name, path) => {
                let mut text = around("failed to unpack `", name.as_slice(), "` into `");
                let mut end = lossy(path.as_slice());
                end.append("`");
                text.append(end.as_str());
                text
            },
            Context::SetMtime(path) => around("failed to set mtime for `", path.as_slice(), "`"),
            Context::SetPermissions(mode, path) => {
                let mut text = "failed to set permissions to ".to_owned();
                text.append(octal(*mode).as_str());
                text.append(around(" for `", path.as_slice(), "`").as_str());
                text
            },
            Context::SetXattr(path, _, _) => around(
                "failed to set extended attributes to ",
                path.as_slice(),
                ". Xattrs: ",
            ),
            Context::CreateParent(path) => around("failed to create `", path.as_slice(), "`"),
            Context::UnpackEntry(path) => around("failed to unpack `", path.as_slice(), "`"),
        }
    }
}

/// What is told of a context tells each of its paths whole, as text, and the cause where it is told
/// at all, within words that are the same for all of them.
pub proof fn law_description_tells_paths(
    a: Seq<u8>,
    b: Seq<u8>,
    cause: Seq<char>,
    other: Seq<char>,
    mode: u32,
)
    ensures
        same_frame(
            Context::InvalidPath(a).description_of(cause),
            lossy_text(a),
            Context::InvalidPath(b).description_of(other),
            lossy_text(b),
        ),
        same_frame(
            Context::Outside(a).description_of(cause),
            lossy_text(a),
            Context::Outside(b).description_of(other),
            lossy_text(b),
        ),
        same_frame(
            Context::SetMtime(a).description_of(cause),
            lossy_text(a),
            Context::SetMtime(b).description_of(other),
            lossy_text(b),
        ),
        same_frame(
            Context::SetXattr(a, b, b).description_of(cause),
            lossy_text(a),
            Context::SetXattr(b, a, a).description_of(other),
            lossy_text(b),
        ),
        same_frame(
            Context::CreateParent(a).description_of(cause),
            lossy_text(a),
            Context::CreateParent(b).description_of(other),
            lossy_text(b),
        ),
        same_frame(
            Context::UnpackEntry(a).description_of(cause),
            lossy_text(a),
            Context::UnpackEntry(b).description_of(other),
            lossy_text(b),
        ),
        Context::CreateDir(a).description_of(cause) == cause + " when creating dir "@ + lossy_text(
            a,
        ),
        Context::Canonicalize(a).description_of(cause) == cause + " while canonicalizing "@
            + lossy_text(a),
        Context::HardLink(a, b).description_of(cause) == cause + " when hard linking "@
            + lossy_text(a) + " to "@ + lossy_text(b),
        Context::UnpackInto(a, b).description_of(cause) == "failed to unpack `"@ + lossy_text(a)
            + "` into `"@ + lossy_text(b) + "`"@,
        Context::SetPermissions(mode, a).description_of(cause) == "failed to set permissions to "@
            + octal_text(mode as nat) + " for `"@ + lossy_text(a) + "`"@,
{
    reveal_strlit("");
    assert(framed(
        Context::InvalidPath(a).description_of(cause),
        "invalid path in entry header: "@,
        lossy_text(a),
        ""@,
    ));
    assert(framed(
        Context::Outside(a).description_of(cause),
        "trying to unpack outside of destination path: "@,
        lossy_text(a),
        ""@,
    ));
    assert(framed(
        Context::SetMtime(a).description_of(cause),
        "failed to set mtime for `"@,
        lossy_text(a),
        "`"@,
    ));
    assert(framed(
        Context::SetXattr(a, b, b).description_of(cause),
        "failed to set extended attributes to "@,
        lossy_text(a),
        ". Xattrs: "@,
    ));
    assert(framed(
        Context::CreateParent(a).description_of(cause),
        "failed to create `"@,
        lossy_text(a),
        "`"@,
    ));
    assert(framed(
        Context::UnpackEntry(a).description_of(cause),
        "failed to unpack `"@,
        lossy_text(a),
        "`"@,
    ));
    assert(Context::CreateDir(a).description_of(cause) =~= cause + " when creating dir "@
        + lossy_text(a));
    assert(Context::Canonicalize(a).description_of(cause) =~= cause + " while canonicalizing "@
        + lossy_text(a));
    assert(Context::HardLink(a, b).description_of(cause) =~= cause + " when hard linking "@
        + lossy_text(a) + " to "@ + lossy_text(b));
    assert(Context::UnpackInto(a, b).description_of(cause) =~= "failed to unpack `"@ + lossy_text(a)
        + "` into `"@ + lossy_text(b) + "`"@);
    assert(Context::SetPermissions(mode, a).description_of(cause)
        =~= "failed to set permissions to "@ + octal_text(mode as nat) + " for `"@ + lossy_text(a)
        + "`"@);
}

/// What a failure comes from.
#[derive(Debug)]
pub enum Cause<P = Vec<u8>> {
    /// The entry itself.
    Entry(EntryError<P>),
    /// The error that the system reported last.
    System,
}

impl View for Cause {
    type V = Cause<Seq<u8>>;

    open spec fn view(&self) -> Cause<Seq<u8>> {
        match self {
            Cause::Entry(error) => Cause::Entry(error@),
            Cause::System => Cause::System,
        }
    }
}

/// A failure with what was being done: the inner context is the nearer one.
#[derive(Debug)]
pub struct Failure<P = Vec<u8>> {
    pub cause: Cause<P>,
    pub inner: Option<Context<P>>,
    pub outer: Option<Context<P>>,
}

/// The meaning of a context that may be missing.
pub open spec fn context_view(context: Option<Context>) -> Option<Context<Seq<u8>>> {
    match context {
        Some(c) => Some(c@),
        None => None,
    }
}

impl View for Failure {
    type V = Failure<Seq<u8>>;

    open spec fn view(&self) -> Failure<Seq<u8>> {
        Failure {
            cause: self.cause@,
            inner: context_view(self.inner),
            outer: context_view(self.outer),
        }
    }
}

/// What contracts say of an error is the error, with the bytes of its path.
pub proof fn law_error_view_is_faithful(error: EntryError)
    ensures
        match error {
            EntryError::MalformedPaxExtension => error@ is MalformedPaxExtension,
            EntryError::NoLinkName => error@ is NoLinkName,
            EntryError::AbsoluteLink(path) => error@ == EntryError::AbsoluteLink(path@),
            EntryError::EmptyLink(path) => error@ == EntryError::EmptyLink(path@),
            EntryError::InvalidLink(path) => error@ == EntryError::InvalidLink(path@),
            EntryError::LinkWithoutParent(path) => error@ == EntryError::LinkWithoutParent(path@),
            EntryError::LinkOutside(path) => error@ == EntryError::LinkOutside(path@),
            EntryError::MtimeExceedsSystem => error@ is MtimeExceedsSystem,
            EntryError::MtimeBeforeEpoch => error@ is MtimeBeforeEpoch,
            EntryError::MtimeExceedsPlatform => error@ is MtimeExceedsPlatform,
            EntryError::HoleTooLong => error@ is HoleTooLong,
            EntryError::IncompleteFile => error@ is IncompleteFile,
            EntryError::UnexpectedEof => error@ is UnexpectedEof,
            EntryError::OutsideDestination => error@ is OutsideDestination,
        },
{
}

/// What contracts say of a context is the context, with the bytes of its paths.
pub proof fn law_context_view_is_faithful(context: Context)
    ensures
        match context {
            Context::InvalidPath(path) => context@ == Context::InvalidPath(path@),
            Context::CreateDir(path) => context@ == Context::CreateDir(path@),
            Context::HardLink(source, path) => context@ == Context::HardLink(source@, path@),
            Context::Canonicalize(path) => context@ == Context::Canonicalize(path@),
            Context::Outside(path) => context@ == Context::Outside(path@),
            Context::UnpackInto(name, path) => context@ == Context::UnpackInto(name@, path@),
            Context::SetMtime(path) => context@ == Context::SetMtime(path@),
            Context::SetPermissions(mode, path) => context@ == Context::SetPermissions(mode, path@),
            Context::SetXattr(path, key, value) => context@ == Context::SetXattr(
                path@,
                key@,
                value@,
            ),
            Context::CreateParent(path) => context@ == Context::CreateParent(path@),
            Context::UnpackEntry(path) => context@ == Context::UnpackEntry(path@),
        },
        context_view(Some(context)) == Some(context@),
        context_view(None) is None,
{
}

/// What contracts say of a failure is its cause and both its contexts.
pub proof fn law_failure_view_is_faithful(failure: Failure)
    ensures
        match failure.cause {
            Cause::Entry(error) => failure@.cause == Cause::Entry(error@),
            Cause::System => failure@.cause is System,
        },
        failure.inner matches Some(context) ==> failure@.inner == Some(context@),
        failure.inner is None ==> failure@.inner is None,
        failure.outer matches Some(context) ==> failure@.outer == Some(context@),
        failure.outer is None ==> failure@.outer is None,
{
}

} // verus!
