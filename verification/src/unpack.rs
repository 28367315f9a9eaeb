//! Unpacking an entry to a path.
//!
//! What unpacking does to the file system is worked out from the entry beforehand, as a list of
//! operations. [`Unpacking`](crate::unpacking::Unpacking) then asks for one action after the other
//! and learns how each went.
use crate::entry::{EntryFields, EntryIo};
use crate::error::EntryError;
use crate::header::{EntryType, Header, HeaderFormat};
use crate::path::{
    components, components_of, fits_at, has_root, inside, is_absolute, is_plain, join, joined,
    law_normalized, law_normalized_has_normal_components, lead, lemma_components_fit,
    lemma_components_short, lemma_joined, lemma_relative_normal_form, lemma_rooted, names,
    normal_form, normalize, normalized, parent, parent_of, parts_of, split, starts_with, SLASH,
};
use crate::pax::{find_with_prefix, records, well_formed, with_prefix, PaxExtension, Record};
use crate::read::total;
use vstd::prelude::*;
use vstd::slice::slice_to_vec;

verus! {

/// One operation of unpacking an entry to a path.
#[derive(Debug)]
pub enum UnpackOp<P = Vec<u8>> {
    /// Make a directory at the path, unless there is one.
    CreateDir,
    /// Make sure that the first path lies inside the second once it is resolved.
    CheckInside(P, P),
    /// Make a hard link at the path, to this file.
    HardLink(P),
    /// Make a symbolic link at the path, with this target.
    Symlink(P),
    /// Set the times of the symbolic link, in seconds of Unix time.
    SetLinkTimes(u64),
    /// Make a new file at the path.
    CreateFile,
    /// Write this many bytes of the archive to the file.
    Copy(u64),
    /// Move this far on in the file without writing.
    Skip(i64),
    /// Make sure that all of the file is written.
    Flush,
    /// Set the times of the file, in seconds of Unix time.
    SetFileTimes(u64),
    /// Set the permissions of what was made.
    SetPermissions(u32),
    /// Set the extended attribute with this name to this value.
    SetXattr(P, P),
    /// Stop with an error.
    Refuse(EntryError<P>),
}

impl View for UnpackOp {
    type V = UnpackOp<Seq<u8>>;

    open spec fn view(&self) -> UnpackOp<Seq<u8>> {
        match self {
            UnpackOp::CreateDir => UnpackOp::CreateDir,
            UnpackOp::CheckInside(path, base) => UnpackOp::CheckInside(path@, base@),
            UnpackOp::HardLink(path) => UnpackOp::HardLink(path@),
            UnpackOp::Symlink(path) => UnpackOp::Symlink(path@),
            UnpackOp::SetLinkTimes(time) => UnpackOp::SetLinkTimes(*time),
            UnpackOp::CreateFile => UnpackOp::CreateFile,
            UnpackOp::Copy(len) => UnpackOp::Copy(*len),
            UnpackOp::Skip(offset) => UnpackOp::Skip(*offset),
            UnpackOp::Flush => UnpackOp::Flush,
            UnpackOp::SetFileTimes(time) => UnpackOp::SetFileTimes(*time),
            UnpackOp::SetPermissions(mode) => UnpackOp::SetPermissions(*mode),
            UnpackOp::SetXattr(key, value) => UnpackOp::SetXattr(key@, value@),
            UnpackOp::Refuse(e) => UnpackOp::Refuse(e@),
        }
    }
}

/// The meanings of a list of operations.
pub open spec fn ops_of(list: Seq<UnpackOp>) -> Seq<UnpackOp<Seq<u8>>> {
    list.map_values(|op: UnpackOp| op@)
}

/// What opens the keyword of a record that holds an extended attribute: `SCHILY.xattr.`.
pub open spec fn xattr_prefix() -> Seq<u8> {
    seq![0x53, 0x43, 0x48, 0x49, 0x4c, 0x59, 0x2e, 0x78, 0x61, 0x74, 0x74, 0x72, 0x2e]
}

/// Whether the position in a file can be moved over every hole, by a signed number.
pub open spec fn holes_fit(queue: Seq<EntryIo>) -> bool {
    forall|i: int|
        0 <= i < queue.len() && #[trigger] queue[i] is Pad ==> queue[i].left() <= i64::MAX
}

/// What to do for a segment of the data, if it is not a hole that is too long.
pub open spec fn segment_op(io: EntryIo) -> UnpackOp<Seq<u8>> {
    match io {
        EntryIo::Data(limit) => UnpackOp::Copy(limit),
        EntryIo::Pad(limit) => UnpackOp::Skip(limit as i64),
    }
}

/// What to do for an extended attribute.
pub open spec fn xattr_op(record: Record) -> UnpackOp<Seq<u8>> {
    UnpackOp::SetXattr(record.key, record.value)
}

impl EntryFields {
    /// The modification time that unpacking sets. A time of zero, which some tools do not take,
    /// gives way to the second after it.
    pub open spec fn time_to_set(&self) -> Option<u64> {
        match self.header.mtime {
            Some(time) => if !self.preserve_mtime {
                None
            } else if time == 0 {
                Some(1)
            } else {
                Some(time)
            },
            None => None,
        }
    }

    /// Setting the times of a symbolic link.
    pub open spec fn link_time_ops(&self) -> Seq<UnpackOp<Seq<u8>>> {
        match self.time_to_set() {
            Some(time) => seq![UnpackOp::SetLinkTimes(time)],
            None => Seq::empty(),
        }
    }

    /// Setting the times of a file.
    pub open spec fn file_time_ops(&self) -> Seq<UnpackOp<Seq<u8>>> {
        match self.time_to_set() {
            Some(time) => seq![UnpackOp::SetFileTimes(time)],
            None => Seq::empty(),
        }
    }

    /// Setting the permissions.
    pub open spec fn permission_ops(&self) -> Seq<UnpackOp<Seq<u8>>> {
        match self.header.mode {
            Some(mode) => if self.preserve_permissions {
                seq![UnpackOp::SetPermissions(mode)]
            } else {
                Seq::empty()
            },
            None => Seq::empty(),
        }
    }

    /// Setting the extended attributes: none if the records cannot all be read.
    pub open spec fn xattr_ops(&self) -> Seq<UnpackOp<Seq<u8>>> {
        match self.pax_extensions {
            Some(pax) => if !self.unpack_xattrs {
                Seq::empty()
            } else if well_formed(pax@) {
                with_prefix(records(pax@), xattr_prefix()).map_values(|r: Record| xattr_op(r))
            } else {
                seq![UnpackOp::Refuse(EntryError::MalformedPaxExtension)]
            },
            None => Seq::empty(),
        }
    }

    /// Unpacking a directory.
    pub open spec fn dir_ops(&self) -> Seq<UnpackOp<Seq<u8>>> {
        seq![UnpackOp::CreateDir] + self.permission_ops()
    }

    /// Writing a file, and setting what belongs to it.
    pub open spec fn write_ops(&self) -> Seq<UnpackOp<Seq<u8>>> {
        seq![UnpackOp::CreateFile] + self.data@.map_values(|io: EntryIo| segment_op(io)) + seq![
            UnpackOp::Flush,
        ] + self.file_time_ops() + self.permission_ops() + self.xattr_ops()
    }

    /// Unpacking a file. One with a hole that is too long is refused before anything is made.
    pub open spec fn file_ops(&self) -> Seq<UnpackOp<Seq<u8>>> {
        if holes_fit(self.data@) {
            self.write_ops()
        } else {
            seq![UnpackOp::Refuse(EntryError::HoleTooLong)]
        }
    }

    /// The target that a symbolic link at `dst` gets. Unless links may point anywhere, it is the
    /// normal form of the target in the entry, and it has to lead to a place inside `base`.
    pub open spec fn symlink_target(
        &self,
        name: Seq<u8>,
        base: Option<Seq<u8>>,
        dst: Seq<u8>,
    ) -> Result<Seq<u8>, EntryError<Seq<u8>>> {
        if self.allow_external_symlinks {
            Ok(name)
        } else {
            match normalized(name) {
                None => Err(EntryError::InvalidLink(name)),
                Some(target) => match place_of_target(dst, target) {
                    None => Err(EntryError::LinkWithoutParent(name)),
                    Some(place) => if base is Some && inside(place, base.unwrap()) {
                        Ok(target)
                    } else {
                        Err(EntryError::LinkOutside(name))
                    },
                },
            }
        }
    }

    /// Unpacking a link with the given target.
    pub open spec fn named_link_ops(
        &self,
        name: Seq<u8>,
        base: Option<Seq<u8>>,
        dst: Seq<u8>,
    ) -> Seq<UnpackOp<Seq<u8>>> {
        if !self.allow_external_symlinks && is_absolute(name) {
            seq![UnpackOp::Refuse(EntryError::AbsoluteLink(name))]
        } else if components_of(name).len() == 0 {
            seq![UnpackOp::Refuse(EntryError::EmptyLink(name))]
        } else if self.header.entry_type == EntryType::Link {
            match base {
                Some(b) => seq![
                    UnpackOp::CheckInside(joined(b, name), b),
                    UnpackOp::HardLink(joined(b, name)),
                ],
                None => seq![UnpackOp::HardLink(name)],
            }
        } else {
            match self.symlink_target(name, base, dst) {
                Ok(target) => seq![UnpackOp::Symlink(target)] + self.link_time_ops(),
                Err(e) => seq![UnpackOp::Refuse(e)],
            }
        }
    }

    /// Unpacking a link.
    pub open spec fn link_ops(&self, base: Option<Seq<u8>>, dst: Seq<u8>) -> Seq<
        UnpackOp<Seq<u8>>,
    > {
        match self.link_name_of() {
            Ok(Some(name)) => self.named_link_ops(name, base, dst),
            Ok(None) => seq![UnpackOp::Refuse(EntryError::NoLinkName)],
            Err(e) => seq![UnpackOp::Refuse(e)],
        }
    }

    /// Whether the entry only says something about other entries.
    pub open spec fn is_extension(&self) -> bool {
        self.holds_pax() || self.header.entry_type == EntryType::GNULongName
            || self.header.entry_type == EntryType::GNULongLink
    }

    /// Whether the entry is a link.
    pub open spec fn is_link(&self) -> bool {
        self.header.entry_type == EntryType::Link || self.header.entry_type == EntryType::Symlink
    }

    /// All that unpacking does. Outside POSIX headers a path that ends in `/` makes a directory;
    /// a type that is not known makes a file.
    pub open spec fn unpack_ops(&self, base: Option<Seq<u8>>, dst: Seq<u8>) -> Seq<
        UnpackOp<Seq<u8>>,
    > {
        if self.header.entry_type == EntryType::Directory {
            self.dir_ops()
        } else if self.is_link() {
            self.link_ops(base, dst)
        } else if self.is_extension() {
            Seq::empty()
        } else if self.header.format == HeaderFormat::Ustar {
            self.file_ops()
        } else {
            match self.path_of() {
                Ok(path) => if path.len() > 0 && path.last() == SLASH {
                    self.dir_ops()
                } else {
                    self.file_ops()
                },
                Err(e) => seq![UnpackOp::Refuse(e)],
            }
        }
    }
}

/// Where the target of a symbolic link at `dst` leads.
pub open spec fn place_of_target(dst: Seq<u8>, target: Seq<u8>) -> Option<Seq<u8>> {
    match parent_of(dst) {
        Some(dir) => normalized(joined(dir, target)),
        None => None,
    }
}

/// What the operations that write a file can be.
proof fn lemma_write_ops(fields: EntryFields, i: int)
    requires
        0 <= i < fields.write_ops().len(),
    ensures
        ({
            let op = fields.write_ops()[i];
            &&& !(op is CheckInside) && !(op is HardLink) && !(op is Symlink) && !(op
                is SetLinkTimes)
            &&& op matches UnpackOp::SetFileTimes(time) ==> fields.time_to_set() == Some(time)
            &&& op matches UnpackOp::SetPermissions(mode) ==> fields.preserve_permissions
                && fields.header.mode == Some(mode)
            &&& op is SetXattr ==> fields.unpack_xattrs
            &&& op is Refuse ==> i == fields.write_ops().len() - 1
        }),
{
    let segments = fields.data@.map_values(|io: EntryIo| segment_op(io));
    let head = seq![UnpackOp::<Seq<u8>>::CreateFile];
    let tail = seq![UnpackOp::<Seq<u8>>::Flush];
    let ops = fields.write_ops();
    let a = head.len() as int;
    let b = a + segments.len();
    let c = b + tail.len();
    let d = c + fields.file_time_ops().len();
    let e = d + fields.permission_ops().len();
    if i < a {
        assert(ops[i] == head[i]);
    } else if i < b {
        assert(ops[i] == segments[i - a]);
        assert(ops[i] == segment_op(fields.data@[i - a]));
    } else if i < c {
        assert(ops[i] == tail[i - b]);
    } else if i < d {
        assert(ops[i] == fields.file_time_ops()[i - c]);
    } else if i < e {
        assert(ops[i] == fields.permission_ops()[i - d]);
    } else {
        assert(ops[i] == fields.xattr_ops()[i - e]);
    }
}

/// What the operations of unpacking can be.
proof fn lemma_ops(fields: EntryFields, base: Option<Seq<u8>>, dst: Seq<u8>, i: int)
    requires
        0 <= i < fields.unpack_ops(base, dst).len(),
    ensures
        ({
            let ops = fields.unpack_ops(base, dst);
            let op = ops[i];
            &&& op matches UnpackOp::Symlink(target) ==> (fields.link_name_of() matches Ok(
                Some(name),
            ) && fields.symlink_target(name, base, dst) == Ok::<Seq<u8>, EntryError<Seq<u8>>>(
                target,
            ) && (fields.allow_external_symlinks || !is_absolute(name)))
            &&& op matches UnpackOp::HardLink(source) ==> (base matches Some(b) ==> i == 1 && ops[0]
                == UnpackOp::CheckInside(source, b))
            &&& op matches UnpackOp::SetPermissions(mode) ==> fields.preserve_permissions
                && fields.header.mode == Some(mode)
            &&& op matches UnpackOp::SetFileTimes(time) ==> fields.time_to_set() == Some(time)
            &&& op matches UnpackOp::SetLinkTimes(time) ==> fields.time_to_set() == Some(time)
            &&& op is SetXattr ==> fields.unpack_xattrs
            &&& op is Refuse ==> i == ops.len() - 1 && (fields.is_link() ==> i == 0)
        }),
{
    if i < fields.write_ops().len() {
        lemma_write_ops(fields, i);
    }
}

/// Unless links may point anywhere, the target that a symbolic link gets is relative and in normal
/// form, and leads to a place inside the base; so there is a base.
pub proof fn law_symlink_stays_inside(
    fields: EntryFields,
    base: Option<Seq<u8>>,
    dst: Seq<u8>,
    i: int,
    target: Seq<u8>,
)
    requires
        !fields.allow_external_symlinks,
        0 <= i < fields.unpack_ops(base, dst).len(),
        fields.unpack_ops(base, dst)[i] == UnpackOp::Symlink(target),
    ensures
        !is_absolute(target),
        normalized(target) == Some(target),
        base matches Some(b) && place_of_target(dst, target) matches Some(place) && inside(
            place,
            b,
        ),
{
    lemma_ops(fields, base, dst, i);
    if let Ok(Some(name)) = fields.link_name_of() {
        law_normalized(name);
    }
}

/// Where links may point anywhere, a symbolic link gets the target that the entry has, as it is.
pub proof fn law_external_symlink_is_kept(
    fields: EntryFields,
    base: Option<Seq<u8>>,
    dst: Seq<u8>,
    i: int,
    target: Seq<u8>,
)
    requires
        fields.allow_external_symlinks,
        0 <= i < fields.unpack_ops(base, dst).len(),
        fields.unpack_ops(base, dst)[i] == UnpackOp::Symlink(target),
    ensures
        fields.link_name_of() == Ok::<Option<Seq<u8>>, EntryError<Seq<u8>>>(Some(target)),
{
    lemma_ops(fields, base, dst, i);
}

/// With a base, a hard link comes directly after a check that the file it is made to lies inside
/// the base.
pub proof fn law_hard_link_is_checked(
    fields: EntryFields,
    base: Seq<u8>,
    dst: Seq<u8>,
    i: int,
    source: Seq<u8>,
)
    requires
        0 <= i < fields.unpack_ops(Some(base), dst).len(),
        fields.unpack_ops(Some(base), dst)[i] == UnpackOp::HardLink(source),
    ensures
        i == 1,
        fields.unpack_ops(Some(base), dst)[0] == UnpackOp::CheckInside(source, base),
{
    lemma_ops(fields, Some(base), dst, i);
}

/// Permissions, times and extended attributes are set only where this is asked for, and a time
/// that is set is never zero.
pub proof fn law_metadata_is_set_on_request(
    fields: EntryFields,
    base: Option<Seq<u8>>,
    dst: Seq<u8>,
    i: int,
)
    requires
        0 <= i < fields.unpack_ops(base, dst).len(),
    ensures
        ({
            let op = fields.unpack_ops(base, dst)[i];
            &&& op matches UnpackOp::SetPermissions(mode) ==> fields.preserve_permissions
                && fields.header.mode == Some(mode)
            &&& op matches UnpackOp::SetFileTimes(time) ==> fields.preserve_mtime && time > 0
            &&& op matches UnpackOp::SetLinkTimes(time) ==> fields.preserve_mtime && time > 0
            &&& op is SetXattr ==> fields.unpack_xattrs
        }),
{
    lemma_ops(fields, base, dst, i);
}

/// A refusal is the end: no operation follows it.
pub proof fn law_refusal_is_last(
    fields: EntryFields,
    base: Option<Seq<u8>>,
    dst: Seq<u8>,
    i: int,
)
    requires
        0 <= i < fields.unpack_ops(base, dst).len(),
        fields.unpack_ops(base, dst)[i] is Refuse,
    ensures
        i == fields.unpack_ops(base, dst).len() - 1,
        fields.is_link() ==> i == 0,
{
    lemma_ops(fields, base, dst, i);
}

/// An entry that only says something about other entries leaves no trace.
pub proof fn law_extension_makes_nothing(
    fields: EntryFields,
    base: Option<Seq<u8>>,
    dst: Seq<u8>,
)
    requires
        fields.is_extension(),
    ensures
        fields.unpack_ops(base, dst).len() == 0,
{
}

/// A type that is not known is unpacked as a regular file is.
pub proof fn law_unknown_type_is_a_file(
    fields: EntryFields,
    flag: u8,
    base: Option<Seq<u8>>,
    dst: Seq<u8>,
)
    requires
        fields.header.entry_type == EntryType::Other(flag),
    ensures
        fields.unpack_ops(base, dst) == (EntryFields {
            header: Header { entry_type: EntryType::Regular, ..fields.header },
            ..fields
        }).unpack_ops(base, dst),
{
    let regular = EntryFields {
        header: Header { entry_type: EntryType::Regular, ..fields.header },
        ..fields
    };
    assert(fields.path_of() == regular.path_of());
    assert(fields.file_ops() == regular.file_ops());
    assert(fields.dir_ops() == regular.dir_ops());
}

/// How far an operation moves the position in the file that is written.
pub open spec fn advance(op: UnpackOp<Seq<u8>>) -> int {
    match op {
        UnpackOp::Copy(len) => len as int,
        UnpackOp::Skip(offset) => offset as int,
        _ => 0,
    }
}

/// How far operations move it together.
pub open spec fn advance_all(ops: Seq<UnpackOp<Seq<u8>>>) -> int
    decreases ops.len(),
{
    if ops.len() == 0 {
        0
    } else {
        advance_all(ops.drop_last()) + advance(ops.last())
    }
}

/// Two lists of operations move the position one after the other.
proof fn lemma_advance_add(a: Seq<UnpackOp<Seq<u8>>>, b: Seq<UnpackOp<Seq<u8>>>)
    ensures
        advance_all(a + b) == advance_all(a) + advance_all(b),
    decreases b.len(),
{
    if b.len() == 0 {
        assert(a + b =~= a);
    } else {
        assert((a + b).drop_last() =~= a + b.drop_last());
        lemma_advance_add(a, b.drop_last());
    }
}

/// Operations that do not move the position leave it where it is.
proof fn lemma_advance_none(ops: Seq<UnpackOp<Seq<u8>>>)
    requires
        forall|i: int| 0 <= i < ops.len() ==> advance(#[trigger] ops[i]) == 0,
    ensures
        advance_all(ops) == 0,
    decreases ops.len(),
{
    if ops.len() > 0 {
        assert(advance(ops[ops.len() - 1]) == 0);
        lemma_advance_none(ops.drop_last());
    }
}

/// Segments move the position by the number of their bytes.
proof fn lemma_advance_segments(queue: Seq<EntryIo>)
    requires
        holes_fit(queue),
    ensures
        advance_all(queue.map_values(|io: EntryIo| segment_op(io))) == total(queue),
    decreases queue.len(),
{
    let ops = queue.map_values(|io: EntryIo| segment_op(io));
    if queue.len() > 0 {
        let front = queue.drop_last();
        assert(ops.drop_last() =~= front.map_values(|io: EntryIo| segment_op(io)));
        assert(queue[queue.len() - 1] == queue.last());
        assert forall|i: int|
            0 <= i < front.len() && #[trigger] front[i] is Pad implies front[i].left()
            <= i64::MAX by {
            assert(queue[i] is Pad);
        }
        lemma_advance_segments(front);
    }
}

/// A file comes out with the length of the entry's data: what is written and what is skipped add
/// up to it. A file with a hole that is too long to skip is not made.
pub proof fn law_file_gets_all_data(fields: EntryFields)
    ensures
        holes_fit(fields.data@) ==> advance_all(fields.file_ops()) == total(fields.data@),
        !holes_fit(fields.data@) ==> fields.file_ops().len() == 1 && fields.file_ops()[0]
            == UnpackOp::<Seq<u8>>::Refuse(EntryError::HoleTooLong),
{
    let head = seq![UnpackOp::<Seq<u8>>::CreateFile];
    let segments = fields.data@.map_values(|io: EntryIo| segment_op(io));
    let tail = seq![UnpackOp::<Seq<u8>>::Flush];
    let rest = fields.file_time_ops();
    if holes_fit(fields.data@) {
        lemma_advance_segments(fields.data@);
    }
    lemma_advance_none(head);
    lemma_advance_none(tail);
    lemma_advance_none(rest);
    lemma_advance_none(fields.permission_ops());
    lemma_advance_none(fields.xattr_ops());
    lemma_advance_add(head, segments);
    lemma_advance_add(head + segments, tail);
    lemma_advance_add(head + segments + tail, rest);
    lemma_advance_add(head + segments + tail + rest, fields.permission_ops());
    lemma_advance_add(
        head + segments + tail + rest + fields.permission_ops(),
        fields.xattr_ops(),
    );
}

/// What contracts say of a planned operation is the operation, and of a list of them each one in
/// its place.
pub proof fn law_operation_view_is_faithful(op: UnpackOp, list: Seq<UnpackOp>)
    ensures
        match op {
            UnpackOp::CreateDir => op@ is CreateDir,
            UnpackOp::CheckInside(path, base) => op@ == UnpackOp::CheckInside(path@, base@),
            UnpackOp::HardLink(path) => op@ == UnpackOp::HardLink(path@),
            UnpackOp::Symlink(path) => op@ == UnpackOp::Symlink(path@),
            UnpackOp::SetLinkTimes(time) => op@ == UnpackOp::<Seq<u8>>::SetLinkTimes(time),
            UnpackOp::CreateFile => op@ is CreateFile,
            UnpackOp::Copy(len) => op@ == UnpackOp::<Seq<u8>>::Copy(len),
            UnpackOp::Skip(offset) => op@ == UnpackOp::<Seq<u8>>::Skip(offset),
            UnpackOp::Flush => op@ is Flush,
            UnpackOp::SetFileTimes(time) => op@ == UnpackOp::<Seq<u8>>::SetFileTimes(time),
            UnpackOp::SetPermissions(mode) => op@ == UnpackOp::<Seq<u8>>::SetPermissions(mode),
            UnpackOp::SetXattr(key, value) => op@ == UnpackOp::SetXattr(key@, value@),
            UnpackOp::Refuse(e) => op@ == UnpackOp::Refuse(e@),
        },
        ops_of(list).len() == list.len(),
        forall|i: int| 0 <= i < list.len() ==> #[trigger] ops_of(list)[i] == list[i]@,
{
}

/// Whether the entry stands for neither a directory nor a link nor something about other entries,
/// so that it is unpacked as a file.
pub open spec fn stands_for_file(fields: EntryFields) -> bool {
    &&& fields.header.entry_type != EntryType::Directory
    &&& fields.header.entry_type != EntryType::Link
    &&& fields.header.entry_type != EntryType::Symlink
    &&& fields.header.entry_type != EntryType::XGlobalHeader
    &&& fields.header.entry_type != EntryType::XHeader
    &&& fields.header.entry_type != EntryType::GNULongName
    &&& fields.header.entry_type != EntryType::GNULongLink
    &&& fields.header.entry_type != EntryType::SolarisXHeader || fields.header.format
        != HeaderFormat::Ustar
}

/// Whether the path of the entry ends in a separator.
pub open spec fn ends_in_separator(fields: EntryFields) -> bool {
    fields.path_of() matches Ok(path) && path.len() > 0 && path.last() == 0x2f
}

/// When a file is unpacked, the operations between its making and its flushing are its segments,
/// one for one and in their order: each segment of data is copied with exactly its length, and each
/// hole is skipped with exactly its length. Then come the time, the permissions and the extended
/// attributes, each where it is asked for and known, and nothing else.
pub proof fn law_file_is_written_segment_by_segment(
    fields: EntryFields,
    base: Option<Seq<u8>>,
    dst: Seq<u8>,
)
    requires
        stands_for_file(fields),
        fields.header.format == HeaderFormat::Ustar || (fields.path_of() is Ok
            && !ends_in_separator(fields)),
        forall|i: int|
            0 <= i < fields.data@.len() ==> (#[trigger] fields.data@[i] matches EntryIo::Pad(len)
                ==> len <= i64::MAX),
    ensures
        ({
            let ops = fields.unpack_ops(base, dst);
            let count = fields.data@.len() as int;
            let timed = count + 2 + if fields.preserve_mtime && fields.header.mtime is Some {
                1int
            } else {
                0
            };
            let moded = timed + if fields.preserve_permissions && fields.header.mode is Some {
                1int
            } else {
                0
            };
            &&& ops.len() >= moded
            &&& ops[0] is CreateFile
            &&& forall|i: int|
                0 <= i < count ==> (match #[trigger] fields.data@[i] {
                    EntryIo::Data(len) => ops[i + 1] == UnpackOp::<Seq<u8>>::Copy(len),
                    EntryIo::Pad(len) => ops[i + 1] matches UnpackOp::Skip(offset) && offset == len,
                })
            &&& ops[count + 1] is Flush
            &&& fields.preserve_mtime ==> (fields.header.mtime matches Some(time) ==> ops[count + 2]
                == UnpackOp::<Seq<u8>>::SetFileTimes(
                if time > 0 {
                    time
                } else {
                    1
                },
            ))
            &&& fields.preserve_permissions ==> (fields.header.mode matches Some(mode)
                ==> ops[timed] == UnpackOp::<Seq<u8>>::SetPermissions(mode))
            &&& !fields.unpack_xattrs || fields.pax_extensions is None ==> ops.len() == moded
            &&& fields.unpack_xattrs ==> (fields.pax_extensions matches Some(pax)
                ==> ops.skip(moded) == attributes_to_set(pax@))
        }),
{
    assert(holes_fit(fields.data@)) by {
        assert forall|i: int|
            0 <= i < fields.data@.len() && #[trigger] fields.data@[i] is Pad
            implies fields.data@[i].left() <= i64::MAX by {}
    }
    let ops = fields.unpack_ops(base, dst);
    let segments = fields.data@.map_values(|io: EntryIo| segment_op(io));
    let head = seq![UnpackOp::<Seq<u8>>::CreateFile];
    let tail = seq![UnpackOp::<Seq<u8>>::Flush];
    assert(ops == fields.write_ops());
    let count = fields.data@.len() as int;
    let timed = count + 2 + fields.file_time_ops().len();
    let moded = timed + fields.permission_ops().len();
    assert(ops[0] == head[0]);
    assert forall|i: int| 0 <= i < count implies (match #[trigger] fields.data@[i] {
        EntryIo::Data(len) => ops[i + 1] == UnpackOp::<Seq<u8>>::Copy(len),
        EntryIo::Pad(len) => ops[i + 1] matches UnpackOp::Skip(offset) && offset == len,
    }) by {
        assert(ops[i + 1] == segments[i]);
    }
    assert(ops[count + 1] == tail[0]);
    if fields.file_time_ops().len() > 0 {
        assert(ops[count + 2] == fields.file_time_ops()[0]);
    }
    if fields.permission_ops().len() > 0 {
        assert(ops[timed] == fields.permission_ops()[0]);
    }
    assert(ops.skip(moded) =~= fields.xattr_ops());
    if fields.unpack_xattrs {
        if let Some(pax) = fields.pax_extensions {
            let prefix = seq![
                0x53u8,
                0x43,
                0x48,
                0x49,
                0x4c,
                0x59,
                0x2e,
                0x78,
                0x61,
                0x74,
                0x74,
                0x72,
                0x2e,
            ];
            assert(prefix =~= xattr_prefix());
            assert(fields.xattr_ops() =~= attributes_to_set(pax@));
        }
    }
}

/// Setting the extended attributes that pax records hold, under keywords that open with
/// `SCHILY.xattr.`: each with the rest of its keyword as its name, in their order. If the records
/// cannot all be read, none is set.
pub open spec fn attributes_to_set(pax: Seq<u8>) -> Seq<UnpackOp<Seq<u8>>> {
    if well_formed(pax) {
        let held = with_prefix(
            records(pax),
            seq![
                0x53u8,
                0x43,
                0x48,
                0x49,
                0x4c,
                0x59,
                0x2e,
                0x78,
                0x61,
                0x74,
                0x74,
                0x72,
                0x2e,
            ],
        );
        Seq::new(held.len(), |i: int| UnpackOp::SetXattr(held[i].key, held[i].value))
    } else {
        seq![UnpackOp::Refuse(EntryError::MalformedPaxExtension)]
    }
}

/// An entry that stands for no file, and is neither a directory nor a link, makes nothing.
pub proof fn law_what_is_no_file_makes_nothing(
    fields: EntryFields,
    base: Option<Seq<u8>>,
    dst: Seq<u8>,
)
    requires
        !stands_for_file(fields),
        fields.header.entry_type != EntryType::Directory,
        fields.header.entry_type != EntryType::Link,
        fields.header.entry_type != EntryType::Symlink,
    ensures
        fields.unpack_ops(base, dst).len() == 0,
{
}

/// A base that is there is taken as it is.
pub proof fn law_base_is_taken_as_it_is(base: &[u8])
    ensures
        base_view(Some(base)) == Some(base@),
        base_view(None) is None,
{
}

/// A file with a hole that is too long to skip is refused, and so is one whose header is not of the
/// POSIX format and whose path cannot be read.
pub proof fn law_file_refusals(fields: EntryFields, base: Option<Seq<u8>>, dst: Seq<u8>)
    requires
        stands_for_file(fields),
    ensures
        fields.header.format != HeaderFormat::Ustar ==> (fields.path_of() matches Err(e)
            ==> fields.unpack_ops(base, dst) == seq![UnpackOp::Refuse(e)]),
        (fields.header.format == HeaderFormat::Ustar || (fields.path_of() is Ok
            && !ends_in_separator(fields))) && (exists|i: int|
            0 <= i < fields.data@.len() && (#[trigger] fields.data@[i] matches EntryIo::Pad(len)
                && len > i64::MAX)) ==> fields.unpack_ops(base, dst).len() == 1
            && fields.unpack_ops(base, dst)[0] == UnpackOp::<Seq<u8>>::Refuse(
            EntryError::HoleTooLong,
        ),
{
    if exists|i: int|
        0 <= i < fields.data@.len() && (#[trigger] fields.data@[i] matches EntryIo::Pad(len) && len
            > i64::MAX) {
        let i = choose|i: int|
            0 <= i < fields.data@.len() && (#[trigger] fields.data@[i] matches EntryIo::Pad(len)
                && len > i64::MAX);
        assert(fields.data@[i] is Pad);
        assert(!holes_fit(fields.data@));
    }
}

/// A directory entry, or outside POSIX headers an entry for a file whose path ends in a separator,
/// makes a directory and sets its permissions where this is asked for and they are known.
pub proof fn law_directory_is_made(fields: EntryFields, base: Option<Seq<u8>>, dst: Seq<u8>)
    requires
        fields.header.entry_type == EntryType::Directory || (stands_for_file(fields)
            && fields.header.format != HeaderFormat::Ustar && ends_in_separator(fields)),
    ensures
        fields.unpack_ops(base, dst)[0] is CreateDir,
        fields.preserve_permissions && fields.header.mode is Some ==> fields.unpack_ops(
            base,
            dst,
        ).len() == 2 && fields.unpack_ops(base, dst)[1] == UnpackOp::<Seq<u8>>::SetPermissions(
            fields.header.mode.unwrap(),
        ),
        !fields.preserve_permissions || fields.header.mode is None ==> fields.unpack_ops(
            base,
            dst,
        ).len() == 1,
{
}

/// Whether the entry is a link that is not refused for its target alone: the target is there, has a
/// component, and is not absolute unless links may point anywhere.
pub open spec fn has_usable_target(fields: EntryFields, name: Seq<u8>) -> bool {
    &&& fields.link_name_of() == Ok::<Option<Seq<u8>>, EntryError<Seq<u8>>>(Some(name))
    &&& components_of(name).len() > 0
    &&& fields.allow_external_symlinks || name[0] != 0x2f
}

/// A link, hard or symbolic, is refused for its target alone in four ways, each exactly where it
/// applies: the target cannot be read, there is none, it is absolute though links have to stay
/// inside, or it is empty.
pub proof fn law_link_refusals(fields: EntryFields, base: Option<Seq<u8>>, dst: Seq<u8>)
    requires
        fields.header.entry_type == EntryType::Link || fields.header.entry_type
            == EntryType::Symlink,
    ensures
        match fields.link_name_of() {
            Err(e) => fields.unpack_ops(base, dst) == seq![UnpackOp::Refuse(e)],
            Ok(None) => fields.unpack_ops(base, dst) == seq![
                UnpackOp::<Seq<u8>>::Refuse(EntryError::NoLinkName),
            ],
            Ok(Some(name)) => {
                &&& !fields.allow_external_symlinks && name.len() > 0 && name[0] == 0x2f
                    ==> fields.unpack_ops(base, dst) == seq![
                    UnpackOp::Refuse(EntryError::AbsoluteLink(name)),
                ]
                &&& components_of(name).len() == 0 ==> fields.unpack_ops(base, dst) == seq![
                    UnpackOp::Refuse(EntryError::EmptyLink(name)),
                ]
            },
        },
{
    if let Ok(Some(name)) = fields.link_name_of() {
        lemma_rooted(name);
    }
}

/// The file that a hard link is made to is its target seen from the base, and it is checked first;
/// without a base it is the target as it is. It depends on nothing else, least of all on where the
/// link is made.
pub proof fn law_hard_link_goes_to_its_target(
    fields: EntryFields,
    base: Seq<u8>,
    dst: Seq<u8>,
    elsewhere: Seq<u8>,
    name: Seq<u8>,
)
    requires
        fields.header.entry_type == EntryType::Link,
        has_usable_target(fields, name),
    ensures
        ({
            let source = if name[0] == 0x2f {
                name
            } else if base.len() == 0 || base.last() == 0x2f {
                base + name
            } else {
                base.push(0x2f) + name
            };
            &&& fields.unpack_ops(Some(base), dst) == seq![
                UnpackOp::CheckInside(source, base),
                UnpackOp::HardLink(source),
            ]
            &&& fields.unpack_ops(None, dst) == seq![UnpackOp::HardLink(name)]
            &&& fields.unpack_ops(Some(base), dst) == fields.unpack_ops(Some(base), elsewhere)
        }),
{
    lemma_usable_target(name);
}

/// A target with a component has a byte.
proof fn lemma_usable_target(name: Seq<u8>)
    requires
        components_of(name).len() > 0,
    ensures
        name.len() > 0,
{
    if name.len() == 0 {
        lemma_components_short(name);
        assert(name =~= Seq::empty());
    }
}

/// Where links may point anywhere, a symbolic link with a target is made with that target, as it
/// is, and then gets its time where this is asked for and it is known.
pub proof fn law_external_symlink_is_made(
    fields: EntryFields,
    base: Option<Seq<u8>>,
    dst: Seq<u8>,
    name: Seq<u8>,
)
    requires
        fields.header.entry_type == EntryType::Symlink,
        fields.allow_external_symlinks,
        has_usable_target(fields, name),
    ensures
        fields.unpack_ops(base, dst)[0] == UnpackOp::Symlink(name),
        link_is_timed(fields, base, dst),
{
}

/// Whether nothing follows the making of a symbolic link but the setting of its time, where this is
/// asked for and it is known: the time of the entry, but never zero.
pub open spec fn link_is_timed(
    fields: EntryFields,
    base: Option<Seq<u8>>,
    dst: Seq<u8>,
) -> bool {
    let ops = fields.unpack_ops(base, dst);
    match fields.header.mtime {
        Some(time) if fields.preserve_mtime => ops.len() == 2 && ops[1] == UnpackOp::<
            Seq<u8>,
        >::SetLinkTimes(
            if time > 0 {
                time
            } else {
                1
            },
        ),
        _ => ops.len() == 1,
    }
}

/// Where links have to stay inside, a symbolic link with a relative target is made exactly if there
/// is a base and the target, followed name by name from the directory of the link, leads to a place
/// inside it. The target that it gets has the normal form of the components of the one in the
/// entry. Otherwise it is refused: as one without a place if it leads above the root or the link
/// has no directory, and else as one that lies outside.
pub proof fn law_symlink_is_made_exactly_inside(
    fields: EntryFields,
    base: Option<Seq<u8>>,
    dst: Seq<u8>,
    name: Seq<u8>,
)
    requires
        fields.header.entry_type == EntryType::Symlink,
        !fields.allow_external_symlinks,
        has_usable_target(fields, name),
    ensures
        ({
            let ops = fields.unpack_ops(base, dst);
            let place = match parent_of(dst) {
                Some(dir) => normal_form(components_of(dir) + components_of(name)),
                None => None,
            };
            match place {
                None => ops == seq![UnpackOp::Refuse(EntryError::LinkWithoutParent(name))],
                Some(parts) => if base is Some && components_of(base.unwrap()).is_prefix_of(parts) {
                    &&& ops[0] matches UnpackOp::Symlink(target) && normal_form(components_of(name))
                        == Some(components_of(target)) && is_plain(target)
                    &&& link_is_timed(fields, base, dst)
                } else {
                    ops == seq![UnpackOp::Refuse(EntryError::LinkOutside(name))]
                },
            }
        }),
{
    let parts = components_of(name);
    lemma_usable_target(name);
    lemma_rooted(name);
    lemma_components_fit(name);
    assert forall|i: int| 0 <= i < parts.len() implies !(#[trigger] parts[i] is RootDir) by {
        assert(fits_at(parts[i], i));
    }
    lemma_relative_normal_form(Seq::empty(), parts);
    law_normalized_has_normal_components(name);
    law_normalized(name);
    let target = normalized(name).unwrap();
    let form = components_of(target);
    if let Some(dir) = parent_of(dst) {
        lemma_relative_normal_form(components_of(dir), parts);
        lemma_joined(dir, target);
        if form.len() > 0 {
            assert(!(form[0] is CurDir));
        }
        assert(lead(target) =~= Seq::empty());
        assert(form =~= names(split(target)));
        let whole = joined(dir, target);
        if dir.len() == 0 {
            lemma_components_short(dir);
            assert(dir =~= Seq::empty());
            assert(components_of(dir) + form =~= form);
        }
        assert(components_of(whole) == components_of(dir) + form);
        law_normalized_has_normal_components(whole);
    }
}

/// How far a hole moves the position in a file, if it is not too long.
pub fn seek_offset(len: u64) -> (offset: Option<i64>)
    ensures
        offset == if len <= i64::MAX {
            Some(len as i64)
        } else {
            None
        },
{
    if len <= i64::MAX as u64 {
        Some(len as i64)
    } else {
        None
    }
}

/// The meaning of a path that may be missing.
pub open spec fn base_view(base: Option<&[u8]>) -> Option<Seq<u8>> {
    match base {
        Some(b) => Some(b@),
        None => None,
    }
}

impl EntryFields {
    /// The modification time that unpacking sets.
    fn time_of_unpacking(&self) -> (time: Option<u64>)
        ensures
            time == self.time_to_set(),
    {
        match self.header.mtime {
            Some(time) => if !self.preserve_mtime {
                None
            } else if time == 0 {
                Some(1)
            } else {
                Some(time)
            },
            None => None,
        }
    }

    /// Adds the setting of permissions.
    fn push_permissions(&self, ops: &mut Vec<UnpackOp>)
        ensures
            ops_of(final(ops)@) == ops_of(old(ops)@) + self.permission_ops(),
    {
        let ghost before = ops@;
        if self.preserve_permissions {
            if let Some(mode) = self.header.mode {
                ops.push(UnpackOp::SetPermissions(mode));
            }
        }
        assert(ops_of(ops@) =~= ops_of(before) + self.permission_ops());
    }

    /// Adds the setting of extended attributes.
    fn push_xattrs(&self, ops: &mut Vec<UnpackOp>)
        ensures
            ops_of(final(ops)@) == ops_of(old(ops)@) + self.xattr_ops(),
    {
        let ghost before = ops@;
        if !self.unpack_xattrs {
            assert(ops_of(ops@) =~= ops_of(before) + self.xattr_ops());
            return;
        }
        match &self.pax_extensions {
            None => {
                assert(ops_of(ops@) =~= ops_of(before) + self.xattr_ops());
            },
            Some(pax) => {
                let prefix: [u8; 13] = [
                    0x53,
                    0x43,
                    0x48,
                    0x49,
                    0x4c,
                    0x59,
                    0x2e,
                    0x78,
                    0x61,
                    0x74,
                    0x74,
                    0x72,
                    0x2e,
                ];
                assert(prefix@ =~= xattr_prefix());
                match find_with_prefix(pax.as_slice(), prefix.as_slice()) {
                    Err(e) => {
                        ops.push(UnpackOp::Refuse(e));
                        assert(ops_of(ops@) =~= ops_of(before) + self.xattr_ops());
                    },
                    Ok(list) => {
                        let ghost all = with_prefix(records(pax@), xattr_prefix());
                        assert(list@.map_values(|ext: PaxExtension| ext@) == all);
                        let mut i: usize = 0;
                        assert(ops_of(ops@) =~= ops_of(before) + all.take(0).map_values(
                            |r: Record| xattr_op(r),
                        ));
                        while i < list.len()
                            invariant
                                i <= list@.len(),
                                list@.map_values(|ext: PaxExtension| ext@) == all,
                                ops_of(ops@) == ops_of(before) + all.take(i as int).map_values(
                                    |r: Record| xattr_op(r),
                                ),
                            decreases list@.len() - i,
                        {
                            let ext = list[i];
                            assert(all[i as int] == ext@);
                            let ghost sofar = ops@;
                            ops.push(
                                UnpackOp::SetXattr(
                                    slice_to_vec(ext.key_bytes()),
                                    slice_to_vec(ext.value_bytes()),
                                ),
                            );
                            i += 1;
                            proof {
                                assert(ops_of(ops@) =~= ops_of(sofar).push(xattr_op(ext@)));
                                assert(all.take(i as int) =~= all.take(i - 1).push(ext@));
                                assert(ops_of(ops@) =~= ops_of(before) + all.take(
                                    i as int,
                                ).map_values(|r: Record| xattr_op(r)));
                            }
                        }
                        assert(all.take(i as int) =~= all);
                    },
                }
            },
        }
    }

    /// Works out how to unpack a directory.
    fn plan_dir(&self) -> (ops: Vec<UnpackOp>)
        ensures
            ops_of(ops@) == self.dir_ops(),
    {
        let mut ops: Vec<UnpackOp> = Vec::new();
        ops.push(UnpackOp::CreateDir);
        assert(ops_of(ops@) =~= seq![UnpackOp::CreateDir]);
        self.push_permissions(&mut ops);
        ops
    }

    /// Works out how to unpack a file.
    fn plan_file(&self) -> (ops: Vec<UnpackOp>)
        ensures
            ops_of(ops@) == self.file_ops(),
    {
        let mut ops: Vec<UnpackOp> = Vec::new();
        ops.push(UnpackOp::CreateFile);
        let ghost head = seq![UnpackOp::<Seq<u8>>::CreateFile];
        let mut i: usize = 0;
        assert(ops_of(ops@) =~= head + self.data@.take(0).map_values(|io: EntryIo| segment_op(io)));
        while i < self.data.len()
            invariant
                i <= self.data@.len(),
                holes_fit(self.data@.take(i as int)),
                ops_of(ops@) == head + self.data@.take(i as int).map_values(
                    |io: EntryIo| segment_op(io),
                ),
            decreases self.data@.len() - i,
        {
            let ghost sofar = ops@;
            let io = self.data[i];
            match io {
                EntryIo::Data(limit) => {
                    ops.push(UnpackOp::Copy(limit));
                },
                EntryIo::Pad(limit) => match seek_offset(limit) {
                    Some(offset) => {
                        ops.push(UnpackOp::Skip(offset));
                    },
                    None => {
                        assert(self.data@[i as int] is Pad);
                        let mut refused: Vec<UnpackOp> = Vec::new();
                        refused.push(UnpackOp::Refuse(EntryError::HoleTooLong));
                        assert(ops_of(refused@) =~= self.file_ops());
                        return refused;
                    },
                },
            }
            i += 1;
            proof {
                assert(holes_fit(self.data@.take(i as int))) by {
                    let known = self.data@.take(i - 1);
                    let longer = self.data@.take(i as int);
                    assert forall|j: int|
                        0 <= j < longer.len() && #[trigger] longer[j] is Pad
                        implies longer[j].left() <= i64::MAX by {
                        if j < i - 1 {
                            assert(known[j] is Pad);
                        }
                    }
                }
                assert(ops_of(ops@) =~= ops_of(sofar).push(segment_op(io)));
                assert(self.data@.take(i as int) =~= self.data@.take(i - 1).push(io));
                assert(ops_of(ops@) =~= head + self.data@.take(i as int).map_values(
                    |io: EntryIo| segment_op(io),
                ));
            }
        }
        assert(self.data@.take(i as int) =~= self.data@);
        let ghost sofar = ops@;
        ops.push(UnpackOp::Flush);
        assert(ops_of(ops@) =~= ops_of(sofar) + seq![UnpackOp::Flush]);
        let ghost sofar = ops@;
        if let Some(time) = self.time_of_unpacking() {
            ops.push(UnpackOp::SetFileTimes(time));
        }
        assert(ops_of(ops@) =~= ops_of(sofar) + self.file_time_ops());
        self.push_permissions(&mut ops);
        self.push_xattrs(&mut ops);
        ops
    }

    /// Works out the target of a symbolic link.
    fn resolve_symlink(&self, name: &[u8], base: Option<&[u8]>, dst: &[u8]) -> (target: Result<
        Vec<u8>,
        EntryError,
    >)
        ensures
            match target {
                Ok(t) => self.symlink_target(name@, base_view(base), dst@) == Ok::<
                    Seq<u8>,
                    EntryError<Seq<u8>>,
                >(t@),
                Err(e) => self.symlink_target(name@, base_view(base), dst@) == Err::<
                    Seq<u8>,
                    EntryError<Seq<u8>>,
                >(e@),
            },
    {
        if self.allow_external_symlinks {
            return Ok(slice_to_vec(name));
        }
        let target = match normalize(name) {
            Some(target) => target,
            None => {
                return Err(EntryError::InvalidLink(slice_to_vec(name)));
            },
        };
        let dir = match parent(dst) {
            Some(dir) => dir,
            None => {
                return Err(EntryError::LinkWithoutParent(slice_to_vec(name)));
            },
        };
        let place = match normalize(join(dir.as_slice(), target.as_slice()).as_slice()) {
            Some(place) => place,
            None => {
                return Err(EntryError::LinkWithoutParent(slice_to_vec(name)));
            },
        };
        match base {
            Some(b) => if starts_with(place.as_slice(), b) {
                Ok(target)
            } else {
                Err(EntryError::LinkOutside(slice_to_vec(name)))
            },
            None => Err(EntryError::LinkOutside(slice_to_vec(name))),
        }
    }

    /// Works out how to unpack a link.
    fn plan_link(&self, base: Option<&[u8]>, dst: &[u8]) -> (ops: Vec<UnpackOp>)
        ensures
            ops_of(ops@) == self.link_ops(base_view(base), dst@),
    {
        let ghost want = self.link_ops(base_view(base), dst@);
        let mut ops: Vec<UnpackOp> = Vec::new();
        let name = match self.link_name() {
            Ok(Some(name)) => name,
            Ok(None) => {
                ops.push(UnpackOp::Refuse(EntryError::NoLinkName));
                assert(ops_of(ops@) =~= want);
                return ops;
            },
            Err(e) => {
                ops.push(UnpackOp::Refuse(e));
                assert(ops_of(ops@) =~= want);
                return ops;
            },
        };
        if !self.allow_external_symlinks && has_root(name) {
            ops.push(UnpackOp::Refuse(EntryError::AbsoluteLink(slice_to_vec(name))));
            assert(ops_of(ops@) =~= want);
            return ops;
        }
        let parts = components(name);
        assert(parts@.len() == components_of(name@).len()) by {
            assert(parts_of(parts@).len() == parts@.len());
        }
        if parts.len() == 0 {
            ops.push(UnpackOp::Refuse(EntryError::EmptyLink(slice_to_vec(name))));
            assert(ops_of(ops@) =~= want);
            return ops;
        }
        if self.header.entry_type == EntryType::Link {
            match base {
                Some(b) => {
                    ops.push(UnpackOp::CheckInside(join(b, name), slice_to_vec(b)));
                    ops.push(UnpackOp::HardLink(join(b, name)));
                },
                None => {
                    ops.push(UnpackOp::HardLink(slice_to_vec(name)));
                },
            }
            assert(ops_of(ops@) =~= want);
            return ops;
        }
        match self.resolve_symlink(name, base, dst) {
            Ok(target) => {
                ops.push(UnpackOp::Symlink(target));
                if let Some(time) = self.time_of_unpacking() {
                    ops.push(UnpackOp::SetLinkTimes(time));
                }
            },
            Err(e) => {
                ops.push(UnpackOp::Refuse(e));
            },
        }
        assert(ops_of(ops@) =~= want);
        ops
    }

    /// Whether the entry only says something about other entries.
    fn describes_others(&self) -> (does: bool)
        ensures
            does == self.is_extension(),
    {
        self.header.entry_type == EntryType::XGlobalHeader || self.header.is_pax_local_extensions()
            || self.header.entry_type == EntryType::GNULongName || self.header.entry_type
            == EntryType::GNULongLink
    }

    /// Works out how to unpack the entry to `dst`. With a `base`, links have to stay inside it.
    pub fn plan_unpack(&self, base: Option<&[u8]>, dst: &[u8]) -> (ops: Vec<UnpackOp>)
        ensures
            ops_of(ops@) == self.unpack_ops(base_view(base), dst@),
    {
        let kind = self.header.entry_type;
        if kind == EntryType::Directory {
            return self.plan_dir();
        }
        if kind == EntryType::Link || kind == EntryType::Symlink {
            return self.plan_link(base, dst);
        }
        if self.describes_others() {
            let ops: Vec<UnpackOp> = Vec::new();
            assert(ops_of(ops@) =~= Seq::empty());
            return ops;
        }
        if self.header.format != HeaderFormat::Ustar {
            match self.path_bytes() {
                Ok(path) => {
                    if path.len() > 0 && path[path.len() - 1] == SLASH {
                        return self.plan_dir();
                    }
                },
                Err(e) => {
                    let mut ops: Vec<UnpackOp> = Vec::new();
                    ops.push(UnpackOp::Refuse(e));
                    assert(ops_of(ops@) =~= self.unpack_ops(base_view(base), dst@));
                    return ops;
                },
            }
        }
        self.plan_file()
    }
}

} // verus!
