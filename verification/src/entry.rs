//! An entry of an archive.
use crate::bytes::{find_byte, lemma_first_at, up_to};
use crate::error::EntryError;
use crate::header::{
    as_slice_option, bytes_view, slice_view, EntryType, Header, HeaderFormat,
};
use crate::pax::{
    find_value, is_record, last_value, law_last_record_wins, law_value_is_of_the_last_record,
    pax_extensions, records, well_formed, PaxExtensions, Record,
};
use crate::text::{lossy, lossy_text};
use core::str::Utf8Error;
use std::collections::VecDeque;
use vstd::prelude::*;
use vstd::slice::{slice_subrange, slice_to_vec};
use vstd::utf8::{decode_utf8, valid_utf8};

verus! {

/// What pax records say about the name of an owner.
#[derive(Debug)]
pub enum PaxOwnerName {
    /// There is no name, whatever the header says.
    Deleted,
    /// This name holds in place of the one in the header.
    Override(Vec<u8>),
}

impl PaxOwnerName {
    /// The name, if there is one.
    pub open spec fn name(&self) -> Option<Seq<u8>> {
        match self {
            PaxOwnerName::Deleted => None,
            PaxOwnerName::Override(value) => Some(value@),
        }
    }

    /// What the value of a record says: an empty value deletes the name.
    pub fn from_bytes(value: &[u8]) -> (owner: Self)
        ensures
            owner.name() == (if value@.len() == 0 {
                None
            } else {
                Some(value@)
            }),
    {
        if value.is_empty() {
            Self::Deleted
        } else {
            Self::Override(slice_to_vec(value))
        }
    }

    /// The name, if there is one.
    pub fn as_bytes(&self) -> (bytes: Option<&[u8]>)
        ensures
            slice_view(bytes) == self.name(),
    {
        match self {
            Self::Deleted => None,
            Self::Override(value) => Some(value.as_slice()),
        }
    }
}

/// One segment of the data of an entry, with the number of bytes that are left in it.
#[derive(Debug, Clone, Copy, PartialEq, Eq, Structural)]
pub enum EntryIo {
    /// A hole in a sparse file.
    Pad(u64),
    /// Bytes that stand in the archive.
    Data(u64),
}

impl EntryIo {
    /// How many bytes are left.
    pub open spec fn left(self) -> nat {
        match self {
            EntryIo::Pad(limit) => limit as nat,
            EntryIo::Data(limit) => limit as nat,
        }
    }

    /// How many bytes are left.
    pub fn limit(&self) -> (limit: u64)
        ensures
            limit == self.left(),
    {
        match self {
            EntryIo::Pad(limit) => *limit,
            EntryIo::Data(limit) => *limit,
        }
    }
}

/// What unpacking an entry made.
#[derive(Debug, Clone, Copy, PartialEq, Eq, Structural)]
#[non_exhaustive]
pub enum Unpacked {
    /// A file.
    File,
    /// A directory, a link, or nothing.
    Other,
}

/// All there is to know about an entry.
#[derive(Debug)]
pub struct EntryFields {
    /// The path from an entry before this one.
    pub long_pathname: Option<Vec<u8>>,
    /// The link target from an entry before this one.
    pub long_linkname: Option<Vec<u8>>,
    /// The pax records from an entry before this one, or those that this one holds.
    pub pax_extensions: Option<Vec<u8>>,
    /// What pax records say about the owner.
    pub pax_username: Option<PaxOwnerName>,
    /// What pax records say about the owner's group.
    pub pax_groupname: Option<PaxOwnerName>,
    /// The header.
    pub header: Header,
    /// The length of the data.
    pub size: u64,
    /// Where the header starts in the archive.
    pub header_pos: u64,
    /// Where the data starts in the archive.
    pub file_pos: u64,
    /// The segments of the data that have not been started.
    pub data: VecDeque<EntryIo>,
    /// Whether unpacking sets extended attributes.
    pub unpack_xattrs: bool,
    /// Whether unpacking sets permissions.
    pub preserve_permissions: bool,
    /// Whether unpacking sets the modification time.
    pub preserve_mtime: bool,
    /// Whether unpacking replaces what is there already.
    pub overwrite: bool,
    /// Whether links may point outside the destination.
    pub allow_external_symlinks: bool,
    /// The segment that is being read.
    pub read_state: Option<EntryIo>,
}

/// The keyword of the record that holds a path.
pub open spec fn path_key() -> Seq<u8> {
    seq![0x70, 0x61, 0x74, 0x68]
}

/// The keyword of the record that holds a link target.
pub open spec fn linkpath_key() -> Seq<u8> {
    seq![0x6c, 0x69, 0x6e, 0x6b, 0x70, 0x61, 0x74, 0x68]
}

impl EntryFields {
    /// What the pax records of the entry say for a keyword.
    pub open spec fn pax_value(&self, key: Seq<u8>) -> Result<
        Option<Seq<u8>>,
        EntryError<Seq<u8>>,
    > {
        match self.pax_extensions {
            Some(pax) => if well_formed(pax@) {
                Ok(last_value(records(pax@), key))
            } else {
                Err(EntryError::MalformedPaxExtension)
            },
            None => Ok(None),
        }
    }

    /// The path of the entry. A long path from an entry before this one, which ends at its first
    /// NUL, comes before a pax record, and a pax record before the header.
    pub open spec fn path_of(&self) -> Result<Seq<u8>, EntryError<Seq<u8>>> {
        match self.long_pathname {
            Some(bytes) => Ok(up_to(bytes@, 0)),
            None => match self.pax_value(path_key()) {
                Ok(Some(path)) => Ok(path),
                Ok(None) => Ok(self.header.path@),
                Err(e) => Err(e),
            },
        }
    }

    /// The link target of the entry, chosen as the path is.
    pub open spec fn link_name_of(&self) -> Result<Option<Seq<u8>>, EntryError<Seq<u8>>> {
        match self.long_linkname {
            Some(bytes) => Ok(Some(up_to(bytes@, 0))),
            None => match self.pax_value(linkpath_key()) {
                Ok(Some(path)) => Ok(Some(path)),
                Ok(None) => Ok(bytes_view(self.header.link_name)),
                Err(e) => Err(e),
            },
        }
    }

    /// The owner's name: pax records come before the header.
    pub open spec fn username_of(&self) -> Option<Seq<u8>> {
        match self.pax_username {
            Some(owner) => owner.name(),
            None => bytes_view(self.header.username),
        }
    }

    /// The name of the owner's group: pax records come before the header.
    pub open spec fn groupname_of(&self) -> Option<Seq<u8>> {
        match self.pax_groupname {
            Some(owner) => owner.name(),
            None => bytes_view(self.header.groupname),
        }
    }

    /// Whether the entry itself holds pax records.
    pub open spec fn holds_pax(&self) -> bool {
        self.header.entry_type == EntryType::XGlobalHeader || self.header.holds_local_pax()
    }

    /// The fields of an entry.
    pub fn from(entry: Entry) -> (fields: Self)
        ensures
            fields == entry@,
    {
        entry.fields
    }

    /// The entry with these fields.
    pub fn into_entry(self) -> (entry: Entry)
        ensures
            entry@ == self,
    {
        Entry { fields: self }
    }

    /// The path of the entry. On Unix a path is its bytes: a `\` in it is kept as it is, and is
    /// part of a name.
    pub fn path(&self) -> (path: Result<&[u8], EntryError>)
        ensures
            match path {
                Ok(bytes) => self.path_of() == Ok::<Seq<u8>, EntryError<Seq<u8>>>(bytes@),
                Err(e) => self.path_of() == Err::<Seq<u8>, EntryError<Seq<u8>>>(e@),
            },
    {
        self.path_bytes()
    }

    /// The bytes of the path of the entry. A `\` among them is kept as it is.
    pub fn path_bytes(&self) -> (path: Result<&[u8], EntryError>)
        ensures
            match path {
                Ok(bytes) => self.path_of() == Ok::<Seq<u8>, EntryError<Seq<u8>>>(bytes@),
                Err(e) => self.path_of() == Err::<Seq<u8>, EntryError<Seq<u8>>>(e@),
            },
    {
        match &self.long_pathname {
            Some(bytes) => Ok(before_nul(bytes.as_slice())),
            None => {
                if let Some(pax) = &self.pax_extensions {
                    let key: [u8; 4] = [0x70, 0x61, 0x74, 0x68];
                    assert(key@ =~= path_key());
                    match find_value(pax.as_slice(), key.as_slice()) {
                        Ok(Some(path)) => {
                            return Ok(path);
                        },
                        Ok(None) => {},
                        Err(e) => {
                            return Err(e);
                        },
                    }
                }
                Ok(self.header.path.as_slice())
            },
        }
    }

    /// The path as text for messages: that of the header if the entry has no readable path.
    pub fn path_lossy(&self) -> (text: String)
        ensures
            text@ == lossy_text(
                match self.path_of() {
                    Ok(path) => path,
                    Err(_) => self.header.path@,
                },
            ),
    {
        match self.path_bytes() {
            Ok(path) => lossy(path),
            Err(_) => lossy(self.header.path.as_slice()),
        }
    }

    /// The link target of the entry. On Unix a path is its bytes: a `\` in it is kept as it is, and
    /// is part of a name.
    pub fn link_name(&self) -> (target: Result<Option<&[u8]>, EntryError>)
        ensures
            match target {
                Ok(name) => self.link_name_of() == Ok::<Option<Seq<u8>>, EntryError<Seq<u8>>>(
                    slice_view(name),
                ),
                Err(e) => self.link_name_of() == Err::<Option<Seq<u8>>, EntryError<Seq<u8>>>(e@),
            },
    {
        self.link_name_bytes()
    }

    /// The bytes of the link target of the entry. A `\` among them is kept as it is.
    pub fn link_name_bytes(&self) -> (target: Result<Option<&[u8]>, EntryError>)
        ensures
            match target {
                Ok(name) => self.link_name_of() == Ok::<Option<Seq<u8>>, EntryError<Seq<u8>>>(
                    slice_view(name),
                ),
                Err(e) => self.link_name_of() == Err::<Option<Seq<u8>>, EntryError<Seq<u8>>>(e@),
            },
    {
        match &self.long_linkname {
            Some(bytes) => Ok(Some(before_nul(bytes.as_slice()))),
            None => {
                if let Some(pax) = &self.pax_extensions {
                    let key: [u8; 8] = [0x6c, 0x69, 0x6e, 0x6b, 0x70, 0x61, 0x74, 0x68];
                    assert(key@ =~= linkpath_key());
                    match find_value(pax.as_slice(), key.as_slice()) {
                        Ok(Some(path)) => {
                            return Ok(Some(path));
                        },
                        Ok(None) => {},
                        Err(e) => {
                            return Err(e);
                        },
                    }
                }
                Ok(as_slice_option(&self.header.link_name))
            },
        }
    }

    /// The owner's name as text. An empty pax value deletes a name in the header.
    pub fn username(&self) -> (name: Result<Option<&str>, Utf8Error>)
        ensures
            text_matches(name, self.username_of()),
    {
        match self.username_bytes() {
            Some(bytes) => match core::str::from_utf8(bytes) {
                Ok(text) => Ok(Some(text)),
                Err(e) => Err(e),
            },
            None => Ok(None),
        }
    }

    /// The owner's name.
    pub fn username_bytes(&self) -> (name: Option<&[u8]>)
        ensures
            slice_view(name) == self.username_of(),
    {
        match &self.pax_username {
            Some(owner) => owner.as_bytes(),
            None => as_slice_option(&self.header.username),
        }
    }

    /// The name of the owner's group as text. An empty pax value deletes a name in the header.
    pub fn groupname(&self) -> (name: Result<Option<&str>, Utf8Error>)
        ensures
            text_matches(name, self.groupname_of()),
    {
        match self.groupname_bytes() {
            Some(bytes) => match core::str::from_utf8(bytes) {
                Ok(text) => Ok(Some(text)),
                Err(e) => Err(e),
            },
            None => Ok(None),
        }
    }

    /// The name of the owner's group.
    pub fn groupname_bytes(&self) -> (name: Option<&[u8]>)
        ensures
            slice_view(name) == self.groupname_of(),
    {
        match &self.pax_groupname {
            Some(owner) => owner.as_bytes(),
            None => as_slice_option(&self.header.groupname),
        }
    }

    /// Whether the data of the entry has to be read before its pax records are known.
    pub fn must_read_pax_extensions(&self) -> (must: bool)
        ensures
            must == (self.pax_extensions is None && self.holds_pax()),
    {
        self.pax_extensions.is_none() && (self.header.entry_type == EntryType::XGlobalHeader
            || self.header.is_pax_local_extensions())
    }

    /// Keeps the data of an entry that holds pax records.
    pub fn keep_pax_extensions(&mut self, contents: Vec<u8>)
        ensures
            *final(self) == (EntryFields { pax_extensions: Some(contents), ..*old(self) }),
    {
        self.pax_extensions = Some(contents);
    }

    /// The pax records of the entry, if it has any.
    pub fn pax_extensions(&self) -> (list: Option<PaxExtensions<'_>>)
        ensures
            list is Some <==> self.pax_extensions is Some,
            list matches Some(l) ==> l.rest() == self.pax_extensions.unwrap()@,
    {
        match &self.pax_extensions {
            Some(pax) => Some(pax_extensions(pax.as_slice())),
            None => None,
        }
    }
}

/// A long path from an entry before this one decides, whatever pax records and the header say. It
/// ends before its first NUL, and so does a long link target.
pub proof fn law_long_name_ends_at_nul(fields: EntryFields)
    ensures
        fields.long_pathname matches Some(bytes) ==> {
            &&& fields.path_of() matches Ok(path) && path.is_prefix_of(bytes@) && !path.contains(0)
                && (path.len() < bytes@.len() ==> bytes@[path.len() as int] == 0)
        },
        fields.long_linkname matches Some(bytes) ==> {
            &&& fields.link_name_of() matches Ok(Some(name)) && name.is_prefix_of(bytes@)
                && !name.contains(0) && (name.len() < bytes@.len() ==> bytes@[name.len() as int]
                == 0)
        },
{
    if let Some(bytes) = fields.long_pathname {
        lemma_first_at(bytes@, 0);
    }
    if let Some(bytes) = fields.long_linkname {
        lemma_first_at(bytes@, 0);
    }
}

/// Without a long name, the last pax record for the path or the link target decides, whatever
/// records stand before it and whatever the header says.
pub proof fn law_last_pax_record_decides(
    fields: EntryFields,
    data: Seq<u8>,
    text: Seq<u8>,
    key: Seq<u8>,
    value: Seq<u8>,
)
    requires
        fields.pax_extensions is Some,
        fields.pax_extensions.unwrap()@ == data + text,
        well_formed(data),
        is_record(text, key, value),
    ensures
        fields.pax_value(key) == Ok::<Option<Seq<u8>>, EntryError<Seq<u8>>>(Some(value)),
        fields.long_pathname is None && key == path_key() ==> fields.path_of() == Ok::<
            Seq<u8>,
            EntryError<Seq<u8>>,
        >(value),
        fields.long_linkname is None && key == linkpath_key() ==> fields.link_name_of() == Ok::<
            Option<Seq<u8>>,
            EntryError<Seq<u8>>,
        >(Some(value)),
{
    law_last_record_wins(data, text, key, value, key.push(0));
}

/// Without a long name, pax records that cannot all be read make the path and the link target an
/// error: they are not passed over.
pub proof fn law_malformed_records_are_refused(fields: EntryFields)
    requires
        fields.pax_extensions is Some,
        !well_formed(fields.pax_extensions.unwrap()@),
    ensures
        fields.long_pathname is None ==> fields.path_of() == Err::<Seq<u8>, EntryError<Seq<u8>>>(
            EntryError::MalformedPaxExtension,
        ),
        fields.long_linkname is None ==> fields.link_name_of() == Err::<
            Option<Seq<u8>>,
            EntryError<Seq<u8>>,
        >(EntryError::MalformedPaxExtension),
{
}

/// What pax records say of an owner holds in place of the header: an empty value leaves no name.
pub proof fn law_pax_owner_decides(fields: EntryFields)
    ensures
        fields.pax_username matches Some(owner) ==> fields.username_of() == owner.name(),
        fields.pax_groupname matches Some(owner) ==> fields.groupname_of() == owner.name(),
        fields.pax_username is None ==> fields.username_of() == bytes_view(fields.header.username),
        fields.pax_groupname is None ==> fields.groupname_of() == bytes_view(
            fields.header.groupname,
        ),
{
}

/// Without a long name, and without pax records or with readable ones of which none is for the
/// path, the path of the entry is that of its header, byte for byte; the link target likewise.
pub proof fn law_header_decides_without_names(fields: EntryFields)
    requires
        fields.pax_extensions matches Some(pax) ==> well_formed(pax@),
    ensures
        fields.long_pathname is None && (fields.pax_extensions matches Some(pax) ==> forall|i: int|
            0 <= i < records(pax@).len() ==> (#[trigger] records(pax@)[i]).key != seq![
                0x70u8,
                0x61,
                0x74,
                0x68,
            ]) ==> fields.path_of() == Ok::<Seq<u8>, EntryError<Seq<u8>>>(fields.header.path@),
        fields.long_linkname is None && (fields.pax_extensions matches Some(pax) ==> forall|i: int|
            0 <= i < records(pax@).len() ==> (#[trigger] records(pax@)[i]).key != seq![
                0x6cu8,
                0x69,
                0x6e,
                0x6b,
                0x70,
                0x61,
                0x74,
                0x68,
            ]) ==> (match fields.header.link_name {
            Some(name) => fields.link_name_of() == Ok::<Option<Seq<u8>>, EntryError<Seq<u8>>>(
                Some(name@),
            ),
            None => fields.link_name_of() == Ok::<Option<Seq<u8>>, EntryError<Seq<u8>>>(None),
        }),
{
    if let Some(pax) = fields.pax_extensions {
        law_value_is_of_the_last_record(records(pax@), path_key());
        law_value_is_of_the_last_record(records(pax@), linkpath_key());
    }
}

/// Without a long name, readable pax records give the path the whole value of the last record for
/// it, wherever that record stands; the link target likewise.
pub proof fn law_record_decides_wherever_it_stands(fields: EntryFields, pax: Seq<u8>, i: int)
    requires
        fields.pax_extensions is Some,
        fields.pax_extensions.unwrap()@ == pax,
        well_formed(pax),
        0 <= i < records(pax).len(),
        forall|j: int| i < j < records(pax).len() ==> (#[trigger] records(pax)[j]).key != records(
            pax,
        )[i].key,
    ensures
        fields.long_pathname is None && records(pax)[i].key == seq![0x70u8, 0x61, 0x74, 0x68]
            ==> fields.path_of() == Ok::<Seq<u8>, EntryError<Seq<u8>>>(records(pax)[i].value),
        fields.long_linkname is None && records(pax)[i].key == seq![
            0x6cu8,
            0x69,
            0x6e,
            0x6b,
            0x70,
            0x61,
            0x74,
            0x68,
        ] ==> fields.link_name_of() == Ok::<Option<Seq<u8>>, EntryError<Seq<u8>>>(
            Some(records(pax)[i].value),
        ),
{
    let list = records(pax);
    let key = list[i].key;
    law_value_is_of_the_last_record(list, key);
    if let Some(value) = last_value(list, key) {
        let at = choose|at: int|
            0 <= at < list.len() && #[trigger] list[at] == (Record { key, value }) && forall|j: int|
                at < j < list.len() ==> (#[trigger] list[j]).key != key;
        assert(list[at].key == key);
        if at < i {
            assert(list[i].key != key);
        }
        if at > i {
            assert(list[at].key != key);
        }
    }
    assert(seq![0x70u8, 0x61, 0x74, 0x68] =~= path_key());
    assert(seq![0x6cu8, 0x69, 0x6e, 0x6b, 0x70, 0x61, 0x74, 0x68] =~= linkpath_key());
}

/// The name of an owner is that of the pax records if they speak of it, whole, and otherwise that
/// of the header, whole; a deleted name is none.
pub proof fn law_owner_names_are_whole(fields: EntryFields)
    ensures
        match (fields.pax_username, fields.header.username) {
            (Some(PaxOwnerName::Override(name)), _) => fields.username_of() == Some(name@),
            (Some(PaxOwnerName::Deleted), _) => fields.username_of() is None,
            (None, Some(name)) => fields.username_of() == Some(name@),
            (None, None) => fields.username_of() is None,
        },
        match (fields.pax_groupname, fields.header.groupname) {
            (Some(PaxOwnerName::Override(name)), _) => fields.groupname_of() == Some(name@),
            (Some(PaxOwnerName::Deleted), _) => fields.groupname_of() is None,
            (None, Some(name)) => fields.groupname_of() == Some(name@),
            (None, None) => fields.groupname_of() is None,
        },
{
}

/// The entries that hold pax records are those for all entries, and those for the next one.
pub proof fn law_pax_entries(fields: EntryFields)
    ensures
        fields.header.entry_type == EntryType::XGlobalHeader ==> fields.holds_pax(),
        fields.header.entry_type == EntryType::XHeader ==> fields.holds_pax(),
        fields.header.entry_type == EntryType::SolarisXHeader ==> fields.holds_pax() == (
        fields.header.format == HeaderFormat::Ustar),
        fields.holds_pax() ==> fields.header.entry_type == EntryType::XGlobalHeader
            || fields.header.entry_type == EntryType::XHeader || fields.header.entry_type
            == EntryType::SolarisXHeader,
{
}

/// The bytes before the first NUL.
fn before_nul(bytes: &[u8]) -> (front: &[u8])
    ensures
        front@ == up_to(bytes@, 0),
{
    let end = find_byte(bytes, 0);
    let front = slice_subrange(bytes, 0, end);
    assert(front@ =~= up_to(bytes@, 0));
    front
}

/// An entry of an archive.
#[derive(Debug)]
pub struct Entry {
    fields: EntryFields,
}

impl View for Entry {
    type V = EntryFields;

    closed spec fn view(&self) -> EntryFields {
        self.fields
    }
}

impl Entry {
    /// The fields of the entry.
    pub(crate) fn borrow_fields(&self) -> (fields: &EntryFields)
        ensures
            *fields == self@,
    {
        &self.fields
    }

    /// The path of the entry.
    ///
    /// A path that does not fit into the header stands in an entry of its own or in a pax record:
    /// this method knows both. A `\` in it is kept as it is, and is part of a name.
    pub fn path(&self) -> (path: Result<&[u8], EntryError>)
        ensures
            match path {
                Ok(bytes) => self@.path_of() == Ok::<Seq<u8>, EntryError<Seq<u8>>>(bytes@),
                Err(e) => self@.path_of() == Err::<Seq<u8>, EntryError<Seq<u8>>>(e@),
            },
    {
        self.fields.path()
    }

    /// The bytes of the path of the entry. A `\` among them is kept as it is.
    pub fn path_bytes(&self) -> (path: Result<&[u8], EntryError>)
        ensures
            match path {
                Ok(bytes) => self@.path_of() == Ok::<Seq<u8>, EntryError<Seq<u8>>>(bytes@),
                Err(e) => self@.path_of() == Err::<Seq<u8>, EntryError<Seq<u8>>>(e@),
            },
    {
        self.fields.path_bytes()
    }

    /// The link target of the entry; `Ok(None)` if there is none. A `\` in it is kept as it is, and
    /// is part of a name.
    pub fn link_name(&self) -> (target: Result<Option<&[u8]>, EntryError>)
        ensures
            match target {
                Ok(name) => self@.link_name_of() == Ok::<Option<Seq<u8>>, EntryError<Seq<u8>>>(
                    slice_view(name),
                ),
                Err(e) => self@.link_name_of() == Err::<Option<Seq<u8>>, EntryError<Seq<u8>>>(e@),
            },
    {
        self.fields.link_name()
    }

    /// The bytes of the link target of the entry. A `\` among them is kept as it is.
    pub fn link_name_bytes(&self) -> (target: Result<Option<&[u8]>, EntryError>)
        ensures
            match target {
                Ok(name) => self@.link_name_of() == Ok::<Option<Seq<u8>>, EntryError<Seq<u8>>>(
                    slice_view(name),
                ),
                Err(e) => self@.link_name_of() == Err::<Option<Seq<u8>>, EntryError<Seq<u8>>>(e@),
            },
    {
        self.fields.link_name_bytes()
    }

    /// The owner's name as text. An empty pax value deletes a name in the header.
    pub fn username(&self) -> (name: Result<Option<&str>, Utf8Error>)
        ensures
            text_matches(name, self@.username_of()),
    {
        self.fields.username()
    }

    /// The owner's name.
    pub fn username_bytes(&self) -> (name: Option<&[u8]>)
        ensures
            slice_view(name) == self@.username_of(),
    {
        self.fields.username_bytes()
    }

    /// The name of the owner's group as text. An empty pax value deletes a name in the header.
    pub fn groupname(&self) -> (name: Result<Option<&str>, Utf8Error>)
        ensures
            text_matches(name, self@.groupname_of()),
    {
        self.fields.groupname()
    }

    /// The name of the owner's group.
    pub fn groupname_bytes(&self) -> (name: Option<&[u8]>)
        ensures
            slice_view(name) == self@.groupname_of(),
    {
        self.fields.groupname_bytes()
    }

    /// Whether the data of the entry has to be read before its pax records are known.
    pub fn must_read_pax_extensions(&self) -> (must: bool)
        ensures
            must == (self@.pax_extensions is None && self@.holds_pax()),
    {
        self.fields.must_read_pax_extensions()
    }

    /// The pax records of the entry, if it has any: those that describe it, or those that it
    /// holds once its data has been kept.
    pub fn pax_extensions(&self) -> (list: Option<PaxExtensions<'_>>)
        ensures
            list is Some <==> self@.pax_extensions is Some,
            list matches Some(l) ==> l.rest() == self@.pax_extensions.unwrap()@,
    {
        self.fields.pax_extensions()
    }

    /// The header of the entry.
    pub fn header(&self) -> (header: &Header)
        ensures
            *header == self@.header,
    {
        &self.fields.header
    }

    /// Where the header of the entry starts in the archive.
    pub fn raw_header_position(&self) -> (pos: u64)
        ensures
            pos == self@.header_pos,
    {
        self.fields.header_pos
    }

    /// Where the data of the entry starts in the archive.
    pub fn raw_file_position(&self) -> (pos: u64)
        ensures
            pos == self@.file_pos,
    {
        self.fields.file_pos
    }

    /// Sets whether unpacking sets extended attributes.
    pub fn set_unpack_xattrs(&mut self, unpack_xattrs: bool)
        ensures
            final(self)@ == (EntryFields { unpack_xattrs, ..old(self)@ }),
    {
        self.fields.unpack_xattrs = unpack_xattrs;
    }

    /// Sets whether unpacking sets permissions.
    pub fn set_preserve_permissions(&mut self, preserve: bool)
        ensures
            final(self)@ == (EntryFields { preserve_permissions: preserve, ..old(self)@ }),
    {
        self.fields.preserve_permissions = preserve;
    }

    /// Sets whether unpacking sets the modification time.
    pub fn set_preserve_mtime(&mut self, preserve: bool)
        ensures
            final(self)@ == (EntryFields { preserve_mtime: preserve, ..old(self)@ }),
    {
        self.fields.preserve_mtime = preserve;
    }

    /// Sets whether links may point outside the destination. What is written never leaves it.
    pub fn set_allow_external_symlinks(&mut self, allow_external_symlinks: bool)
        ensures
            final(self)@ == (EntryFields { allow_external_symlinks, ..old(self)@ }),
    {
        self.fields.allow_external_symlinks = allow_external_symlinks;
    }
}

/// Whether `text` is the given bytes read as UTF-8, or an error because they are not UTF-8.
pub open spec fn text_matches(
    text: Result<Option<&str>, Utf8Error>,
    bytes: Option<Seq<u8>>,
) -> bool {
    match bytes {
        None => text matches Ok(None),
        Some(b) => {
            &&& text is Ok <==> valid_utf8(b)
            &&& text matches Ok(t) ==> t is Some && t.unwrap()@ == decode_utf8(b)
        },
    }
}

/// A name as text is the text that its bytes encode, an error exactly if they encode none, and
/// nothing exactly if there is no name.
pub proof fn law_text_is_the_bytes(text: Result<Option<&str>, Utf8Error>, bytes: Option<Seq<u8>>)
    requires
        text_matches(text, bytes),
    ensures
        match (text, bytes) {
            (Ok(None), found) => found is None,
            (Ok(Some(t)), found) => found matches Some(b) && valid_utf8(b) && t@ == decode_utf8(b),
            (Err(_), found) => found matches Some(b) && !valid_utf8(b),
        },
{
}

} // verus!
