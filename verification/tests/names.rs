use std::collections::VecDeque;
use tar_entry::entry::{EntryFields, PaxOwnerName};
use tar_entry::error::EntryError;
use tar_entry::header::{EntryType, Header, HeaderFormat};
use tar_entry::pax::{find_value, find_with_prefix, pax_extensions};

fn header(flag: u8, format: HeaderFormat, path: &[u8]) -> Header {
    Header {
        entry_type: EntryType::new(flag),
        format,
        path: path.to_vec(),
        link_name: None,
        username: None,
        groupname: None,
        mode: None,
        mtime: None,
    }
}

fn fields(header: Header) -> EntryFields {
    EntryFields {
        long_pathname: None,
        long_linkname: None,
        pax_extensions: None,
        pax_username: None,
        pax_groupname: None,
        header,
        size: 0,
        header_pos: 0,
        file_pos: 512,
        data: VecDeque::new(),
        unpack_xattrs: false,
        preserve_permissions: false,
        preserve_mtime: true,
        overwrite: true,
        allow_external_symlinks: true,
        read_state: None,
    }
}

fn pax_record(key: &str, value: &[u8]) -> Vec<u8> {
    let body_len = 1 + key.len() + 1 + value.len() + 1;
    let mut len = body_len + 1;
    loop {
        let actual_len = len.to_string().len() + body_len;
        if actual_len == len {
            break;
        }
        len = actual_len;
    }
    let mut record = format!("{len} {key}=").into_bytes();
    record.extend_from_slice(value);
    record.push(b'\n');
    assert_eq!(record.len(), len);
    record
}

/// What the records say of the owner, as the fields of an entry hold it.
fn owned(records: &[u8], mut header: Header) -> EntryFields {
    header.username = Some(b"raw-user".to_vec());
    header.groupname = Some(b"raw-group".to_vec());
    let mut entry = fields(header);
    entry.pax_username = find_value(records, b"uname").unwrap().map(PaxOwnerName::from_bytes);
    entry.pax_groupname = find_value(records, b"gname").unwrap().map(PaxOwnerName::from_bytes);
    entry.pax_extensions = Some(records.to_vec());
    entry
}

#[test]
fn long_name_trailing_nul() {
    let mut entry = fields(header(b'0', HeaderFormat::Gnu, b"bar"));
    entry.long_pathname = Some(b"foo\0".to_vec());
    assert_eq!(entry.into_entry().path_bytes().unwrap(), b"foo");
}

#[test]
fn long_name_stops_at_first_nul() {
    let mut entry = fields(header(b'0', HeaderFormat::Gnu, b"fallback"));
    entry.long_pathname = Some(b"foo\0bar\0".to_vec());
    assert_eq!(entry.into_entry().path_bytes().unwrap(), b"foo");
}

#[test]
fn long_linkname_trailing_nul() {
    let mut entry = fields(header(b'0', HeaderFormat::Gnu, b"bar"));
    entry.long_linkname = Some(b"foo\0".to_vec());
    assert_eq!(entry.into_entry().link_name_bytes().unwrap().unwrap(), b"foo");
}

#[test]
fn gnu_long_pathname_stops_at_first_nul() {
    let mut entry = fields(header(0, HeaderFormat::Gnu, b"raw-name"));
    entry.long_pathname = Some(b"name\0hidden".to_vec());
    assert_eq!(entry.into_entry().path_bytes().unwrap(), b"name");
}

#[test]
fn gnu_long_linkname_stops_at_first_nul() {
    let mut entry = fields(header(0, HeaderFormat::Gnu, b"link"));
    entry.long_linkname = Some(b"target\0hidden".to_vec());
    assert_eq!(entry.into_entry().link_name_bytes().unwrap().unwrap(), b"target");
}

#[test]
fn long_name_without_nul_is_whole() {
    let mut entry = fields(header(b'0', HeaderFormat::Gnu, b"short"));
    let long = "abcd".repeat(200).into_bytes();
    entry.long_pathname = Some(long.clone());
    entry.pax_extensions = Some(pax_record("path", b"pax-name"));
    assert_eq!(entry.path().unwrap(), &long[..]);
}

#[test]
fn append_path_symlink() {
    let long_linkname = "abcd".repeat(30).into_bytes();
    let long_pathname = "dcba".repeat(30).into_bytes();

    let mut first = fields(header(b'2', HeaderFormat::Gnu, b"test"));
    first.header.link_name = Some(b"testdest".to_vec());
    let entry = first.into_entry();
    assert_eq!(entry.path().unwrap(), b"test");
    assert_eq!(entry.link_name().unwrap(), Some(&b"testdest"[..]));

    let mut second = fields(header(b'2', HeaderFormat::Gnu, b"test2"));
    second.header.link_name = Some(long_linkname[..100].to_vec());
    second.long_linkname = Some([&long_linkname[..], b"\0"].concat());
    let entry = second.into_entry();
    assert_eq!(entry.path().unwrap(), b"test2");
    assert_eq!(entry.link_name().unwrap(), Some(&long_linkname[..]));

    let mut third = fields(header(b'2', HeaderFormat::Gnu, &long_pathname[..100]));
    third.header.link_name = Some(long_linkname[..100].to_vec());
    third.long_pathname = Some([&long_pathname[..], b"\0"].concat());
    third.long_linkname = Some([&long_linkname[..], b"\0"].concat());
    let entry = third.into_entry();
    assert_eq!(entry.path().unwrap(), &long_pathname[..]);
    assert_eq!(entry.link_name().unwrap(), Some(&long_linkname[..]));
}

#[test]
fn links() {
    let mut link = fields(header(b'2', HeaderFormat::Ustar, b"lnk"));
    link.header.link_name = Some(b"file".to_vec());
    assert_eq!(link.into_entry().link_name().unwrap(), Some(&b"file"[..]));
    let other = fields(header(b'0', HeaderFormat::Ustar, b"file"));
    assert_eq!(other.into_entry().link_name().unwrap(), None);
}

#[test]
fn backslash_treated_well() {
    let entry = fields(header(b'0', HeaderFormat::Gnu, b"foo\\bar")).into_entry();
    assert_eq!(entry.path().unwrap(), b"foo\\bar");
    assert_eq!(entry.header().path, b"foo\\bar");
}

#[test]
fn extended_sparse_data_position_skips_extension_headers() {
    let mut entry = fields(header(b'S', HeaderFormat::Gnu, b"sparse_ext.txt"));
    entry.header_pos = 2048;
    entry.file_pos = 3072;
    let entry = entry.into_entry();
    assert_eq!(entry.header().path, b"sparse_ext.txt");
    assert_eq!(entry.raw_file_position(), 3072);
    assert_eq!(entry.raw_header_position(), 2048);
}

#[test]
fn duplicate_pax_paths_use_last_value() {
    let mut entry = fields(header(b'0', HeaderFormat::Ustar, b"raw-name"));
    entry.pax_extensions = Some(b"19 path=first-name\n20 path=second-name\n".to_vec());
    assert_eq!(entry.into_entry().path_bytes().unwrap(), b"second-name");
}

#[test]
fn last_pax_linkpath_wins() {
    let mut entry = fields(header(b'2', HeaderFormat::Gnu, b"symlink"));
    entry.header.link_name = Some(b"raw-target".to_vec());
    entry.pax_extensions = Some(b"22 linkpath=pax-first\n21 linkpath=pax-last\n".to_vec());
    assert_eq!(entry.into_entry().link_name_bytes().unwrap().unwrap(), b"pax-last");
}

#[test]
fn solaris_extended_header_applies_pax_path() {
    let extension = fields(header(b'X', HeaderFormat::Ustar, b"SolarisHeader"));
    assert!(extension.into_entry().must_read_pax_extensions());
    let mut file = fields(header(b'0', HeaderFormat::Ustar, b"raw-name"));
    file.pax_extensions = Some(b"21 path=solaris-path\n".to_vec());
    assert_eq!(file.into_entry().path_bytes().unwrap(), b"solaris-path");
}

#[test]
fn gnu_x_typeflag_is_not_a_solaris_pax_extension() {
    let extension = fields(header(b'X', HeaderFormat::Gnu, b"GNUHeader")).into_entry();
    assert!(!extension.must_read_pax_extensions());
    assert_eq!(extension.path_bytes().unwrap(), b"GNUHeader");
    assert!(extension.pax_extensions().is_none());
    let file = fields(header(b'0', HeaderFormat::Ustar, b"raw-name")).into_entry();
    assert_eq!(file.path_bytes().unwrap(), b"raw-name");
}

#[test]
fn unknown_nonempty_local_pax_values_are_accepted() {
    let mut file = fields(header(b'0', HeaderFormat::Ustar, b"raw-name"));
    file.pax_extensions = Some(pax_record("VENDOR.unknown", b"opaque"));
    assert_eq!(file.into_entry().path_bytes().unwrap(), b"raw-name");
}

#[test]
fn pax_owner_names_override_entry_metadata() {
    let records = b"18 uname=pax-user\n19 gname=pax-group\n";
    let file = owned(records, header(b'0', HeaderFormat::Ustar, b"file")).into_entry();
    assert_eq!(file.username().unwrap(), Some("pax-user"));
    assert_eq!(file.groupname().unwrap(), Some("pax-group"));
}

#[test]
fn last_pax_owner_metadata_wins() {
    let mut records = pax_record("uid", b"111");
    records.extend(pax_record("uid", b"222"));
    records.extend(pax_record("gid", b"333"));
    records.extend(pax_record("gid", b"444"));
    records.extend(pax_record("uname", b"pax-user-first"));
    records.extend(pax_record("uname", b"pax-user-last"));
    records.extend(pax_record("gname", b"pax-group-first"));
    records.extend(pax_record("gname", b"pax-group-last"));
    assert_eq!(find_value(&records, b"uid").unwrap(), Some(&b"222"[..]));
    assert_eq!(find_value(&records, b"gid").unwrap(), Some(&b"444"[..]));
    let file = owned(&records, header(b'0', HeaderFormat::Ustar, b"file")).into_entry();
    assert_eq!(file.username_bytes(), Some(&b"pax-user-last"[..]));
    assert_eq!(file.groupname_bytes(), Some(&b"pax-group-last"[..]));
}

#[test]
fn pax_long_owner_names_are_exposed_by_entry() {
    let uname = "pax-user-name-longer-than-the-fixed-width-header-slot";
    let gname = "pax-group-name-longer-than-the-fixed-width-header-slot";
    let mut records = pax_record("uname", uname.as_bytes());
    records.extend(pax_record("gname", gname.as_bytes()));
    let file = owned(&records, header(b'0', HeaderFormat::Ustar, b"file")).into_entry();
    assert_eq!(file.username_bytes(), Some(uname.as_bytes()));
    assert_eq!(file.groupname_bytes(), Some(gname.as_bytes()));
    assert_eq!(file.username().unwrap(), Some(uname));
    assert_eq!(file.groupname().unwrap(), Some(gname));
    assert_eq!(file.header().username.as_deref(), Some(&b"raw-user"[..]));
    assert_eq!(file.header().groupname.as_deref(), Some(&b"raw-group"[..]));
}

#[test]
fn pax_non_utf8_owner_names_are_exposed_as_bytes() {
    let uname = b"\xffpax-user";
    let gname = b"\xfepax-group";
    let mut records = pax_record("uname", uname);
    records.extend(pax_record("gname", gname));
    let file = owned(&records, header(b'0', HeaderFormat::Ustar, b"file")).into_entry();
    assert_eq!(file.username_bytes(), Some(&uname[..]));
    assert_eq!(file.groupname_bytes(), Some(&gname[..]));
    assert!(file.username().is_err());
    assert!(file.groupname().is_err());
}

#[test]
fn empty_owner_record_deletes_the_name() {
    let records = pax_record("uname", b"");
    let file = owned(&records, header(b'0', HeaderFormat::Ustar, b"file")).into_entry();
    assert_eq!(file.username_bytes(), None);
    assert_eq!(file.username().unwrap(), None);
    assert_eq!(file.groupname().unwrap(), Some("raw-group"));
}

#[test]
fn pax_simple() {
    let mut records = pax_record("mtime", b"1453146164.953123768");
    records.extend(pax_record("atime", b"1453251915.24892486"));
    records.extend(pax_record("ctime", b"1453146164.953123768"));
    let mut entry = fields(header(b'0', HeaderFormat::Ustar, b"file"));
    entry.pax_extensions = Some(records);
    let entry = entry.into_entry();
    let mut attributes = entry.pax_extensions().unwrap();
    let first = attributes.next().unwrap().unwrap();
    let second = attributes.next().unwrap().unwrap();
    let third = attributes.next().unwrap().unwrap();
    assert!(attributes.next().is_none());
    assert_eq!(first.key(), Ok("mtime"));
    assert_eq!(first.value(), Ok("1453146164.953123768"));
    assert_eq!(second.key(), Ok("atime"));
    assert_eq!(second.value(), Ok("1453251915.24892486"));
    assert_eq!(third.key(), Ok("ctime"));
    assert_eq!(third.value(), Ok("1453146164.953123768"));
}

#[test]
fn empty_global_pax_values_remain_visible() {
    let mut entry = fields(header(b'g', HeaderFormat::Ustar, b"global-pax"));
    assert_eq!(entry.header.entry_type, EntryType::XGlobalHeader);
    assert!(entry.must_read_pax_extensions());
    entry.keep_pax_extensions(pax_record("comment", b""));
    assert!(!entry.must_read_pax_extensions());
    let mut extensions = entry.pax_extensions().unwrap();
    let extension = extensions.next().unwrap().unwrap();
    assert_eq!(extension.key_bytes(), b"comment");
    assert_eq!(extension.value_bytes(), b"");
    assert!(extensions.next().is_none());
}

#[test]
fn unterminated_pax_record_is_rejected() {
    let mut entry = fields(header(b'0', HeaderFormat::Ustar, b"file"));
    entry.pax_extensions = Some(b"12 path=name".to_vec());
    let err = entry.into_entry().path_bytes().unwrap_err().message();
    assert!(err.contains("malformed pax extension"));
}

#[test]
fn unterminated_pax_extensions_iterator_stops_after_error() {
    let mut extensions = pax_extensions(b"12 path=name");
    assert!(extensions.next().unwrap().is_err());
    assert!(extensions.next().is_none());
}

#[test]
fn malformed_records_of_every_kind_are_refused() {
    let cases: [&[u8]; 9] = [
        b"path=name\n",
        b" path=name\n",
        b"x path=name\n",
        b"+13 path=name\n",
        b"99 path=name\n",
        b"12 path=name\n",
        b"10 no sign\n",
        b"3 \n",
        b"99999999999999999999999999 path=name\n",
    ];
    for case in cases {
        assert!(
            matches!(find_value(case, b"path"), Err(EntryError::MalformedPaxExtension)),
            "{:?}",
            case
        );
    }
    assert_eq!(find_value(b"", b"path").unwrap(), None);
    assert_eq!(find_value(b"13 path=name\n", b"path").unwrap(), Some(&b"name"[..]));
    assert_eq!(find_value(b"013 path=nam\n", b"path").unwrap(), Some(&b"nam"[..]));
}

#[test]
fn values_may_hold_signs_and_newlines() {
    let record = pax_record("path", b"a=b\nc");
    assert_eq!(find_value(&record, b"path").unwrap(), Some(&b"a=b\nc"[..]));
    let record = pax_record("SCHILY.xattr.user.a", b"v");
    let list = find_with_prefix(&record, b"SCHILY.xattr.").unwrap();
    assert_eq!(list.len(), 1);
    assert_eq!(list[0].key_bytes(), b"user.a");
    assert_eq!(list[0].value_bytes(), b"v");
    let record = pax_record("k\u{e9}y", b"\xff");
    let ext = pax_extensions(&record).next().unwrap().unwrap();
    assert_eq!(ext.key(), Ok("k\u{e9}y"));
    assert!(ext.value().is_err());
}

#[test]
fn path_for_messages_falls_back_to_the_header() {
    let mut entry = fields(header(b'0', HeaderFormat::Ustar, b"raw\xff"));
    assert_eq!(entry.path_lossy(), "raw\u{fffd}");
    entry.pax_extensions = Some(pax_record("path", b"pax"));
    assert_eq!(entry.path_lossy(), "pax");
    entry.pax_extensions = Some(b"broken".to_vec());
    assert_eq!(entry.path_lossy(), "raw\u{fffd}");
}

#[test]
fn fields_and_entry_are_the_same() {
    let mut entry = fields(header(b'0', HeaderFormat::Ustar, b"file")).into_entry();
    entry.set_unpack_xattrs(true);
    entry.set_preserve_permissions(true);
    entry.set_preserve_mtime(false);
    entry.set_allow_external_symlinks(false);
    let back = EntryFields::from(entry);
    assert!(back.unpack_xattrs && back.preserve_permissions);
    assert!(!back.preserve_mtime && !back.allow_external_symlinks && back.overwrite);
    assert_eq!(back.header.path, b"file");
}

#[test]
fn type_flags() {
    let flags: [(u8, EntryType); 16] = [
        (0, EntryType::Regular),
        (b'0', EntryType::Regular),
        (b'1', EntryType::Link),
        (b'2', EntryType::Symlink),
        (b'3', EntryType::Char),
        (b'4', EntryType::Block),
        (b'5', EntryType::Directory),
        (b'6', EntryType::Fifo),
        (b'7', EntryType::Continuous),
        (b'x', EntryType::XHeader),
        (b'X', EntryType::SolarisXHeader),
        (b'g', EntryType::XGlobalHeader),
        (b'L', EntryType::GNULongName),
        (b'K', EntryType::GNULongLink),
        (b'S', EntryType::GNUSparse),
        (b'Z', EntryType::Other(b'Z')),
    ];
    for (flag, kind) in flags {
        assert_eq!(EntryType::new(flag), kind);
    }
}
