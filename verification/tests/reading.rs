use std::collections::VecDeque;
use tar_entry::entry::{EntryFields, EntryIo};
use tar_entry::header::{EntryType, Header, HeaderFormat};
use tar_entry::read::{read_all_step, ReadOutcome, ReadStep};

fn fields(size: u64, data: Vec<EntryIo>) -> EntryFields {
    EntryFields {
        long_pathname: None,
        long_linkname: None,
        pax_extensions: None,
        pax_username: None,
        pax_groupname: None,
        header: Header {
            entry_type: EntryType::Regular,
            format: HeaderFormat::Gnu,
            path: b"body".to_vec(),
            link_name: None,
            username: None,
            groupname: None,
            mode: None,
            mtime: None,
        },
        size,
        header_pos: 0,
        file_pos: 512,
        data: VecDeque::from(data),
        unpack_xattrs: false,
        preserve_permissions: false,
        preserve_mtime: true,
        overwrite: true,
        allow_external_symlinks: true,
        read_state: None,
    }
}

/// Reads all of an entry whose archive holds `archive`, at most `most` bytes at a time.
fn read_to_end(entry: &mut EntryFields, archive: &[u8], most: usize) -> Result<Vec<u8>, Vec<u8>> {
    let mut rest = archive;
    let mut run = entry.read_all();
    loop {
        let piece = match run.action(entry) {
            ReadStep::Finished => return Ok(run.into_contents()),
            ReadStep::Poll(EntryIo::Pad(limit)) => vec![0; (limit as usize).min(most)],
            ReadStep::Poll(EntryIo::Data(limit)) => {
                let len = (limit as usize).min(most).min(rest.len());
                let piece = rest[..len].to_vec();
                rest = &rest[len..];
                piece
            }
        };
        match run.report(entry, &piece) {
            ReadOutcome::Filled | ReadOutcome::Again => {}
            ReadOutcome::Finished => return Ok(run.into_contents()),
            ReadOutcome::UnexpectedEof => return Err(run.into_contents()),
        }
    }
}

#[test]
fn empty_read_does_not_report_eof_for_nonempty_entry() {
    let mut entry = fields(4, vec![EntryIo::Data(4)]);
    assert_eq!(entry.begin_read(0), ReadStep::Finished);
    assert_eq!(entry.data.len(), 1);
    assert_eq!(read_to_end(&mut entry, b"data", 32).unwrap(), b"data");
}

#[test]
fn truncated_entry_reports_eof_while_reading_body() {
    let mut entry = fields(3, vec![EntryIo::Data(3)]);
    assert_eq!(read_to_end(&mut entry, b"", 32), Err(Vec::new()));
    assert_eq!(entry.read_state, Some(EntryIo::Data(3)));
}

#[test]
fn truncated_later_is_still_an_error() {
    let mut entry = fields(9, vec![EntryIo::Data(4), EntryIo::Pad(2), EntryIo::Data(3)]);
    assert_eq!(read_to_end(&mut entry, b"dataxy", 3), Err(b"data\0\0xy".to_vec()));
}

#[test]
fn unknown_typeflag_entry_payload_is_readable() {
    let mut entry = fields(4, vec![EntryIo::Data(4)]);
    entry.header.entry_type = EntryType::new(b'Z');
    assert_eq!(read_to_end(&mut entry, b"DATAafter", 512).unwrap(), b"DATA");
}

#[test]
fn reading_files() {
    let text = b"a\na\na\na\na\na\na\na\na\na\na\n";
    for most in 1..30 {
        let mut entry = fields(22, vec![EntryIo::Data(22)]);
        assert_eq!(read_to_end(&mut entry, text, most).unwrap(), text);
        assert_eq!(entry.begin_read(10), ReadStep::Finished);
    }
}

/// Reads a file with text at these places and holes between them.
fn read_sparse(len: u64, texts: &[(u64, &str)]) -> Vec<u8> {
    let mut segments = Vec::new();
    let mut archive = Vec::new();
    let mut at = 0;
    for (start, text) in texts {
        segments.push(EntryIo::Pad(start - at));
        segments.push(EntryIo::Data(text.len() as u64));
        archive.extend_from_slice(text.as_bytes());
        at = start + text.len() as u64;
    }
    segments.push(EntryIo::Pad(len - at));
    let s = read_to_end(&mut fields(len, segments), &archive, 1000).unwrap();
    assert_eq!(s.len() as u64, len);
    s
}

#[test]
fn reading_sparse() {
    let s = read_sparse(0x2000, &[(0, "test\n")]);
    assert_eq!(&s[..5], b"test\n");
    assert!(s[5..].iter().all(|x| *x == 0));

    let s = read_sparse(0x2000, &[(0x2000 - 9, "test_end\n")]);
    assert!(s[..s.len() - 9].iter().all(|x| *x == 0));
    assert_eq!(&s[s.len() - 9..], b"test_end\n");

    let texts: Vec<(u64, &str)> =
        (0..6).map(|step: u64| (step * 0x2000 + 0x1000, "text\n")).collect();
    let s = read_sparse(0xb005, &texts);
    assert!(s[..0x1000].iter().all(|x| *x == 0));
    assert_eq!(&s[0x1000..0x1000 + 5], b"text\n");
    assert!(s[0x1000 + 5..0x3000].iter().all(|x| *x == 0));
    assert_eq!(&s[0x3000..0x3000 + 5], b"text\n");
    assert!(s[0x3000 + 5..0x5000].iter().all(|x| *x == 0));
    assert_eq!(&s[0x5000..0x5000 + 5], b"text\n");
    assert!(s[0x5000 + 5..0x7000].iter().all(|x| *x == 0));
    assert_eq!(&s[0x7000..0x7000 + 5], b"text\n");
    assert!(s[0x7000 + 5..0x9000].iter().all(|x| *x == 0));
    assert_eq!(&s[0x9000..0x9000 + 5], b"text\n");
    assert!(s[0x9000 + 5..0xb000].iter().all(|x| *x == 0));
    assert_eq!(&s[0xb000..0xb000 + 5], b"text\n");

    let s = read_sparse(0x4000, &[(0x1000, "hello\n"), (0x2fa0, "world\n")]);
    assert!(s[..0x1000].iter().all(|x| *x == 0));
    assert_eq!(&s[0x1000..0x1000 + 6], b"hello\n");
    assert!(s[0x1000 + 6..0x2fa0].iter().all(|x| *x == 0));
    assert_eq!(&s[0x2fa0..0x2fa0 + 6], b"world\n");
    assert!(s[0x2fa0 + 6..0x4000].iter().all(|x| *x == 0));
}

#[test]
fn an_interrupted_reading_goes_on_with_the_same_buffer() {
    let text = b"0123456789";
    for cut in 0..text.len() {
        let mut out = b"head ".to_vec();
        for piece in text[..cut].chunks(3) {
            assert_eq!(read_all_step(&mut out, piece), None);
        }
        assert_eq!(&out[5..], &text[..cut]);
        for piece in text[cut..].chunks(4) {
            assert_eq!(read_all_step(&mut out, piece), None);
        }
        assert_eq!(read_all_step(&mut out, b""), Some(15));
        assert_eq!(out, b"head 0123456789");
    }
}

#[test]
fn sparse_with_trailing() {
    let segments = vec![
        EntryIo::Data(12),
        EntryIo::Pad(0x100_000 - 12),
        EntryIo::Data(12),
        EntryIo::Data(0),
    ];
    let mut entry = fields(0x100_00c, segments);
    let s = read_to_end(&mut entry, b"0MB through\n1MB through\n", 8192).unwrap();
    assert_eq!(0x100_00c, s.len());
    assert_eq!(&s[..0xc], b"0MB through\n");
    assert!(s[0xc..0x100_000].iter().all(|x| *x == 0));
    assert_eq!(&s[0x100_000..], b"1MB through\n");
}

#[test]
fn empty_segments_are_passed_over() {
    let mut entry = fields(1, vec![EntryIo::Data(0), EntryIo::Pad(0), EntryIo::Data(1)]);
    assert_eq!(read_to_end(&mut entry, b"x", 8).unwrap(), b"x");
    let mut none = fields(0, Vec::new());
    assert_eq!(read_to_end(&mut none, b"", 8).unwrap(), b"");
}

#[test]
fn a_read_goes_on_where_the_last_one_stopped() {
    let mut entry = fields(5, vec![EntryIo::Data(5), EntryIo::Pad(1)]);
    assert_eq!(entry.begin_read(2), ReadStep::Poll(EntryIo::Data(5)));
    assert_eq!(entry.end_read(2), ReadOutcome::Filled);
    assert_eq!(entry.begin_read(9), ReadStep::Poll(EntryIo::Data(3)));
    assert_eq!(entry.end_read(3), ReadOutcome::Filled);
    assert_eq!(entry.begin_read(9), ReadStep::Poll(EntryIo::Data(0)));
    assert_eq!(entry.end_read(0), ReadOutcome::Again);
    assert_eq!(entry.begin_read(9), ReadStep::Poll(EntryIo::Pad(1)));
    assert_eq!(entry.end_read(1), ReadOutcome::Filled);
    assert_eq!(entry.begin_read(9), ReadStep::Poll(EntryIo::Pad(0)));
    assert_eq!(entry.end_read(0), ReadOutcome::Finished);
    assert_eq!(EntryIo::Pad(7).limit() + EntryIo::Data(5).limit(), 12);
}

#[test]
fn what_is_set_aside_is_bounded() {
    assert_eq!(fields(0, Vec::new()).preallocation(), 0);
    assert_eq!(fields(131_071, Vec::new()).preallocation(), 131_071);
    assert_eq!(fields(131_072, Vec::new()).preallocation(), 131_072);
    assert_eq!(fields(u64::MAX, Vec::new()).preallocation(), 131_072);
}

#[test]
fn pieces_are_put_together() {
    let mut out = b"x".to_vec();
    assert_eq!(read_all_step(&mut out, b"ab"), None);
    assert_eq!(read_all_step(&mut out, b"c"), None);
    assert_eq!(read_all_step(&mut out, b""), Some(4));
    assert_eq!(out, b"xabc");
}
