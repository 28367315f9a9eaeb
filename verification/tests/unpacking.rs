use rustc_hash::FxHashSet;
use std::collections::{BTreeMap, VecDeque};
use tar_entry::entry::{EntryFields, EntryIo, Unpacked};
use tar_entry::error::{Cause, Context, EntryError, ErrorKind, Failure};
use tar_entry::header::{EntryType, Header, HeaderFormat};
use tar_entry::platform::{is_read_only, symlink_timestamp};
use tar_entry::unpack::{seek_offset, UnpackOp};
use tar_entry::unpacking::{Action, Event};

fn fields(flag: u8, path: &str) -> EntryFields {
    EntryFields {
        long_pathname: None,
        long_linkname: None,
        pax_extensions: None,
        pax_username: None,
        pax_groupname: None,
        header: Header {
            entry_type: EntryType::new(flag),
            format: HeaderFormat::Gnu,
            path: path.as_bytes().to_vec(),
            link_name: None,
            username: None,
            groupname: None,
            mode: None,
            mtime: None,
        },
        size: 0,
        header_pos: 0,
        file_pos: 512,
        data: VecDeque::new(),
        unpack_xattrs: false,
        preserve_permissions: false,
        preserve_mtime: true,
        overwrite: true,
        allow_external_symlinks: true,
        read_state: None,
    }
}

fn file(path: &str, body: &str) -> EntryFields {
    let mut entry = fields(b'0', path);
    entry.size = body.len() as u64;
    entry.data = VecDeque::from(vec![EntryIo::Data(body.len() as u64)]);
    entry
}

fn link(flag: u8, path: &str, target: &str) -> EntryFields {
    let mut entry = fields(flag, path);
    entry.header.link_name = Some(target.as_bytes().to_vec());
    entry
}

fn text(bytes: &[u8]) -> String {
    String::from_utf8_lossy(bytes).to_string()
}

#[derive(Debug, Clone, PartialEq)]
enum Node {
    Dir,
    File(Vec<u8>),
    Link(String),
}

/// A small file system with absolute paths.
#[derive(Debug, Default)]
struct Disk {
    nodes: BTreeMap<String, Node>,
    times: BTreeMap<String, u64>,
    modes: BTreeMap<String, u32>,
    xattrs: BTreeMap<(String, String), Vec<u8>>,
    log: Vec<String>,
    linked: Vec<(String, String)>,
    open: Option<(String, usize)>,
}

impl Disk {
    fn new(dirs: &[&str]) -> Disk {
        let mut disk = Disk::default();
        disk.nodes.insert("/".to_string(), Node::Dir);
        for dir in dirs {
            disk.nodes.insert(dir.to_string(), Node::Dir);
        }
        disk
    }

    /// The path with all links followed.
    fn resolve(&self, path: &str) -> Option<String> {
        let mut todo: VecDeque<String> = path.split('/').map(|s| s.to_string()).collect();
        let mut at = String::new();
        let mut steps = 0;
        while let Some(name) = todo.pop_front() {
            steps += 1;
            if steps > 100 {
                return None;
            }
            if name.is_empty() || name == "." {
                continue;
            }
            if name == ".." {
                let cut = at.rfind('/').unwrap_or(0);
                at.truncate(cut);
                continue;
            }
            let next = format!("{at}/{name}");
            match self.nodes.get(&next) {
                None => return None,
                Some(Node::Link(target)) => {
                    if target.starts_with('/') {
                        at = String::new();
                    }
                    for part in target.split('/').rev() {
                        todo.push_front(part.to_string());
                    }
                }
                Some(_) => at = next,
            }
        }
        Some(if at.is_empty() { "/".to_string() } else { at })
    }

    /// The path with the links of its directory followed.
    fn place(&self, path: &[u8]) -> Option<String> {
        let path = text(path);
        if path == "/" {
            return Some(path);
        }
        let cut = path.rfind('/')?;
        let dir = self.resolve(&path[..cut])?;
        if !matches!(self.nodes.get(&dir), Some(Node::Dir)) {
            return None;
        }
        let name = &path[cut + 1..];
        Some(if dir == "/" { format!("/{name}") } else { format!("{dir}/{name}") })
    }

    fn make(&mut self, path: &[u8], node: Node) -> Event {
        match self.place(path) {
            None => Event::Failed(ErrorKind::NotFound),
            Some(place) if self.nodes.contains_key(&place) => {
                Event::Failed(ErrorKind::AlreadyExists)
            }
            Some(place) => {
                self.nodes.insert(place, node);
                Event::Done
            }
        }
    }

    fn act(&mut self, action: &Action, archive: &mut &[u8]) -> Event {
        match action {
            Action::Probe(path) => {
                let there = self.place(path).is_some_and(|p| self.nodes.contains_key(&p));
                Event::Exists(there)
            }
            Action::ProbeDir(path) => {
                let node = self.place(path).and_then(|p| self.nodes.get(&p).cloned());
                Event::IsDir(node == Some(Node::Dir))
            }
            Action::Canonicalize(path) => match self.resolve(&text(path)) {
                Some(real) => Event::Resolved(real.into_bytes()),
                None => Event::Failed(ErrorKind::NotFound),
            },
            Action::CreateDir(path) => self.make(path, Node::Dir),
            Action::CreateDirAll(path) => {
                self.log.push(format!("mkdir {}", text(path)));
                self.make(path, Node::Dir)
            }
            Action::HardLink(source, path) => {
                let node = self.place(source).and_then(|p| self.nodes.get(&p).cloned());
                match node {
                    None => Event::Failed(ErrorKind::NotFound),
                    Some(node) => {
                        let event = self.make(path, node);
                        if matches!(event, Event::Done) {
                            let pair = (self.place(source).unwrap(), self.place(path).unwrap());
                            self.linked.push(pair);
                        }
                        event
                    }
                }
            }
            Action::SameFile(source, path) => {
                let pair = (self.place(source).unwrap(), self.place(path).unwrap());
                Event::SameFile(pair.0 == pair.1 || self.linked.contains(&pair))
            }
            Action::Symlink(target, path) => self.make(path, Node::Link(text(target))),
            Action::RemoveFile(path) => {
                self.log.push(format!("remove {}", text(path)));
                let place = self.place(path);
                self.linked.retain(|pair| Some(&pair.1) != place.as_ref());
                match place.and_then(|p| self.nodes.remove(&p)) {
                    Some(_) => Event::Done,
                    None => Event::Failed(ErrorKind::NotFound),
                }
            }
            Action::CreateFile(path) => {
                let place = self.place(path);
                let event = self.make(path, Node::File(Vec::new()));
                if matches!(event, Event::Done) {
                    self.open = place.map(|p| (p, 0));
                }
                event
            }
            Action::Copy(len) => {
                let len = (*len as usize).min(archive.len());
                let (place, at) = self.open.clone().unwrap();
                if let Some(Node::File(body)) = self.nodes.get_mut(&place) {
                    body.resize(at, 0);
                    body.extend_from_slice(&archive[..len]);
                }
                *archive = &archive[len..];
                self.open = Some((place, at + len));
                Event::Copied(len as u64)
            }
            Action::Skip(offset) => {
                let (place, at) = self.open.clone().unwrap();
                let at = at + *offset as usize;
                if let Some(Node::File(body)) = self.nodes.get_mut(&place) {
                    body.resize(at, 0);
                }
                self.open = Some((place, at));
                Event::Done
            }
            Action::Flush => Event::Done,
            Action::SetFileTimes(time) => {
                self.times.insert(self.open.clone().unwrap().0, *time);
                Event::Done
            }
            Action::SetLinkTimes(time, path) => {
                self.times.insert(self.place(path).unwrap(), *time);
                Event::Done
            }
            Action::SetPermissions(mode, path) => {
                self.modes.insert(self.place(path).unwrap(), *mode);
                Event::Done
            }
            Action::SetXattr(path, key, value) => {
                let place = self.place(path).unwrap();
                self.xattrs.insert((place, text(key)), value.clone());
                Event::Done
            }
            Action::Finish(_) | Action::Fail => unreachable!(),
        }
    }

    /// Unpacks an entry to a path, wherever that is.
    fn unpack(
        &mut self,
        entry: &mut EntryFields,
        dst: &str,
        body: &str,
    ) -> Result<Unpacked, Failure> {
        let mut archive = body.as_bytes();
        let mut run = entry.unpack(None, dst.as_bytes());
        loop {
            match run.action() {
                Action::Finish(what) => return Ok(what),
                Action::Fail => return Err(run.into_failure().unwrap()),
                action => {
                    let event = self.act(&action, &mut archive);
                    run.report(event, entry);
                }
            }
        }
    }

    /// Unpacks an entry below a directory.
    fn unpack_in(
        &mut self,
        entry: &mut EntryFields,
        dst: &str,
        memo: &mut FxHashSet<Vec<u8>>,
        body: &str,
    ) -> Result<Option<String>, Failure> {
        let mut archive = body.as_bytes();
        let mut run = match entry.unpack_in(dst.as_bytes(), memo)? {
            None => return Ok(None),
            Some(run) => run,
        };
        loop {
            match run.action() {
                Action::Finish(_) => return Ok(Some(text(run.destination()))),
                Action::Fail => return Err(run.into_failure().unwrap()),
                action => {
                    if let Action::Canonicalize(path) = &action {
                        self.log.push(format!("resolve {}", text(path)));
                    }
                    let event = self.act(&action, &mut archive);
                    run.report(event, entry, memo);
                }
            }
        }
    }

    fn body(&self, path: &str) -> Option<String> {
        match self.nodes.get(path) {
            Some(Node::File(body)) => Some(text(body)),
            _ => None,
        }
    }
}

/// The messages of a failure, the innermost first, if the system reported `system`.
fn messages(failure: &Failure, system: &str) -> Vec<String> {
    let mut list = vec![match &failure.cause {
        Cause::Entry(e) => e.message(),
        Cause::System => system.to_string(),
    }];
    for context in [&failure.inner, &failure.outer].into_iter().flatten() {
        list.push(context.describe(list.last().unwrap()));
    }
    list
}

#[test]
fn extracting_malicious_tarball() {
    let mut disk = Disk::new(&["/td", "/tmp"]);
    let mut memo = FxHashSet::default();
    let paths = [
        "/tmp/abs_evil.txt",
        "//tmp/abs_evil2.txt",
        "///tmp/abs_evil3.txt",
        "/./tmp/abs_evil4.txt",
        "//./tmp/abs_evil5.txt",
        "///./tmp/abs_evil6.txt",
        "/../tmp/rel_evil.txt",
        "../rel_evil2.txt",
        "./../rel_evil3.txt",
        "some/../../rel_evil4.txt",
        "",
        "././//./..",
        "..",
        "/////////..",
        "/////////",
    ];
    for path in paths {
        disk.unpack_in(&mut file(path, "\u{1}"), "/td", &mut memo, "\u{1}").unwrap();
    }
    let mut found: Vec<&String> = disk.nodes.keys().collect();
    found.sort();
    assert_eq!(
        found,
        [
            "/",
            "/td",
            "/td/tmp",
            "/td/tmp/abs_evil.txt",
            "/td/tmp/abs_evil2.txt",
            "/td/tmp/abs_evil3.txt",
            "/td/tmp/abs_evil4.txt",
            "/td/tmp/abs_evil5.txt",
            "/td/tmp/abs_evil6.txt",
            "/tmp",
        ]
    );
    assert_eq!(disk.nodes["/td/tmp"], Node::Dir);
    for i in ["", "2", "3", "4", "5", "6"] {
        assert_eq!(disk.body(&format!("/td/tmp/abs_evil{i}.txt")).unwrap(), "\u{1}");
    }
}

#[test]
fn extracting_directories() {
    let mut disk = Disk::new(&["/td"]);
    let mut memo = FxHashSet::default();
    disk.unpack_in(&mut fields(b'5', "a/"), "/td", &mut memo, "").unwrap();
    disk.unpack_in(&mut fields(b'5', "a/b/"), "/td", &mut memo, "").unwrap();
    disk.unpack_in(&mut file("a/c", "x"), "/td", &mut memo, "x").unwrap();
    assert_eq!(disk.nodes["/td/a"], Node::Dir);
    assert_eq!(disk.nodes["/td/a/b"], Node::Dir);
    assert!(disk.body("/td/a/c").is_some());
}

#[test]
fn extracting_duplicate_dirs() {
    let mut disk = Disk::new(&["/td"]);
    let mut memo = FxHashSet::default();
    for _ in 0..3 {
        disk.unpack_in(&mut fields(b'5', "some_dir/"), "/td", &mut memo, "").unwrap();
    }
    assert_eq!(disk.nodes["/td/some_dir"], Node::Dir);
}

#[test]
fn file_in_place_of_a_directory_is_an_error() {
    let mut disk = Disk::new(&["/td"]);
    disk.nodes.insert("/td/d".to_string(), Node::File(Vec::new()));
    let failure = disk.unpack(&mut fields(b'5', "d"), "/td/d", "").unwrap_err();
    assert!(matches!(failure.cause, Cause::System));
    assert_eq!(
        messages(&failure, "File exists"),
        ["File exists", "File exists when creating dir /td/d"]
    );
    let mut linked = Disk::new(&["/td", "/other"]);
    linked.nodes.insert("/td/d".to_string(), Node::Link("/other".to_string()));
    assert!(linked.unpack(&mut fields(b'5', "d"), "/td/d", "").is_err());
}

#[test]
fn extracting_duplicate_file_fail() {
    let mut disk = Disk::new(&["/td"]);
    disk.nodes.insert("/td/a".to_string(), Node::File(Vec::new()));
    let mut entry = file("a", "new");
    entry.overwrite = false;
    let failure =
        disk.unpack_in(&mut entry, "/td", &mut FxHashSet::default(), "new").unwrap_err();
    assert!(matches!(failure.cause, Cause::System));
    assert_eq!(
        messages(&failure, "File exists"),
        ["File exists", "failed to unpack `a` into `/td/a`", "failed to unpack `/td/a`"]
    );
    assert_eq!(disk.body("/td/a").unwrap(), "");
    assert!(!disk.log.iter().any(|line| line.starts_with("remove")));
    assert_eq!(entry.data.len(), 1);
}

#[test]
fn extracting_duplicate_file_succeed() {
    let mut disk = Disk::new(&["/td"]);
    disk.nodes.insert("/td/a".to_string(), Node::File(b"older and longer".to_vec()));
    let mut entry = file("a", "new");
    disk.unpack_in(&mut entry, "/td", &mut FxHashSet::default(), "new").unwrap();
    assert_eq!(disk.body("/td/a").unwrap(), "new");
    assert!(disk.log.contains(&"remove /td/a".to_string()));
    assert_eq!(entry.data.len(), 0);
}

#[test]
fn extracting_duplicate_link_fail() {
    let mut disk = Disk::new(&["/td"]);
    disk.nodes.insert("/td/lnk".to_string(), Node::Link("old".to_string()));
    let mut entry = link(b'2', "lnk", "file");
    entry.overwrite = false;
    let failure = disk.unpack_in(&mut entry, "/td", &mut FxHashSet::default(), "").unwrap_err();
    assert_eq!(
        messages(&failure, "File exists"),
        ["File exists", "failed to unpack `/td/lnk`"]
    );
    assert_eq!(disk.nodes["/td/lnk"], Node::Link("old".to_string()));
}

#[test]
fn extracting_duplicate_link_succeed() {
    let mut disk = Disk::new(&["/td"]);
    disk.nodes.insert("/td/lnk".to_string(), Node::Link("old".to_string()));
    let mut entry = link(b'2', "lnk", "file");
    disk.unpack_in(&mut entry, "/td", &mut FxHashSet::default(), "").unwrap();
    assert_eq!(disk.nodes["/td/lnk"], Node::Link("file".to_string()));
}

#[test]
fn unpack_links() {
    let mut disk = Disk::new(&["/td"]);
    let mut memo = FxHashSet::default();
    let mut entry = link(b'2', "lnk", "file");
    entry.header.mtime = Some(1448291033);
    disk.unpack_in(&mut entry, "/td", &mut memo, "").unwrap();
    disk.unpack_in(&mut file("file", ""), "/td", &mut memo, "").unwrap();
    assert_eq!(disk.nodes["/td/lnk"], Node::Link("file".to_string()));
    assert_eq!(disk.times["/td/lnk"], 1448291033);
    assert_eq!(disk.resolve("/td/lnk").unwrap(), "/td/file");
}

#[test]
fn file_times() {
    let mut disk = Disk::new(&["/td"]);
    let mut entry = file("a", "");
    entry.header.mtime = Some(1_000_000_000);
    disk.unpack_in(&mut entry, "/td", &mut FxHashSet::default(), "").unwrap();
    assert_eq!(disk.times["/td/a"], 1_000_000_000);

    let mut zero = file("zero", "");
    zero.header.mtime = Some(0);
    disk.unpack(&mut zero, "/td/zero", "").unwrap();
    assert_eq!(disk.times["/td/zero"], 1);

    let mut plain = file("plain", "");
    plain.header.mtime = Some(5);
    plain.preserve_mtime = false;
    disk.unpack(&mut plain, "/td/plain", "").unwrap();
    assert!(!disk.times.contains_key("/td/plain"));
}

#[test]
fn permissions_are_set_on_request() {
    let mut disk = Disk::new(&["/td"]);
    for (flag, path) in [(b'0', "/td/f"), (b'5', "/td/d")] {
        let mut entry = fields(flag, &path[4..]);
        entry.header.mode = Some(0o640);
        disk.unpack(&mut entry, path, "").unwrap();
        assert!(!disk.modes.contains_key(path));
        entry.preserve_permissions = true;
        disk.unpack(&mut entry, path, "").unwrap();
        assert_eq!(disk.modes[path], 0o640);
    }
    let mut entry = link(b'2', "l", "f");
    entry.header.mode = Some(0o777);
    entry.preserve_permissions = true;
    disk.unpack(&mut entry, "/td/l", "").unwrap();
    assert!(!disk.modes.contains_key("/td/l"));
}

fn entry_with_xattrs() -> EntryFields {
    let mut entry = file("a/b", "");
    entry.pax_extensions =
        Some(b"36 SCHILY.xattr.user.pax.flags=epm\n12 mtime=12\n".to_vec());
    entry
}

#[test]
fn xattrs() {
    let mut disk = Disk::new(&["/td"]);
    let mut entry = entry_with_xattrs();
    entry.unpack_xattrs = true;
    let err = disk.unpack_in(&mut entry, "/td", &mut FxHashSet::default(), "");
    assert!(matches!(
        err.unwrap_err().cause,
        Cause::Entry(EntryError::MalformedPaxExtension)
    ));

    entry = entry_with_xattrs();
    entry.pax_extensions =
        Some(b"35 SCHILY.xattr.user.pax.flags=epm\n12 mtime=12\n".to_vec());
    entry.unpack_xattrs = true;
    disk.unpack_in(&mut entry, "/td", &mut FxHashSet::default(), "").unwrap();
    let key = ("/td/a/b".to_string(), "user.pax.flags".to_string());
    assert_eq!(disk.xattrs[&key], b"epm");
    assert_eq!(disk.xattrs.len(), 1);
}

#[test]
fn no_xattrs() {
    let mut disk = Disk::new(&["/td"]);
    let mut entry = entry_with_xattrs();
    entry.header.format = HeaderFormat::Ustar;
    entry.long_pathname = Some(b"a/b".to_vec());
    disk.unpack_in(&mut entry, "/td", &mut FxHashSet::default(), "").unwrap();
    assert!(disk.xattrs.is_empty());
}

#[test]
fn unpack_old_style_bsd_dir() {
    let mut disk = Disk::new(&["/td"]);
    let mut entry = fields(b'0', "testdir/");
    entry.header.format = HeaderFormat::Old;
    disk.unpack_in(&mut entry, "/td", &mut FxHashSet::default(), "").unwrap();
    assert_eq!(disk.nodes["/td/testdir"], Node::Dir);

    let mut entry = fields(b'0', "testfile/");
    entry.header.format = HeaderFormat::Ustar;
    disk.unpack_in(&mut entry, "/td", &mut FxHashSet::default(), "").unwrap();
    assert_eq!(disk.nodes["/td/testfile"], Node::File(Vec::new()));
}

#[test]
fn name_with_slash_doesnt_fool_long_link_and_bsd_compat() {
    let mut disk = Disk::new(&["/td"]);
    let mut entry = fields(b'0', "testdir/");
    entry.long_pathname = Some(b"foo\0".to_vec());
    disk.unpack_in(&mut entry, "/td", &mut FxHashSet::default(), "").unwrap();
    assert_eq!(disk.nodes["/td/foo"], Node::File(Vec::new()));
    assert!(!disk.nodes.contains_key("/td/testdir"));
}

#[test]
fn handling_incorrect_file_size() {
    let mut disk = Disk::new(&["/td"]);
    let mut entry = file("somepath", "");
    entry.header.format = HeaderFormat::Old;
    entry.size = 2048;
    entry.data = VecDeque::from(vec![EntryIo::Data(2048)]);
    let failure = disk
        .unpack_in(&mut entry, "/td", &mut FxHashSet::default(), &"\0".repeat(1024))
        .unwrap_err();
    assert_eq!(
        messages(&failure, ""),
        [
            "failed to write entire file",
            "failed to unpack `somepath` into `/td/somepath`",
            "failed to unpack `/td/somepath`",
        ]
    );
}

/// The segments of a file with text at these places.
fn sparse(len: u64, texts: &[(u64, &str)]) -> (VecDeque<EntryIo>, String) {
    let mut segments = VecDeque::new();
    let mut archive = String::new();
    let mut at = 0;
    for (start, text) in texts {
        if *start > at {
            segments.push_back(EntryIo::Pad(start - at));
        }
        segments.push_back(EntryIo::Data(text.len() as u64));
        archive.push_str(text);
        at = start + text.len() as u64;
    }
    if len > at {
        segments.push_back(EntryIo::Pad(len - at));
    }
    (segments, archive)
}

#[test]
fn extract_sparse() {
    let mut disk = Disk::new(&["/td"]);
    let mut memo = FxHashSet::default();
    let every = |step: u64| step * 0x2000 + 0x1000;
    let ext: Vec<(u64, &str)> = (0..6).map(|step| (every(step), "text\n")).collect();
    let files: [(&str, u64, Vec<(u64, &str)>); 4] = [
        ("sparse_begin.txt", 0x2000, vec![(0, "test\n")]),
        ("sparse_end.txt", 0x2000, vec![(0x2000 - 9, "test_end\n")]),
        ("sparse_ext.txt", 0xb005, ext),
        ("sparse.txt", 0x4000, vec![(0x1000, "hello\n"), (0x2fa0, "world\n")]),
    ];
    for (name, len, texts) in &files {
        let (segments, archive) = sparse(*len, texts);
        let mut entry = fields(b'S', name);
        entry.size = *len;
        entry.data = segments;
        disk.unpack_in(&mut entry, "/td", &mut memo, &archive).unwrap();
        assert_eq!(disk.body(&format!("/td/{name}")).unwrap().len() as u64, *len);
    }

    let s = disk.body("/td/sparse_begin.txt").unwrap();
    assert_eq!(&s[..5], "test\n");
    assert!(s[5..].chars().all(|x| x == '\u{0}'));

    let s = disk.body("/td/sparse_end.txt").unwrap();
    assert!(s[..s.len() - 9].chars().all(|x| x == '\u{0}'));
    assert_eq!(&s[s.len() - 9..], "test_end\n");

    let s = disk.body("/td/sparse_ext.txt").unwrap();
    assert!(s[..0x1000].chars().all(|x| x == '\u{0}'));
    assert_eq!(&s[0x1000..0x1000 + 5], "text\n");
    assert!(s[0x1000 + 5..0x3000].chars().all(|x| x == '\u{0}'));
    assert_eq!(&s[0x3000..0x3000 + 5], "text\n");
    assert!(s[0x3000 + 5..0x5000].chars().all(|x| x == '\u{0}'));
    assert_eq!(&s[0x5000..0x5000 + 5], "text\n");
    assert!(s[0x5000 + 5..0x7000].chars().all(|x| x == '\u{0}'));
    assert_eq!(&s[0x7000..0x7000 + 5], "text\n");
    assert!(s[0x7000 + 5..0x9000].chars().all(|x| x == '\u{0}'));
    assert_eq!(&s[0x9000..0x9000 + 5], "text\n");
    assert!(s[0x9000 + 5..0xb000].chars().all(|x| x == '\u{0}'));
    assert_eq!(&s[0xb000..0xb000 + 5], "text\n");

    let s = disk.body("/td/sparse.txt").unwrap();
    assert!(s[..0x1000].chars().all(|x| x == '\u{0}'));
    assert_eq!(&s[0x1000..0x1000 + 6], "hello\n");
    assert!(s[0x1000 + 6..0x2fa0].chars().all(|x| x == '\u{0}'));
    assert_eq!(&s[0x2fa0..0x2fa0 + 6], "world\n");
    assert!(s[0x2fa0 + 6..0x4000].chars().all(|x| x == '\u{0}'));
}

#[test]
fn holes_move_by_a_signed_number() {
    assert_eq!(seek_offset(0), Some(0));
    assert_eq!(seek_offset(0x7fff_ffff_ffff_ffff), Some(i64::MAX));
    assert_eq!(seek_offset(0x8000_0000_0000_0000), None);
    assert_eq!(seek_offset(u64::MAX), None);

    let mut disk = Disk::new(&["/td"]);
    let mut entry = file("f", "x");
    entry.data.push_back(EntryIo::Pad(0x8000_0000_0000_0000));
    let failure = disk.unpack(&mut entry, "/td/f", "x").unwrap_err();
    assert_eq!(messages(&failure, ""), ["hole exceeds file offset limits"]);
    assert!(!disk.nodes.contains_key("/td/f"));
    assert_eq!(entry.data.len(), 2);
    assert_eq!(EntryError::HoleTooLong.kind(), ErrorKind::InvalidData);
}

#[test]
fn unknown_types_are_files_and_extensions_are_nothing() {
    for flag in [b'Z', b'7', b'3'] {
        let mut disk = Disk::new(&["/td"]);
        let mut entry = file("x", "DATA");
        entry.header.entry_type = EntryType::new(flag);
        assert_eq!(disk.unpack(&mut entry, "/td/x", "DATA").unwrap(), Unpacked::File);
        assert_eq!(disk.body("/td/x").unwrap(), "DATA");
    }
    for flag in [b'x', b'g', b'L', b'K'] {
        let mut disk = Disk::new(&["/td"]);
        let mut entry = file("x", "DATA");
        entry.header.entry_type = EntryType::new(flag);
        assert_eq!(disk.unpack(&mut entry, "/td/x", "DATA").unwrap(), Unpacked::Other);
        assert!(!disk.nodes.contains_key("/td/x"));
        assert_eq!(entry.data.len(), 1);
    }
}

#[test]
fn symlinks_are_kept_inside() {
    let cases: [(&str, Result<&str, &str>); 8] = [
        ("file", Ok("file")),
        ("./x/../file", Ok("file")),
        ("../file", Ok("../file")),
        (
            "/etc/passwd",
            Err("symlink path `/etc/passwd` is absolute, but external symlinks are not allowed"),
        ),
        ("", Err("symlink destination for  is empty")),
        (
            "../../file",
            Err("symlink destination for ../../file is outside of the target directory"),
        ),
        ("../../../file", Err("symlink destination for ../../../file lacks a parent path")),
        ("../../td/file", Ok("../../td/file")),
    ];
    for (target, want) in cases {
        let mut disk = Disk::new(&["/td"]);
        let mut entry = link(b'2', "d/lnk", target);
        entry.allow_external_symlinks = false;
        let result = disk.unpack_in(&mut entry, "/td", &mut FxHashSet::default(), "");
        match want {
            Ok(target) => {
                assert_eq!(result.unwrap().unwrap(), "/td/d/lnk");
                assert_eq!(disk.nodes["/td/d/lnk"], Node::Link(target.to_string()));
            }
            Err(message) => {
                let failure = result.unwrap_err();
                assert_eq!(
                    messages(&failure, ""),
                    [message, "failed to unpack `/td/d/lnk`"]
                );
                assert!(!disk.nodes.contains_key("/td/d/lnk"));
            }
        }
    }
    for target in ["/etc/passwd", "../../../file", "a/../b"] {
        let mut disk = Disk::new(&["/td"]);
        let mut entry = link(b'2', "lnk", target);
        disk.unpack_in(&mut entry, "/td", &mut FxHashSet::default(), "").unwrap();
        assert_eq!(disk.nodes["/td/lnk"], Node::Link(target.to_string()));
    }
}

#[test]
fn links_without_a_base_are_refused_where_they_have_to_stay_inside() {
    let mut disk = Disk::new(&["/td"]);
    let mut entry = link(b'2', "lnk", "file");
    entry.allow_external_symlinks = false;
    let failure = disk.unpack(&mut entry, "/td/lnk", "").unwrap_err();
    assert!(matches!(failure.cause, Cause::Entry(EntryError::LinkOutside(_))));
    assert_eq!(disk.nodes.len(), 2);
    let mut bare = fields(b'1', "lnk");
    let failure = disk.unpack(&mut bare, "/td/lnk", "").unwrap_err();
    assert_eq!(messages(&failure, ""), ["hard link listed but no link name found"]);
}

#[test]
fn link_targets_above_the_root_are_not_paths() {
    let mut entry = link(b'2', "lnk", "/../x");
    entry.allow_external_symlinks = false;
    let ops = entry.plan_unpack(Some(b"/td"), b"/td/lnk");
    assert!(matches!(ops[0], UnpackOp::Refuse(EntryError::AbsoluteLink(_))));
    let message = EntryError::InvalidLink(b"/../x".to_vec()).message();
    assert_eq!(message, "symlink destination for /../x is not a valid path");
}

#[test]
fn hard_links_are_checked_below_a_base() {
    let mut disk = Disk::new(&["/td", "/out"]);
    disk.nodes.insert("/out/secret".to_string(), Node::File(b"s".to_vec()));
    disk.nodes.insert("/td/link".to_string(), Node::Link("/out".to_string()));
    disk.nodes.insert("/td/inner".to_string(), Node::File(b"i".to_vec()));
    let mut entry = link(b'1', "new", "link/secret");
    let failure = disk.unpack_in(&mut entry, "/td", &mut FxHashSet::default(), "").unwrap_err();
    assert_eq!(
        messages(&failure, ""),
        [
            "Invalid argument",
            "trying to unpack outside of destination path: /td",
            "failed to unpack `/td/new`",
        ]
    );
    assert!(!disk.nodes.contains_key("/td/new"));

    let mut entry = link(b'1', "new", "nowhere");
    let failure = disk.unpack_in(&mut entry, "/td", &mut FxHashSet::default(), "").unwrap_err();
    assert_eq!(
        messages(&failure, "No such file"),
        [
            "No such file",
            "No such file while canonicalizing /td/nowhere",
            "failed to unpack `/td/new`",
        ]
    );

    let mut entry = link(b'1', "new", "inner");
    disk.unpack_in(&mut entry, "/td", &mut FxHashSet::default(), "").unwrap();
    assert_eq!(disk.body("/td/new").unwrap(), "i");

    disk.linked.clear();
    disk.nodes.insert("/td/new".to_string(), Node::File(b"older".to_vec()));
    let mut entry = link(b'1', "new", "inner");
    entry.overwrite = false;
    let failure = disk.unpack_in(&mut entry, "/td", &mut FxHashSet::default(), "").unwrap_err();
    assert_eq!(
        messages(&failure, "File exists")[1],
        "File exists when hard linking /td/inner to /td/new"
    );
    assert_eq!(disk.body("/td/new").unwrap(), "older");

    let mut entry = link(b'1', "new", "inner");
    disk.unpack_in(&mut entry, "/td", &mut FxHashSet::default(), "").unwrap();
    assert_eq!(disk.body("/td/new").unwrap(), "i");
    assert!(disk.log.contains(&"remove /td/new".to_string()));

    let mut entry = link(b'1', "new", "/out/secret");
    entry.allow_external_symlinks = false;
    let failure = disk.unpack(&mut entry, "/td/new2", "").unwrap_err();
    assert!(matches!(failure.cause, Cause::Entry(EntryError::AbsoluteLink(_))));
}

#[test]
fn hard_link_overwrites_what_is_there() {
    let mut disk = Disk::new(&["/td"]);
    disk.nodes.insert("/td/src".to_string(), Node::File(b"source".to_vec()));
    disk.nodes.insert("/td/dst".to_string(), Node::File(b"different".to_vec()));
    let mut entry = link(b'1', "dst", "/td/src");
    assert_eq!(disk.unpack(&mut entry, "/td/dst", "").unwrap(), Unpacked::Other);
    assert_eq!(disk.body("/td/dst").unwrap(), "source");
    assert_eq!(disk.body("/td/src").unwrap(), "source");

    disk.nodes.insert("/td/dst".to_string(), Node::File(b"different".to_vec()));
    let mut entry = link(b'1', "dst", "/td/src");
    entry.overwrite = false;
    let failure = disk.unpack(&mut entry, "/td/dst", "").unwrap_err();
    assert_eq!(
        messages(&failure, "File exists"),
        ["File exists", "File exists when hard linking /td/src to /td/dst"]
    );
    assert_eq!(disk.body("/td/dst").unwrap(), "different");
}

#[test]
fn hard_link_overwrites_whatever_the_names_look_like() {
    let mut disk = Disk::new(&["/td", "/elsewhere", "/elsewhere/x"]);
    disk.nodes.insert("/src".to_string(), Node::File(b"source".to_vec()));
    disk.nodes.insert("/dst".to_string(), Node::File(b"different".to_vec()));
    disk.unpack(&mut link(b'1', "dst", "/../src"), "/dst", "").unwrap();
    assert_eq!(disk.body("/dst").unwrap(), "source");

    disk.nodes.insert("/td/x".to_string(), Node::Link("/elsewhere/x".to_string()));
    disk.nodes.insert("/elsewhere/src".to_string(), Node::File(b"far".to_vec()));
    disk.nodes.insert("/td/src".to_string(), Node::File(b"different".to_vec()));
    disk.unpack(&mut link(b'1', "src", "/td/x/../src"), "/td/src", "").unwrap();
    assert_eq!(disk.body("/td/src").unwrap(), "far");
}

#[test]
fn hard_link_to_itself_loses_nothing() {
    for name in ["/td/f", "/td//./f", "/td/x/../f", "/td/../td/f", "/../td/f"] {
        let mut disk = Disk::new(&["/td", "/td/x"]);
        disk.nodes.insert("/td/f".to_string(), Node::File(b"kept".to_vec()));
        disk.unpack(&mut link(b'1', "f", name), "/td/f", "").unwrap();
        assert_eq!(disk.body("/td/f").unwrap(), "kept");
        assert!(disk.log.is_empty());
    }
}

#[test]
fn hard_link_through_a_linked_directory_loses_nothing() {
    let mut disk = Disk::new(&["/d", "/d/r"]);
    disk.nodes.insert("/d/r/f".to_string(), Node::File(b"kept".to_vec()));
    let mut memo = FxHashSet::default();
    disk.unpack_in(&mut link(b'2', "a", "r"), "/d", &mut memo, "").unwrap();
    let mut entry = link(b'1', "a/f", "r/f");
    assert_eq!(disk.unpack_in(&mut entry, "/d", &mut memo, "").unwrap().unwrap(), "/d/a/f");
    assert_eq!(disk.body("/d/r/f").unwrap(), "kept");
    assert!(disk.log.iter().all(|line| !line.starts_with("remove")));

    disk.nodes.insert("/d/r/g".to_string(), Node::File(b"other".to_vec()));
    disk.unpack_in(&mut link(b'1', "a/g", "r/f"), "/d", &mut memo, "").unwrap();
    assert_eq!(disk.body("/d/r/g").unwrap(), "kept");
    disk.log.clear();
    disk.unpack_in(&mut link(b'1', "r/g", "r/f"), "/d", &mut memo, "").unwrap();
    assert!(disk.log.iter().all(|line| !line.starts_with("remove")));
}

#[test]
fn what_is_in_the_way_of_a_hard_link_is_compared_first() {
    let found = || {
        let mut entry = link(b'1', "new", "old");
        let mut run = entry.unpack(None, b"/new");
        run.report(Event::Failed(ErrorKind::AlreadyExists), &mut entry);
        assert!(matches!(
            run.action(),
            Action::SameFile(source, path) if source == b"old" && path == b"/new"
        ));
        (run, entry)
    };

    let (mut run, mut entry) = found();
    run.report(Event::SameFile(true), &mut entry);
    assert!(matches!(run.action(), Action::Finish(Unpacked::Other)));

    let (mut run, mut entry) = found();
    run.report(Event::Failed(ErrorKind::NotFound), &mut entry);
    assert_eq!(
        messages(&run.into_failure().unwrap(), "Gone"),
        ["Gone", "Gone when hard linking old to /new"]
    );

    let (mut run, mut entry) = found();
    run.report(Event::SameFile(false), &mut entry);
    assert!(matches!(run.action(), Action::RemoveFile(path) if path == b"/new"));
    run.report(Event::Failed(ErrorKind::Other), &mut entry);
    assert_eq!(
        messages(&run.into_failure().unwrap(), "Denied"),
        ["Denied", "Denied when hard linking old to /new"]
    );

    let (mut run, mut entry) = found();
    run.report(Event::SameFile(false), &mut entry);
    run.report(Event::Failed(ErrorKind::NotFound), &mut entry);
    assert!(matches!(run.action(), Action::HardLink(_, _)));
    run.report(Event::Failed(ErrorKind::NotFound), &mut entry);
    assert!(matches!(run.action(), Action::Fail));
}

#[test]
fn directories_are_made_from_the_outside_in_and_checked() {
    let mut disk = Disk::new(&["/td"]);
    let mut memo = FxHashSet::default();
    disk.unpack_in(&mut file("a/b/c/f", "x"), "/td", &mut memo, "x").unwrap();
    assert_eq!(
        disk.log,
        [
            "resolve /td",
            "mkdir /td/a",
            "resolve /td/a",
            "mkdir /td/a/b",
            "resolve /td/a/b",
            "mkdir /td/a/b/c",
            "resolve /td/a/b/c",
        ]
    );
    assert!(memo.contains(&b"/td/a/b/c"[..]));
    assert_eq!(memo.len(), 1);
}

#[test]
fn writing_through_a_link_is_refused() {
    let mut disk = Disk::new(&["/td", "/out"]);
    let mut memo = FxHashSet::default();
    disk.unpack_in(&mut link(b'2', "d", "/out"), "/td", &mut memo, "").unwrap();
    let failure = disk.unpack_in(&mut file("d/f", "x"), "/td", &mut memo, "x").unwrap_err();
    assert_eq!(
        messages(&failure, ""),
        ["Invalid argument", "trying to unpack outside of destination path: /td"]
    );
    let failure = disk.unpack_in(&mut file("d/e/f", "x"), "/td", &mut memo, "x").unwrap_err();
    assert_eq!(
        messages(&failure, ""),
        [
            "Invalid argument",
            "trying to unpack outside of destination path: /td",
            "failed to create `/td/d/e`",
        ]
    );
    assert_eq!(disk.nodes.len(), 4);
    assert!(!memo.contains(&b"/td/d"[..]));
}

#[test]
fn a_directory_is_checked_once_until_a_link_is_unpacked() {
    let mut disk = Disk::new(&["/td"]);
    let mut memo = FxHashSet::default();
    disk.unpack_in(&mut file("d/f", "x"), "/td", &mut memo, "x").unwrap();
    disk.log.clear();
    disk.unpack_in(&mut file(".//d/g", "x"), "/td", &mut memo, "x").unwrap();
    assert!(disk.log.is_empty());
    disk.unpack_in(&mut link(b'2', "l", "d"), "/td", &mut memo, "").unwrap();
    assert_eq!(disk.log, ["resolve /td"]);
    assert!(!memo.contains(&b"/td/d"[..]) && memo.contains(&b"/td"[..]));
    disk.log.clear();
    disk.unpack_in(&mut file("d/h", "x"), "/td", &mut memo, "x").unwrap();
    assert_eq!(disk.log, ["resolve /td/d"]);
}

#[test]
fn skipped_entries_leave_the_memo_alone() {
    let mut memo: FxHashSet<Vec<u8>> = FxHashSet::default();
    memo.insert(b"/td/d".to_vec());
    assert!(link(b'2', "../l", "d").unpack_in(b"/td", &mut memo).unwrap().is_none());
    assert_eq!(memo.len(), 1);
}

#[test]
fn entries_start_with_an_empty_memo() {
    let entry = file("d/f", "x").into_entry();
    let (run, memo) = entry.unpack_in(b"/td");
    let run = run.unwrap().unwrap();
    assert!(memo.is_empty());
    assert!(matches!(run.action(), Action::Probe(path) if path == b"/td/d"));
    assert_eq!(run.destination(), b"/td/d/f");

    let mut memo = FxHashSet::default();
    memo.insert(b"/td/d".to_vec());
    let run = entry.unpack_in_raw(b"/td", &mut memo).unwrap().unwrap();
    assert!(matches!(run.action(), Action::CreateFile(path) if path == b"/td/d/f"));
    let run = entry.unpack(b"/else");
    assert!(matches!(run.action(), Action::CreateFile(path) if path == b"/else"));
}

#[test]
fn unreadable_path_is_an_error() {
    let mut entry = file("raw", "x");
    entry.pax_extensions = Some(b"broken".to_vec());
    let failure = entry.unpack_in(b"/td", &mut FxHashSet::default()).unwrap_err();
    assert_eq!(
        messages(&failure, ""),
        ["malformed pax extension", "invalid path in entry header: raw"]
    );
}

#[test]
fn destination_that_is_not_there_is_not_made_up() {
    let mut disk = Disk::new(&[]);
    let failure = disk
        .unpack_in(&mut file("f", "x"), "/td", &mut FxHashSet::default(), "x")
        .unwrap_err();
    assert_eq!(
        messages(&failure, ""),
        [
            "Invalid argument",
            "trying to unpack outside of destination path: /td",
            "failed to create `/td`",
        ]
    );
    assert_eq!(disk.nodes.len(), 1);
}

#[test]
fn failed_directories_are_told() {
    let entry = file("d/f", "x");
    let mut fields = file("d/f", "x");
    let mut memo = FxHashSet::default();
    let mut run = entry.unpack_in(b"/td", &mut memo).unwrap().unwrap();
    run.report(Event::Exists(false), &mut fields, &mut memo);
    run.report(Event::Exists(true), &mut fields, &mut memo);
    run.report(Event::Resolved(b"/td".to_vec()), &mut fields, &mut memo);
    assert!(matches!(run.action(), Action::CreateDirAll(path) if path == b"/td/d"));
    run.report(Event::Failed(ErrorKind::Other), &mut fields, &mut memo);
    assert!(matches!(run.action(), Action::Fail));
    let failure = run.into_failure().unwrap();
    assert_eq!(messages(&failure, "Denied"), ["Denied", "failed to create `/td/d`"]);
    assert!(memo.is_empty());
}

#[test]
fn relative_destinations_end_at_the_empty_path() {
    let entry = file("f", "x");
    let mut fields = file("f", "x");
    let mut memo = FxHashSet::default();
    let mut run = entry.unpack_in(b"td", &mut memo).unwrap().unwrap();
    run.report(Event::Exists(false), &mut fields, &mut memo);
    assert!(matches!(run.action(), Action::Probe(path) if path.is_empty()));
    run.report(Event::Exists(false), &mut fields, &mut memo);
    assert!(matches!(run.action(), Action::CreateDirAll(path) if path.is_empty()));
    run.report(Event::Done, &mut fields, &mut memo);
    assert!(matches!(run.action(), Action::Canonicalize(path) if path.is_empty()));
}

#[test]
fn removal_may_find_nothing_and_may_fail() {
    for (kind, again) in [(ErrorKind::NotFound, true), (ErrorKind::Other, false)] {
        let mut entry = file("f", "x");
        let mut run = entry.unpack(None, b"/f");
        run.report(Event::Failed(ErrorKind::AlreadyExists), &mut entry);
        assert!(matches!(run.action(), Action::RemoveFile(path) if path == b"/f"));
        run.report(Event::Failed(kind), &mut entry);
        if again {
            assert!(matches!(run.action(), Action::CreateFile(_)));
            run.report(Event::Failed(ErrorKind::AlreadyExists), &mut entry);
        }
        let failure = run.into_failure().unwrap();
        assert!(matches!(failure.inner, Some(Context::UnpackInto(_, _))));
        assert_eq!(entry.data.len(), 1);
    }
}

#[test]
fn failures_of_metadata_are_told() {
    let mut entry = file("f", "");
    entry.data = VecDeque::new();
    entry.header.mtime = Some(u64::MAX);
    entry.header.mode = Some(0o4755);
    entry.preserve_permissions = true;
    entry.unpack_xattrs = true;
    entry.pax_extensions = Some(b"25 SCHILY.xattr.user.a=b\n".to_vec());

    let steps = |entry: &mut EntryFields, last: Event, count: usize| -> Vec<String> {
        let mut run = entry.unpack(None, b"/f");
        for _ in 0..count {
            run.report(Event::Done, entry);
        }
        run.report(last, entry);
        messages(&run.into_failure().unwrap(), "Denied")
    };
    assert_eq!(
        steps(&mut entry, Event::Failed(ErrorKind::Other), 1),
        ["Denied", "failed to unpack `f` into `/f`"]
    );
    assert_eq!(steps(&mut entry, Event::OutOfRange, 2), ["mtime exceeds system limits"]);
    assert_eq!(
        steps(&mut entry, Event::Failed(ErrorKind::Other), 2),
        ["Denied", "failed to set mtime for `/f`"]
    );
    assert_eq!(
        steps(&mut entry, Event::Failed(ErrorKind::Other), 3),
        ["Denied", "failed to set permissions to 4755 for `/f`"]
    );
    assert_eq!(
        steps(&mut entry, Event::Failed(ErrorKind::Other), 4),
        ["Denied", "failed to set extended attributes to /f. Xattrs: "]
    );
    let mut run = entry.unpack(None, b"/f");
    for _ in 0..5 {
        run.report(Event::Done, &mut entry);
    }
    assert!(matches!(run.action(), Action::Finish(Unpacked::File)));
    assert!(run.into_failure().is_none());
}

#[test]
fn kinds_and_messages_of_errors() {
    assert_eq!(EntryError::MtimeExceedsSystem.kind(), ErrorKind::InvalidData);
    assert_eq!(EntryError::MtimeBeforeEpoch.kind(), ErrorKind::InvalidData);
    assert_eq!(EntryError::MtimeExceedsPlatform.kind(), ErrorKind::InvalidData);
    assert_eq!(EntryError::UnexpectedEof.kind(), ErrorKind::Other);
    assert_eq!(
        EntryError::UnexpectedEof.message(),
        "unexpected EOF while reading archive entry data"
    );
    assert_eq!(EntryError::MtimeBeforeEpoch.message(), "mtime predates the Unix epoch");
    assert_eq!(EntryError::MtimeExceedsPlatform.message(), "mtime exceeds platform limits");
    assert_eq!(
        EntryError::EmptyLink(b"\xff".to_vec()).message(),
        "symlink destination for \u{fffd} is empty"
    );
    assert_eq!(
        Context::SetPermissions(0, b"p".to_vec()).describe(""),
        "failed to set permissions to 0 for `p`"
    );
    assert_eq!(
        Context::SetPermissions(u32::MAX, b"p".to_vec()).describe(""),
        format!("failed to set permissions to {:o} for `p`", u32::MAX)
    );
}

#[test]
fn timestamps_of_links() {
    assert!(matches!(symlink_timestamp(Some((12, 34))), Ok((12, 34))));
    assert!(matches!(
        symlink_timestamp(Some((i64::MAX as u64, 0))),
        Ok((i64::MAX, 0))
    ));
    assert!(matches!(
        symlink_timestamp(Some((i64::MAX as u64 + 1, 0))),
        Err(EntryError::MtimeExceedsPlatform)
    ));
    assert!(matches!(symlink_timestamp(None), Err(EntryError::MtimeBeforeEpoch)));
}

#[test]
fn read_only_modes() {
    assert!(is_read_only(0o444) && is_read_only(0) && is_read_only(0o577));
    assert!(!is_read_only(0o200) && !is_read_only(0o644) && !is_read_only(0o7777));
}
