use pathshim::directory::{metadata_to_dir_type, DirEntry, FileKind};
use pathshim::linux::platform::Flags;
use pathshim::root::{
    copy_lower_entry, copy_lower_entry_recursive, is_passthrough, relative, write_flags, CopyPlan,
    DirectoryStep, Layers, MakePlan, OpenPlan, RootView, UnlinkPlan, EEXIST, EISDIR, ENOENT,
    ENOTDIR,
};
use pathshim::whiteout::{hex_decode, hex_digit, hex_encode, Whiteouts};

const NOWHERE: Layers = Layers { upper: None, lower: None };
const BELOW: Layers = Layers { upper: None, lower: Some(FileKind::File) };
const DIRECTORY: Layers = Layers { upper: None, lower: Some(FileKind::Directory) };
const ABOVE: Layers = Layers { upper: Some(FileKind::File), lower: None };

fn flags() -> Flags {
    Flags {
        at_fdcwd: libc::AT_FDCWD,
        at_symlink_nofollow: libc::AT_SYMLINK_NOFOLLOW,
        at_removedir: libc::AT_REMOVEDIR,
        at_empty_path: libc::AT_EMPTY_PATH,
        o_wronly: libc::O_WRONLY,
        o_rdwr: libc::O_RDWR,
        o_creat: libc::O_CREAT,
        o_excl: libc::O_EXCL,
        o_trunc: libc::O_TRUNC,
        o_append: libc::O_APPEND,
        o_cloexec: libc::O_CLOEXEC,
        o_directory: libc::O_DIRECTORY,
    }
}

fn root() -> RootView {
    RootView::open(b"/up".to_vec(), b"")
}

fn entry(name: &str, inode: u64) -> DirEntry {
    DirEntry { name: name.as_bytes().to_vec(), inode, file_type: 8 }
}

#[test]
fn reads_upper_first_and_lower_as_fallback() {
    let root = root();

    assert_eq!(root.resolve_read(b"/upper.txt", true), Ok(b"/up/upper.txt".to_vec()));
    assert_eq!(root.resolve_read(b"/bin/sh", false), Ok(b"/bin/sh".to_vec()));

    let plan = root.prepare_open(b"/bin/sh", libc::O_RDWR, BELOW, DIRECTORY, &flags());
    assert_eq!(
        plan,
        OpenPlan::Prepare {
            parent: Some(b"/up/bin".to_vec()),
            copy: true,
            lower: b"/bin/sh".to_vec(),
            upper: b"/up/bin/sh".to_vec(),
        }
    );
    assert_eq!(copy_lower_entry(BELOW.lower, None), CopyPlan::File);
}

#[test]
fn creates_missing_rootfs_without_assuming_a_layout() {
    let root = RootView::open(b"/t/missing/rootfs".to_vec(), b"");

    assert_eq!(root.upper(), b"/t/missing/rootfs");
    assert_eq!(RootView::metadata_directory(root.upper()), b"/t/missing/rootfs/.pathshim".to_vec());
    assert_eq!(
        RootView::whiteout_log(root.upper()),
        b"/t/missing/rootfs/.pathshim/whiteouts".to_vec()
    );
}

#[test]
fn resolves_and_materializes_guest_directories() {
    let root = root();

    assert_eq!(
        root.resolve_directory(b"workspace/../workspace", true, Ok(true)),
        Ok(b"/workspace".to_vec())
    );
    assert_eq!(root.materialize_directory(b"/lower-only/cwd"), b"/up/lower-only/cwd".to_vec());
}

#[test]
fn creates_missing_guest_directory_without_shadowing_files() {
    let root = root();

    let steps = RootView::directories_to(b"/workspace/nested");
    assert_eq!(steps, vec![b"/workspace".to_vec(), b"/workspace/nested".to_vec()]);
    for step in &steps {
        assert_eq!(
            root.create_directory_all(step, NOWHERE, Err(libc::ENOENT)),
            DirectoryStep::Make
        );
    }
    assert_eq!(
        root.create_directory_all(&RootView::directories_to(b"/file/nested")[0], ABOVE, Ok(false)),
        DirectoryStep::Fail(ENOTDIR)
    );
    assert_eq!(
        root.create_directory_all(b"/tmp", DIRECTORY, Ok(true)),
        DirectoryStep::Present
    );
    assert_eq!(
        root.create_directory_all(b"/tmp", DIRECTORY, Err(13)),
        DirectoryStep::Fail(13)
    );
}

#[test]
fn rejects_missing_guest_directory() {
    assert_eq!(
        root().resolve_directory(b"/pathshim-missing-cwd", false, Err(libc::ENOENT)),
        Err(ENOENT)
    );
    assert_eq!(root().resolve_directory(b"/bin/sh", false, Ok(false)), Err(ENOTDIR));
}

#[test]
fn whiteout_persists_across_root_view_instances() {
    let mut log = Vec::new();
    {
        let mut root = root();
        assert_eq!(root.unlink(b"/bin/sh", false, BELOW), UnlinkPlan::Nothing);
        log.extend(root.removed(b"/bin/sh", true));
        assert!(root.resolve_read(b"/bin/sh", false).is_err());
    }
    assert_eq!(log, b"+62696e2f7368\n".to_vec());
    let root = RootView::open(b"/up".to_vec(), &log);
    assert!(root.resolve_read(b"/bin/sh", false).is_err());
    assert_eq!(root.resolve_read(b"/bin/sh/below", true), Err(ENOENT));
    assert_eq!(root.resolve_read(b"/bin/shell", false), Ok(b"/bin/shell".to_vec()));
}

#[test]
fn directory_listing_merges_both_layers() {
    let root = root();
    let lower = vec![entry("zebra", 1), entry("both", 2)];
    let upper = vec![entry("pathshim-only", 3), entry("both", 4)];

    let entries = root.list_dir(b"/tmp", &lower, &upper).unwrap();
    assert_eq!(
        entries,
        vec![entry("both", 4), entry("pathshim-only", 3), entry("zebra", 1)]
    );
}

#[test]
fn hidden_entries_and_metadata_are_not_listed() {
    let mut root = root();
    root.removed(b"/gone", true);
    root.removed(b"/dir", true);
    let lower = vec![entry("gone", 1), entry("kept", 2), entry(".pathshim", 3)];
    let upper = vec![entry(".pathshim", 4), entry("a", 5)];
    assert_eq!(
        root.list_dir(b"/", &lower, &upper).unwrap(),
        vec![entry("a", 5), entry("kept", 2)]
    );
    assert_eq!(
        root.list_dir(b"/sub", &vec![entry(".pathshim", 1), entry("gone", 2)], &vec![]).unwrap(),
        vec![entry(".pathshim", 1), entry("gone", 2)]
    );
    assert_eq!(root.list_dir(b"/dir/below", &lower, &upper), Err(ENOENT));
}

#[test]
fn entries_are_listed_in_byte_order() {
    let lower = vec![entry("b", 1), entry("a-longer", 2), entry("B", 3), entry("a", 4)];
    let names: Vec<Vec<u8>> = root()
        .list_dir(b"/d", &lower, &vec![])
        .unwrap()
        .into_iter()
        .map(|entry| entry.name)
        .collect();
    assert_eq!(
        names,
        vec![b"B".to_vec(), b"a".to_vec(), b"a-longer".to_vec(), b"b".to_vec()]
    );
}

#[test]
fn an_entry_that_is_made_again_is_seen_again() {
    let mut root = root();
    let mut log = root.removed(b"/bin/sh", true);
    assert_eq!(
        root.prepare_open(b"/bin/sh", libc::O_WRONLY | libc::O_CREAT, BELOW, DIRECTORY, &flags()),
        OpenPlan::Prepare {
            parent: Some(b"/up/bin".to_vec()),
            copy: false,
            lower: b"/bin/sh".to_vec(),
            upper: b"/up/bin/sh".to_vec(),
        }
    );
    log.extend(root.made(b"/bin/sh"));
    assert_eq!(log, b"+62696e2f7368\n-62696e2f7368\n".to_vec());
    assert_eq!(root.resolve_read(b"/bin/sh", true), Ok(b"/up/bin/sh".to_vec()));
    let reopened = RootView::open(b"/up".to_vec(), &log);
    assert_eq!(reopened.resolve_read(b"/bin/sh", true), Ok(b"/up/bin/sh".to_vec()));
}

#[test]
fn opening_for_reading_prepares_nothing() {
    let root = root();
    assert_eq!(
        root.prepare_open(b"/a", libc::O_RDONLY, ABOVE, NOWHERE, &flags()),
        OpenPlan::Use(b"/up/a".to_vec())
    );
    assert_eq!(
        root.prepare_open(b"/a", libc::O_RDONLY, BELOW, NOWHERE, &flags()),
        OpenPlan::Use(b"/a".to_vec())
    );
    assert_eq!(
        root.prepare_open(b"/dev/null", libc::O_RDWR, BELOW, NOWHERE, &flags()),
        OpenPlan::Use(b"/dev/null".to_vec())
    );
}

#[test]
fn opening_for_writing_needs_a_parent() {
    let root = root();
    assert_eq!(
        root.prepare_open(b"/no/a", libc::O_WRONLY, NOWHERE, NOWHERE, &flags()),
        OpenPlan::Fail(ENOENT)
    );
    assert_eq!(
        root.prepare_open(b"/a", libc::O_CREAT | libc::O_EXCL, BELOW, DIRECTORY, &flags()),
        OpenPlan::Fail(EEXIST)
    );
    assert_eq!(
        root.prepare_mutation(b"/a", ABOVE, DIRECTORY, &flags()),
        OpenPlan::Prepare {
            parent: Some(b"/up/".to_vec()),
            copy: false,
            lower: b"/a".to_vec(),
            upper: b"/up/a".to_vec(),
        }
    );
}

#[test]
fn entries_are_made_once() {
    let root = root();
    assert_eq!(root.mkdir(b"/a", BELOW, DIRECTORY), Err(EEXIST));
    assert_eq!(root.mkdir(b"/no/a", NOWHERE, NOWHERE), Err(ENOENT));
    assert_eq!(
        root.symlink(b"/d/a", NOWHERE, DIRECTORY),
        Ok(MakePlan { parent: Some(b"/up/d".to_vec()), upper: b"/up/d/a".to_vec() })
    );
    assert_eq!(root.ensure_parent(b"/", NOWHERE), Ok(None));
    assert!(root.entry_exists(b"/a", BELOW));
    assert!(!root.entry_exists(b"/a", NOWHERE));
}

#[test]
fn removal_tells_directories_from_files() {
    let root = root();
    let directory = Layers { upper: Some(FileKind::Directory), lower: None };
    assert_eq!(root.unlink(b"/a", false, NOWHERE), UnlinkPlan::Fail(ENOENT));
    assert_eq!(root.unlink(b"/a", false, directory), UnlinkPlan::Fail(EISDIR));
    assert_eq!(root.unlink(b"/a", true, directory), UnlinkPlan::Directory(b"/up/a".to_vec()));
    assert_eq!(root.unlink(b"/a", true, ABOVE), UnlinkPlan::Fail(ENOTDIR));
    assert_eq!(root.unlink(b"/a", false, ABOVE), UnlinkPlan::File(b"/up/a".to_vec()));
}

#[test]
fn rename_hides_the_old_place_and_shows_the_new_one() {
    let mut root = root();
    let first = root.removed(b"/new", true);
    assert_eq!(first, b"+6e6577\n".to_vec());
    assert_eq!(root.rename(b"/missing", b"/x", NOWHERE, NOWHERE, DIRECTORY), Err(ENOENT));
    assert_eq!(root.rename(b"/old", b"/no/x", BELOW, NOWHERE, NOWHERE), Err(ENOENT));
    let plan = root.rename(b"/old", b"/new", BELOW, ABOVE, DIRECTORY).unwrap();
    assert!(plan.copy);
    assert_eq!(plan.lower, b"/old".to_vec());
    assert_eq!(plan.replace, Some(FileKind::File));
    assert_eq!((plan.from, plan.to), (b"/up/old".to_vec(), b"/up/new".to_vec()));
    assert_eq!(root.renamed(b"/old", b"/new", true), b"+6f6c64\n-6e6577\n".to_vec());
    assert!(root.resolve_read(b"/old", true).is_err());
    assert_eq!(root.resolve_read(b"/new", true), Ok(b"/up/new".to_vec()));
}

#[test]
fn the_log_holds_the_records_of_a_change_and_nothing_else() {
    let mut root = root();
    assert_eq!(root.removed(b"/a", true), b"+61\n".to_vec());
    assert_eq!(root.removed(b"/a", true), Vec::<u8>::new());
    assert_eq!(root.removed(b"/b", false), Vec::<u8>::new());
    assert_eq!(root.removed(b"/a", false), b"-61\n".to_vec());
    assert_eq!(root.removed(b"/a", true), b"+61\n".to_vec());
    assert_eq!(root.made(b"/a/b"), b"-61\n".to_vec());
    assert_eq!(root.made(b"/a/b"), Vec::<u8>::new());
    assert_eq!(root.renamed(b"/c", b"/d", false), Vec::<u8>::new());
}

#[test]
fn a_change_is_prepared_like_writing() {
    let root = root();
    assert_eq!(
        root.prepare_mutation(b"/etc/file", BELOW, DIRECTORY, &flags()),
        root.prepare_open(b"/etc/file", libc::O_RDWR, BELOW, DIRECTORY, &flags())
    );
}

#[test]
fn lower_entries_are_brought_up_by_kind() {
    assert_eq!(copy_lower_entry(None, None), CopyPlan::Nothing);
    assert_eq!(copy_lower_entry(Some(FileKind::Directory), None), CopyPlan::Directory);
    assert_eq!(copy_lower_entry(Some(FileKind::Other), None), CopyPlan::Nothing);
    let link = Some(FileKind::Symlink);
    assert_eq!(copy_lower_entry(link, Some(FileKind::File)), CopyPlan::File);
    assert_eq!(copy_lower_entry(link, Some(FileKind::Directory)), CopyPlan::Directory);
    assert_eq!(copy_lower_entry(link, None), CopyPlan::Link);
    assert!(copy_lower_entry_recursive(FileKind::Directory));
    assert!(!copy_lower_entry_recursive(FileKind::Symlink));
}

#[test]
fn small_rules_of_the_root_view() {
    assert_eq!(relative(b"/a/b"), b"a/b".to_vec());
    assert_eq!(relative(b"//a//b/./c/"), b"a//b/./c".to_vec());
    assert_eq!(relative(b"a/b"), b"a/b".to_vec());
    assert_eq!(relative(b"a/b/"), b"a/b/".to_vec());
    assert_eq!(relative(b"/"), b"".to_vec());
    assert!(is_passthrough(b"/sys/kernel"));
    assert!(!is_passthrough(b"/system"));
    assert_eq!(
        write_flags(&flags()),
        libc::O_WRONLY | libc::O_RDWR | libc::O_CREAT | libc::O_TRUNC | libc::O_APPEND
    );
    assert_eq!(metadata_to_dir_type(FileKind::Directory), 4);
    assert_eq!(metadata_to_dir_type(FileKind::File), 8);
    assert_eq!(metadata_to_dir_type(FileKind::Symlink), 10);
    assert_eq!(metadata_to_dir_type(FileKind::Other), 0);
}

#[test]
fn whiteout_records_are_hexadecimal() {
    assert_eq!(hex_encode(b"\x00\xff/a"), b"00ff2f61".to_vec());
    assert_eq!(hex_decode(b"00ff2f61"), Some(b"\x00\xff/a".to_vec()));
    assert_eq!(hex_decode(b"0"), None);
    assert_eq!(hex_decode(b"0g"), None);
    assert_eq!(hex_decode(b"0A"), None);
    assert_eq!(hex_digit(b'f'), Some(15));
    assert_eq!(hex_digit(b'9'), Some(9));
    assert_eq!(hex_digit(b'F'), None);
}

#[test]
fn spelled_bytes_have_one_spelling() {
    for digits in [&b""[..], b"00ff2f61", b"0123456789abcdef"] {
        assert_eq!(hex_encode(&hex_decode(digits).unwrap()), digits.to_vec());
    }
}

#[test]
fn unreadable_lines_of_the_log_are_passed_over() {
    let whiteouts = Whiteouts::load(b"\n+zz\n*6161\n+6161\r\n+6262\n-6262\n+6363");
    assert!(whiteouts.covers(b"aa"));
    assert!(whiteouts.covers(b"aa/x"));
    assert!(!whiteouts.covers(b"aax"));
    assert!(!whiteouts.covers(b"bb"));
    assert!(whiteouts.covers(b"cc"));
}

#[test]
fn the_log_is_read_up_to_a_line_that_is_not_text() {
    let whiteouts = Whiteouts::load(b"+6161\n\xff\n+6262\n");
    assert!(whiteouts.covers(b"aa"));
    assert!(!whiteouts.covers(b"bb"));
}

#[test]
fn revealing_takes_out_every_path_above() {
    let mut whiteouts = Whiteouts::load(b"");
    assert_eq!(whiteouts.hide_path(b"a"), b"+61\n".to_vec());
    assert_eq!(whiteouts.hide_path(b"a"), b"".to_vec());
    assert_eq!(whiteouts.hide_path(b"a/b"), b"+612f62\n".to_vec());
    whiteouts.hide_path(b"c");
    assert_eq!(whiteouts.reveal_path(b"a/b/c"), b"-61\n-612f62\n".to_vec());
    assert!(!whiteouts.covers(b"a/b/c"));
    assert!(whiteouts.covers(b"c"));
    assert_eq!(whiteouts.reveal_path(b"a"), b"".to_vec());
}
