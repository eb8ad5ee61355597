use pathshim::bind::{
    is_reserved, join_virtual, BindError, BindPlan, BindSpec, BindView, Removal, ENOTDIR, ENOTSUP,
    EXDEV,
};
use pathshim::path;

fn spec(source: &str, destination: &str) -> BindSpec {
    BindSpec { source: source.as_bytes().to_vec(), destination: destination.as_bytes().to_vec() }
}

fn view(source: &str, destination: &str) -> BindView {
    BindView::open(vec![spec(source, destination)]).unwrap()
}

fn text(bytes: &[u8]) -> String {
    String::from_utf8(bytes.to_vec()).unwrap()
}

#[test]
fn bind_replaces_destination_without_lower_fallback() {
    let view = view("/tmp/pathshim/source", "/workspace");

    assert_eq!(
        text(&view.resolve_read(b"/workspace/missing.txt")),
        "/tmp/pathshim/source/missing.txt"
    );
}

#[test]
fn independent_views_observe_external_writes() {
    let first = view("/tmp/pathshim/source", "/workspace");
    let second = first.reopen().unwrap();

    assert_eq!(
        text(&second.resolve_read(b"/workspace/result.txt")),
        "/tmp/pathshim/source/result.txt"
    );
    assert_eq!(second.projection_count(), 1);
}

#[test]
fn longest_destination_and_source_prefix_win() {
    let view = BindView::open(vec![
        spec("/tmp/t/workspace", "/workspace"),
        spec("/tmp/t/workspace/cache", "/workspace/cache"),
    ])
    .unwrap();

    assert_eq!(
        text(&view.resolve_read(b"/workspace/cache/item")),
        "/tmp/t/workspace/cache/item"
    );
    assert_eq!(
        text(&view.virtual_for_host(b"/tmp/t/workspace/cache/item")),
        "/workspace/cache/item"
    );
}

#[test]
fn creates_missing_guest_cwd_inside_bind() {
    let view = view("/tmp/pathshim/source", "/workspace");

    let plan = view.create_directory_all(b"/workspace/project").unwrap();
    assert_eq!(text(&plan.guest), "/workspace/project");
    assert_eq!(text(&plan.physical), "/tmp/pathshim/source/project");
}

#[test]
fn rejects_root_and_reserved_destinations() {
    for destination in ["/", "/proc/guest"] {
        let source = format!("/tmp/pathshim/{}", destination.trim_start_matches('/'));
        let error = BindView::open(vec![spec(&source, destination)]).unwrap_err();
        assert!(matches!(error, BindError::Root | BindError::Reserved(_)));
    }
}

#[test]
fn refusals_name_the_destination() {
    let relative = BindView::open(vec![spec("/s", "guest")]).unwrap_err();
    assert_eq!(relative.message(), "bind destination must be absolute: guest");
    let root = BindView::open(vec![spec("/s", "/a/..")]).unwrap_err();
    assert_eq!(root.message(), "bind destination `/` is unsupported");
    let reserved = BindView::open(vec![spec("/s", "/x/../dev//shm")]).unwrap_err();
    assert_eq!(
        reserved.message(),
        "bind destination is reserved for host passthrough: /dev/shm"
    );
    let twice = BindView::open(vec![spec("/s", "/a"), spec("/t", "/b/../a/")]).unwrap_err();
    assert_eq!(twice.message(), "duplicate bind destination: /a");
}

#[test]
fn refused_destinations_are_shown_with_replacement_characters() {
    let error = BindView::open(vec![BindSpec {
        source: b"/s".to_vec(),
        destination: b"gu\xffest".to_vec(),
    }])
    .unwrap_err();
    assert_eq!(error.message(), "bind destination must be absolute: gu\u{fffd}est");
}

#[test]
fn a_plan_takes_one_bind_at_a_time() {
    let mut plan = BindPlan::new();
    assert_eq!(plan.check_destination(b"/a/./b/../c").unwrap(), b"/a/c".to_vec());
    plan.add(spec("/s", "/a/c")).unwrap();
    assert!(plan.check_destination(b"/a//c").is_err());
    plan.add(spec("/t", "/a/c/d")).unwrap();
    let view = plan.finish();
    assert_eq!(text(view.probe_path()), "/a/c/d");
    assert_eq!(view.projection_count(), 2);
}

#[test]
fn deeper_destinations_come_first_and_equal_depths_keep_their_order() {
    let view = BindView::open(vec![
        spec("/one", "/a"),
        spec("/two", "/b/c"),
        spec("/three", "/d/e"),
        spec("/four", "/f"),
    ])
    .unwrap();
    let destinations: Vec<String> =
        view.specs().iter().map(|spec| text(&spec.destination)).collect();
    assert_eq!(destinations, vec!["/b/c", "/d/e", "/a", "/f"]);
}

#[test]
fn the_destination_itself_is_projected() {
    let view = view("/src", "/workspace");
    assert_eq!(text(&view.resolve_read(b"/workspace")), "/src/");
    assert!(view.projects(b"/workspace/"));
    assert!(view.projects(b"/other/../workspace/x"));
    assert!(!view.projects(b"/workspaces/x"));
    assert_eq!(view.projection_index(b"/workspace/a"), Some(0));
    assert_eq!(view.projection_index(b"/"), None);
}

#[test]
fn paths_outside_every_bind_stay_as_they_are() {
    let view = view("/src", "/workspace");
    assert_eq!(text(&view.resolve_read(b"/tmp/./result.txt")), "/tmp/result.txt");
    assert_eq!(text(&view.prepare_open(b"/etc//passwd", 1)), "/etc/passwd");
    assert_eq!(text(&view.prepare_mutation(b"/proc/self/status")), "/proc/self/status");
    assert_eq!(text(&view.virtual_for_host(b"/var/log")), "/var/log");
}

#[test]
fn directories_are_told_from_files_and_errors() {
    let view = view("/src", "/workspace");
    assert_eq!(
        view.resolve_directory(b"/workspace/a/../b", Ok(true)),
        Ok(b"/workspace/b".to_vec())
    );
    assert_eq!(view.resolve_directory(b"/workspace/b", Ok(false)), Err(ENOTDIR));
    assert_eq!(view.resolve_directory(b"/workspace/b", Err(13)), Err(13));
    assert_eq!(view.create_directory_all(b"/elsewhere"), Err(ENOTSUP));
}

#[test]
fn removal_goes_to_the_source() {
    let view = view("/src", "/workspace");
    assert_eq!(view.unlink(b"/workspace/d", true), Removal::Directory(b"/src/d".to_vec()));
    assert_eq!(view.unlink(b"/workspace/f", false), Removal::File(b"/src/f".to_vec()));
}

#[test]
fn rename_stays_within_one_bind() {
    let view =
        BindView::open(vec![spec("/one", "/a"), spec("/two", "/a/b"), spec("/three", "/c")])
            .unwrap();
    let plan = view.rename(b"/a/x", b"/a/y").unwrap();
    assert_eq!((text(&plan.from), text(&plan.to)), ("/one/x".to_owned(), "/one/y".to_owned()));
    assert_eq!(view.rename(b"/a/x", b"/a/b/x"), Err(EXDEV));
    assert_eq!(view.rename(b"/a/x", b"/tmp/x"), Err(EXDEV));
    assert_eq!(view.rename(b"/tmp/x", b"/c/x"), Err(EXDEV));
    assert!(view.same_projection(b"/c/x", b"/c/d/../y"));
    assert!(!view.same_projection(b"/tmp/x", b"/tmp/y"));
}

#[test]
fn physical_paths_map_back_to_guest_paths() {
    let view = BindView::open(vec![spec("/one", "/a"), spec("/two/deep", "/b/c")]).unwrap();
    for guest in ["/a", "/a/x", "/b/c/y/z"] {
        let physical = view.resolve_read(guest.as_bytes());
        assert_eq!(text(&view.virtual_for_host(&physical)), guest);
    }
}

#[test]
fn physical_paths_map_back_from_every_spelling_of_a_source() {
    for source in ["/srv//data/", "/srv/./data", "/srv/../data", "./data", "data/"] {
        let view = view(source, "/workspace");
        let physical = view.resolve_read(b"/workspace/a/../b");
        assert_eq!(text(&view.virtual_for_host(&physical)), "/workspace/b");
    }
}

#[test]
fn the_last_of_equally_long_sources_wins() {
    let view = BindView::open(vec![spec("/one", "/a"), spec("/one", "/b")]).unwrap();
    assert_eq!(text(&view.virtual_for_host(b"/one/x")), "/b/x");
}

#[test]
fn reserved_paths_are_recognized_by_component() {
    for path in ["/dev", "/proc/self", "/sys/", "//dev//null"] {
        assert!(is_reserved(path.as_bytes()));
    }
    for path in ["/devices", "dev", "/", "/a/proc"] {
        assert!(!is_reserved(path.as_bytes()));
    }
}

#[test]
fn joining_nothing_keeps_the_destination() {
    assert_eq!(text(&join_virtual(b"/a", b"")), "/a");
    assert_eq!(text(&join_virtual(b"/a", b"b/c")), "/a/b/c");
}

#[test]
fn paths_are_normalized_from_the_root() {
    for (given, normal) in [
        ("", "/"),
        ("/", "/"),
        ("a/./b//c/", "/a/b/c"),
        ("/a/../../b", "/b"),
        ("/../..", "/"),
        ("/a/b/..", "/a"),
        ("./a", "/a"),
    ] {
        assert_eq!(text(&path::normalize_virtual(given.as_bytes())), normal);
        assert_eq!(text(&path::normalize_virtual(normal.as_bytes())), normal);
    }
}

#[test]
fn prefixes_are_stripped_as_by_std() {
    let prefixes = ["/", "/a", "//a/.", "a", "./a", ".", "", "/a/..", "a//b", "./", "/a/b"];
    let rests = ["", "/", "b", "//b//c", "/./b/./c/.", "b/../c//", ".", "/..", ".b", "b/."];
    for prefix in prefixes {
        for rest in rests {
            for whole in [
                String::from(prefix) + rest,
                String::from(prefix) + "/" + rest,
                String::from(rest),
            ] {
                if let Ok(left) = std::path::Path::new(&whole).strip_prefix(prefix) {
                    assert_eq!(
                        text(&path::strip_prefix(whole.as_bytes(), prefix.as_bytes())),
                        left.to_str().unwrap()
                    );
                }
            }
        }
    }
}

#[test]
fn what_follows_a_source_keeps_its_spelling() {
    let view = view("/srv/data", "/workspace");
    for (host, guest) in [
        ("/srv/data/a//b/./c", "/workspace/a//b/./c"),
        ("//srv/./data//a/../b/", "/workspace/a/../b"),
        ("/srv/data/.", "/workspace"),
        ("/srv/other//x", "/srv/other//x"),
    ] {
        assert_eq!(text(&view.virtual_for_host(host.as_bytes())), guest);
    }
}

#[test]
fn a_base_may_be_normalized_first() {
    for base in ["/a/./b/..", "a//b", "", "/.."] {
        for relative in ["c", "../c", "../../..", "/c"] {
            let normal = path::normalize_virtual(base.as_bytes());
            assert_eq!(
                path::normalize_virtual(&path::join(&normal, relative.as_bytes())),
                path::normalize_virtual(&path::join(base.as_bytes(), relative.as_bytes()))
            );
        }
    }
}

#[test]
fn paths_are_compared_by_component() {
    assert!(path::same_path(b"/a//b/", b"/a/./b"));
    assert!(!path::same_path(b"/a/b", b"a/b"));
    assert!(!path::same_path(b"/a/b", b"/a/../a/b"));
    assert!(path::same_path(b"a/b", b"a//b/."));
    assert!(!path::same_path(b"./a", b"a"));
    assert_eq!(text(&path::join(b"/a/", b"b")), "/a/b");
    assert_eq!(text(&path::join(b"/a", b"/b")), "/b");
}
