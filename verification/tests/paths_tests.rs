use kindle_to_markdown::paths::{
    clippings_paths_for_device_root, dedupe_paths, default_export_directory,
    default_pull_destination, device_roots_for_platform, find_kindle_clippings_path_from_roots,
    host_platform_from, join_path, linux_mount_roots, mounted_children, path_components_of,
    path_file_name, same_path,
    windows_drive_roots, wsl_drive_roots, HostPlatform,
};
use std::path::{Path, PathBuf};
use tempfile::{tempdir, Builder};

fn no_children(_: &String) -> Vec<String> {
    Vec::new()
}

#[test]
fn builds_clippings_paths_for_root_and_documents_folder() {
    let root = "/Volumes/Kindle";
    let candidates = clippings_paths_for_device_root(root);

    assert_eq!(PathBuf::from(&candidates[0]), PathBuf::from("/Volumes/Kindle/My Clippings.txt"));
    assert_eq!(
        PathBuf::from(&candidates[1]),
        PathBuf::from("/Volumes/Kindle/documents/My Clippings.txt")
    );
}

#[test]
fn defaults_pull_destination_to_local_folder() {
    assert_eq!(
        PathBuf::from(default_pull_destination()),
        PathBuf::from("local").join("my-clippings.txt")
    );
}

#[test]
fn defaults_export_directory_to_clippings_folder() {
    assert_eq!(PathBuf::from(default_export_directory()), PathBuf::from("clippings"));
}

#[test]
fn finds_first_existing_clippings_file_from_roots() {
    let temp = tempdir().expect("temp dir should exist");
    let kindle_dir = Builder::new().prefix("Kindle").rand_bytes(0).tempdir_in(temp.path())
        .expect("kindle dir should exist");
    let documents = Builder::new().prefix("documents").rand_bytes(0).tempdir_in(kindle_dir.path())
        .expect("documents dir should exist");
    let _clippings = Builder::new().prefix("My Clippings.txt").rand_bytes(0).tempfile_in(documents.path())
        .expect("sample clippings should be written");
    let kindle = kindle_dir.path().to_path_buf();

    let roots = vec![kindle.to_str().expect("utf-8 path").to_string()];
    let discovered = find_kindle_clippings_path_from_roots(&roots, &|p: &String| Path::new(p).is_file())
        .expect("file should be found");

    assert!(PathBuf::from(discovered).ends_with("documents/My Clippings.txt"));
}

#[test]
fn prefers_the_root_file_and_reports_none_when_absent() {
    let roots = vec!["/a".to_string(), "/b".to_string()];
    let asked = std::cell::RefCell::new(Vec::new());
    let none = find_kindle_clippings_path_from_roots(&roots, &|p: &String| {
        asked.borrow_mut().push(p.clone());
        false
    });
    assert_eq!(none, None);
    assert_eq!(
        asked.into_inner(),
        vec![
            "/a/My Clippings.txt",
            "/a/documents/My Clippings.txt",
            "/b/My Clippings.txt",
            "/b/documents/My Clippings.txt",
        ]
    );
    let found = find_kindle_clippings_path_from_roots(&roots, &|p: &String| p.starts_with("/b"));
    assert_eq!(found, Some("/b/My Clippings.txt".to_string()));
}

#[test]
fn wsl_roots_cover_windows_mount_points() {
    let roots = device_roots_for_platform(HostPlatform::Wsl, None, &no_children);

    assert!(roots.contains(&"/mnt/c".to_string()));
    assert!(roots.contains(&"/mnt/z".to_string()));
}

#[test]
fn drive_roots_run_from_a_to_z() {
    let windows = windows_drive_roots();
    assert_eq!(windows.len(), 26);
    assert_eq!(windows[0], "A:\\");
    assert_eq!(windows[25], "Z:\\");
    let wsl = wsl_drive_roots();
    assert_eq!(wsl.len(), 26);
    assert_eq!(wsl[0], "/mnt/a");
    assert_eq!(wsl[4], "/mnt/e");
    assert_eq!(device_roots_for_platform(HostPlatform::Windows, None, &no_children), windows);
}

#[test]
fn mounted_roots_come_from_the_listing_without_repeats() {
    let list = |p: &String| -> Vec<String> {
        match p.as_str() {
            "/run/media/ana" => vec!["/run/media/ana/Kindle".to_string()],
            "/media" => vec!["/media/Kindle".to_string(), "/media/Kindle".to_string()],
            _ => Vec::new(),
        }
    };
    let roots = device_roots_for_platform(HostPlatform::Linux, Some("ana".to_string()), &list);
    assert_eq!(roots, vec!["/run/media/ana/Kindle".to_string(), "/media/Kindle".to_string()]);

    let parents_seen = std::cell::RefCell::new(Vec::new());
    let _ = linux_mount_roots(Some("ana".to_string()), &|p: &String| {
        parents_seen.borrow_mut().push(p.clone());
        Vec::new()
    });
    assert_eq!(
        parents_seen.into_inner(),
        vec!["/mnt", "/run/media/ana", "/media/ana", "/run/media", "/media"]
    );

    let mac = device_roots_for_platform(HostPlatform::MacOs, None, &|p: &String| {
        vec![format!("{}/Kindle", p)]
    });
    assert_eq!(mac, vec!["/Volumes/Kindle".to_string()]);
    let parents = vec!["/x".to_string(), "/y".to_string()];
    assert_eq!(
        mounted_children(&parents, &|p: &String| vec![format!("{}/1", p)]),
        vec!["/x/1".to_string(), "/y/1".to_string()]
    );
}

#[test]
fn dedupe_keeps_first_occurrences() {
    let paths = vec!["/a", "/b", "/a", "/c", "/b"].into_iter().map(String::from).collect();
    let once = dedupe_paths(paths);
    assert_eq!(once, vec!["/a".to_string(), "/b".to_string(), "/c".to_string()]);
    assert_eq!(dedupe_paths(once.clone()), once);
}

#[test]
fn dedupe_treats_paths_with_the_same_components_as_one() {
    let paths = vec!["a/b", "a/b/", "a//b", "a/./b", "./a/b", "/a/b", "/a/b/"]
        .into_iter()
        .map(String::from)
        .collect();
    let once = dedupe_paths(paths);
    assert_eq!(once, vec!["a/b".to_string(), "./a/b".to_string(), "/a/b".to_string()]);
    assert_eq!(dedupe_paths(once.clone()), once);
}

#[test]
fn components_follow_the_standard_library() {
    for p in ["", "/", "a", "a/b/", "a//b", "a/./b", "./a", ".", "./", "/./a", "//a", "a/..", "../a", "a/b/."] {
        let ours: Vec<String> = path_components_of(p).into_iter().map(|c| c.into_iter().collect()).collect();
        let std_components: Vec<String> = Path::new(p)
            .components()
            .map(|c| c.as_os_str().to_string_lossy().into_owned())
            .collect();
        assert_eq!(ours, std_components, "{:?}", p);
    }
}

#[test]
fn same_path_compares_like_the_standard_library() {
    for (a, b) in [("a/b", "a/b/"), ("a/b", "a//b"), ("a/b", "./a/b"), ("/a", "a"), ("a/./b", "a/b"), ("x", "y")] {
        assert_eq!(same_path(a, b), Path::new(a) == Path::new(b), "{:?} {:?}", a, b);
    }
}

#[test]
fn joins_paths_like_unix_paths() {
    assert_eq!(join_path("a", "b"), "a/b");
    assert_eq!(join_path("a/", "b"), "a/b");
    assert_eq!(join_path("", "b"), "b");
    assert_eq!(join_path("a", "/b"), "/b");
    assert_eq!(join_path("E:\\", "My Clippings.txt"), "E:\\My Clippings.txt");
    assert_eq!(join_path("e:\\", "documents"), "e:\\documents");
    assert_eq!(join_path("E:", "x"), "E:/x");
    assert_eq!(join_path("dir\\", "x"), "dir\\/x");
    for (base, part) in [("local", "my-clippings.txt"), ("/mnt", "c"), ("x/y/", "z")] {
        assert_eq!(
            PathBuf::from(join_path(base, part)),
            Path::new(base).join(part)
        );
    }
}

#[test]
fn file_names_follow_the_standard_library() {
    for p in ["/tmp/My Clippings.txt", "a/b/", "a/b/.", "a/..", "/", "", ".", "./", "name", "a//b"] {
        let ours = path_file_name(p);
        let std_name = Path::new(p).file_name().map(|n| n.to_string_lossy().into_owned());
        assert_eq!(ours, std_name, "{:?}", p);
    }
}

#[test]
fn host_platform_follows_the_order_of_checks() {
    assert_eq!(host_platform_from(true, true, true), HostPlatform::Windows);
    assert_eq!(host_platform_from(false, true, true), HostPlatform::Wsl);
    assert_eq!(host_platform_from(false, false, true), HostPlatform::MacOs);
    assert_eq!(host_platform_from(false, false, false), HostPlatform::Linux);
}
