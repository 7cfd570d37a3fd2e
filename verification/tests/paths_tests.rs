use gallery::paths::{
    clean_windows_verbatim_path, collapse_asset_roots, collect_roots, compare_paths,
    dedup_sorted_paths, destination_name, drop_nested_paths, extension, file_name, file_stem,
    is_absolute, media_path_in_roots, paths_overlap, sort_paths, split_name, starts_with_path,
    with_extension, LibPath, NameSearch, PathPart, PathPrefix,
};

fn path(text: &str) -> LibPath {
    let mut parts = Vec::new();
    if text.starts_with('/') {
        parts.push(PathPart::Root);
    }
    for piece in text.split('/').filter(|p| !p.is_empty()) {
        if piece == ".." {
            parts.push(PathPart::Parent);
        } else {
            parts.push(PathPart::Normal(piece.to_string()));
        }
    }
    LibPath { parts }
}

fn render(p: &LibPath) -> String {
    let mut out = String::new();
    for part in &p.parts {
        match part {
            PathPart::Root => out.push('/'),
            PathPart::Prefix(_) => out.push_str("<prefix>"),
            PathPart::Current => out.push('.'),
            PathPart::Parent => {
                if !out.is_empty() && !out.ends_with('/') {
                    out.push('/');
                }
                out.push_str("..");
            }
            PathPart::Normal(s) => {
                if !out.is_empty() && !out.ends_with('/') {
                    out.push('/');
                }
                out.push_str(s);
            }
        }
    }
    out
}

fn all(v: &[LibPath]) -> Vec<String> {
    v.iter().map(render).collect()
}

fn paths(texts: &[&str]) -> Vec<LibPath> {
    texts.iter().map(|t| path(t)).collect()
}

#[test]
fn paths_compare_component_by_component() {
    assert_eq!(compare_paths(&path("/a/b"), &path("/a/b")), 0);
    assert_eq!(compare_paths(&path("/a"), &path("/a/b")), -1);
    assert_eq!(compare_paths(&path("/a/c"), &path("/a/b")), 1);
    assert_eq!(compare_paths(&path("/a-b"), &path("/a/b")), 1);
    assert_eq!(compare_paths(&path("a"), &path("/a")), 1);
}

#[test]
fn prefixes_are_whole_components() {
    assert!(starts_with_path(&path("/a/b/c"), &path("/a/b")));
    assert!(starts_with_path(&path("/a/b"), &path("/a/b")));
    assert!(!starts_with_path(&path("/a/bc"), &path("/a/b")));
    assert!(paths_overlap(&path("/a"), &path("/a/b")));
    assert!(paths_overlap(&path("/a/b"), &path("/a")));
    assert!(!paths_overlap(&path("/a/b"), &path("/a/c")));
    let roots = paths(&["/photos", "/videos/2024"]);
    assert!(media_path_in_roots(&path("/videos/2024/x.mp4"), &roots));
    assert!(!media_path_in_roots(&path("/videos/2023/x.mp4"), &roots));
}

#[test]
fn sorting_and_deduplicating() {
    let sorted = sort_paths(paths(&["/c", "/a/b", "/a", "/b", "/a"]));
    assert_eq!(all(&sorted), vec!["/a", "/a", "/a/b", "/b", "/c"]);
    let unique = dedup_sorted_paths(sorted);
    assert_eq!(all(&unique), vec!["/a", "/a/b", "/b", "/c"]);
    let outer = drop_nested_paths(unique);
    assert_eq!(all(&outer), vec!["/a", "/b", "/c"]);
}

#[test]
fn roots_keep_only_outermost_directories() {
    let roots = collect_roots(paths(&["/data/photos/2024", "/data/photos", "/media", "/data/photos", "/data/photo"]));
    assert_eq!(all(&roots), vec!["/data/photo", "/data/photos", "/media"]);
    assert!(collect_roots(Vec::new()).is_empty());
}

#[test]
fn asset_roots_are_absolute_outermost_directories() {
    let roots = collapse_asset_roots(paths(&["relative/dir", "/srv/a/b", "/srv/a", "/srv/z"]), false);
    assert_eq!(all(&roots), vec!["/srv/a", "/srv/z"]);
    let roots = collapse_asset_roots(paths(&["/a/b", "/a", "rel", "/c", "/a"]), false);
    assert_eq!(all(&roots), vec!["/a", "/c"]);
    assert!(is_absolute(&path("/x"), false));
    assert!(!is_absolute(&path("x"), false));
}

fn drive(letter: char, names: &[&str]) -> LibPath {
    let mut parts = vec![PathPart::Prefix(PathPrefix::Disk(letter)), PathPart::Root];
    parts.extend(names.iter().map(|n| PathPart::Normal(n.to_string())));
    LibPath { parts }
}

#[test]
fn windows_absolute_paths_need_a_prefix_and_a_root() {
    assert!(is_absolute(&drive('C', &["windows"]), true));
    let drive_relative = LibPath { parts: vec![PathPart::Prefix(PathPrefix::Disk('C')), PathPart::Normal("temp".to_string())] };
    assert!(!is_absolute(&drive_relative, true));
    // `\temp`: rooted, but without a prefix.
    assert!(!is_absolute(&path("/temp"), true));
    let unc = LibPath { parts: vec![PathPart::Prefix(PathPrefix::Unc("server".to_string(), "share".to_string()))] };
    assert!(is_absolute(&unc, true));
    assert!(!is_absolute(&drive('C', &["x"]), false));
}

#[test]
fn windows_asset_roots_compare_parsed_prefixes() {
    // `c:\a` and `C:\a\b` parse to the same drive, so the second lies inside the first;
    // `\temp` is dropped as not absolute.
    let roots = collapse_asset_roots(vec![drive('C', &["a", "b"]), drive('C', &["a"]), path("/temp"), drive('D', &["x"])], true);
    assert_eq!(roots.len(), 2);
    assert_eq!(compare_paths(&roots[0], &drive('C', &["a"])), 0);
    assert_eq!(compare_paths(&roots[1], &drive('D', &["x"])), 0);
    let unc = LibPath { parts: vec![PathPart::Prefix(PathPrefix::Unc("s".to_string(), "t".to_string())), PathPart::Root] };
    assert_eq!(compare_paths(&unc, &drive('C', &[])), -1);
}

#[test]
fn names_stems_and_extensions() {
    let p = path("/pics/holiday.photo.JPG");
    assert_eq!(file_name(&p).map(|v| v.into_iter().collect::<String>()), Some("holiday.photo.JPG".to_string()));
    assert_eq!(file_stem(&p).map(|v| v.into_iter().collect::<String>()), Some("holiday.photo".to_string()));
    assert_eq!(extension(&p).map(|v| v.into_iter().collect::<String>()), Some("JPG".to_string()));
    let dotfile = path("/home/.bashrc");
    assert_eq!(file_stem(&dotfile).map(|v| v.into_iter().collect::<String>()), Some(".bashrc".to_string()));
    assert_eq!(extension(&dotfile), None);
    assert_eq!(file_name(&path("/")), None);
    assert_eq!(file_name(&path("/a/..")), None);
    let (stem, ext) = split_name(&"archive.tar.gz".chars().collect());
    assert_eq!(stem.into_iter().collect::<String>(), "archive.tar");
    assert_eq!(ext.map(|v| v.into_iter().collect::<String>()), Some("gz".to_string()));
}

#[test]
fn replacing_extensions() {
    assert_eq!(render(&with_extension(&path("/a/photo.png"), "jpeg")), "/a/photo.jpeg");
    assert_eq!(render(&with_extension(&path("/a/photo"), "png")), "/a/photo.png");
    assert_eq!(render(&with_extension(&path("/a/photo.png"), "")), "/a/photo");
    assert_eq!(render(&with_extension(&path("/"), "png")), "/");
}

#[test]
fn destination_names_count_up() {
    let source = path("/dupes/photo.jpg");
    assert_eq!(destination_name(&source, 0), "photo.jpg");
    assert_eq!(destination_name(&source, 1), "photo-1.jpg");
    assert_eq!(destination_name(&source, 12), "photo-12.jpg");
    let bare = path("/dupes/README");
    assert_eq!(destination_name(&bare, 2), "README-2");
    assert_eq!(destination_name(&path("/"), 0), "duplicate");
    assert_eq!(destination_name(&path("/"), 3), "duplicate-3");
}

#[test]
fn verbatim_prefixes_are_removed() {
    assert_eq!(clean_windows_verbatim_path("\\\\?\\C:\\Users\\me"), "C:\\Users\\me");
    assert_eq!(clean_windows_verbatim_path("\\\\?\\UNC\\server\\share"), "\\\\server\\share");
    assert_eq!(clean_windows_verbatim_path("C:\\plain"), "C:\\plain");
    assert_eq!(clean_windows_verbatim_path("/unix/path"), "/unix/path");
}

#[test]
fn collecting_roots_twice_changes_nothing() {
    let once = collect_roots(paths(&["/b/x", "/a", "/b", "/a/deep/er", "/c/y", "/c/x"]));
    let rendered = all(&once);
    assert_eq!(rendered, vec!["/a", "/b", "/c/x", "/c/y"]);
    let twice = collect_roots(once);
    assert_eq!(all(&twice), rendered);
}

#[test]
fn name_search_takes_the_first_free_name() {
    let source = path("/in/photo.jpg");
    let taken = ["photo.jpg", "photo-1.jpg"];
    let mut search = NameSearch::new();
    let mut tried = Vec::new();
    loop {
        let name = search.candidate(&source);
        tried.push(name.clone());
        if search.answer(taken.contains(&name.as_str())) {
            break;
        }
    }
    assert_eq!(tried, vec!["photo.jpg", "photo-1.jpg", "photo-2.jpg"]);
    assert_eq!(search.attempt, 2);
}
