use gallery::library::{
    check_dedupe_destination, column_width_to_save, config_value_or, dedupe_pairs, dedupe_size_scan,
    display_path, duplicate_groups, extension_repair, images_need_migration, page_limit,
    page_of_records, path_input, points_to_app_dir, source_paths_changed,
    source_paths_need_migration, start_thumbnail_generation, thumbnail_location,
    thumbnail_usable, walk_step, DedupeTally, HashedFile, MediaWalk, PairOutcome, RawImageRecord, RepairAction, ThumbnailOutcome,
    ThumbnailProgress, WalkStep, DEDUPE_MAX_FILE_SIZE,
};
use gallery::media::ImageFormatKind;
use gallery::paths::{LibPath, PathPart};

fn path(text: &str) -> LibPath {
    let mut parts = Vec::new();
    if text.starts_with('/') {
        parts.push(PathPart::Root);
    }
    for piece in text.split('/').filter(|p| !p.is_empty()) {
        parts.push(PathPart::Normal(piece.to_string()));
    }
    LibPath { parts }
}

fn render(p: &LibPath) -> String {
    let mut out = String::new();
    for part in &p.parts {
        match part {
            PathPart::Root => out.push('/'),
            PathPart::Normal(s) => {
                if !out.is_empty() && !out.ends_with('/') {
                    out.push('/');
                }
                out.push_str(s);
            }
            other => out.push_str(&format!("{other:?}")),
        }
    }
    out
}

fn record(path: &str, media_type: &str, modified: i64) -> RawImageRecord {
    RawImageRecord {
        path: path.to_string(),
        media_type: media_type.to_string(),
        width: 10,
        height: 20,
        modified,
        size: 30,
    }
}

#[test]
fn page_limit_is_clamped() {
    assert_eq!(page_limit(0), 1);
    assert_eq!(page_limit(-5), 1);
    assert_eq!(page_limit(50), 50);
    assert_eq!(page_limit(121), 120);
    assert_eq!(page_limit(i64::MAX), 120);
}

#[test]
fn page_keeps_the_limit_and_points_past_the_last_record() {
    let rows = vec![record("/a", "image", 3), record("/b", "image", 2), record("/c", "video", 1)];
    let (page, cursor) = page_of_records(rows, 2);
    assert_eq!(page.len(), 2);
    assert_eq!(page[1].path, "/b");
    let cursor = cursor.expect("more rows remain");
    assert_eq!(cursor.modified, 2);
    assert_eq!(cursor.path, "/b");
}

#[test]
fn last_page_has_no_cursor() {
    let rows = vec![record("/a", "image", 3), record("/b", "image", 2)];
    let (page, cursor) = page_of_records(rows, 2);
    assert_eq!(page.len(), 2);
    assert!(cursor.is_none());
    let (empty, none) = page_of_records(Vec::new(), 10);
    assert!(empty.is_empty());
    assert!(none.is_none());
}

#[test]
fn images_show_their_thumbnail() {
    let image = record("/pics/a.png", "image", 1);
    let video = record("/clips/b.mp4", "video", 1);
    assert_eq!(display_path(&image, Some("/thumbs/ab/abc.jpg".to_string())), "/thumbs/ab/abc.jpg");
    assert_eq!(display_path(&image, None), "/pics/a.png");
    assert_eq!(display_path(&video, Some("/thumbs/x.jpg".to_string())), "/clips/b.mp4");
}

#[test]
fn thumbnails_outside_their_directory_are_not_used() {
    assert!(thumbnail_usable(&path("/thumbs/ab/abc.jpg"), &path("/thumbs"), true));
    assert!(!thumbnail_usable(&path("/thumbs/ab/abc.jpg"), &path("/thumbs"), false));
    assert!(!thumbnail_usable(&path("/elsewhere/abc.jpg"), &path("/thumbs"), true));
    assert!(!thumbnail_usable(&path("/thumbsx/abc.jpg"), &path("/thumbs"), true));
}

#[test]
fn thumbnail_cache_layout() {
    assert_eq!(thumbnail_location("abcdef"), ("ab".to_string(), "abcdef.jpg".to_string()));
    assert_eq!(thumbnail_location("a"), ("00".to_string(), "a.jpg".to_string()));
}

#[test]
fn progress_of_a_thumbnail_run() {
    let mut progress = ThumbnailProgress::initial();
    assert!(!progress.running);
    assert_eq!(progress.stage, "idle");
    progress.start();
    assert!(progress.running);
    assert_eq!(progress.message, "生成缩略图中...");
    progress.set_total(3);
    assert_eq!(progress.message, "生成缩略图 0/3");
    progress.record(ThumbnailOutcome::Generated);
    assert_eq!(progress.message, "生成缩略图 1/3");
    progress.record(ThumbnailOutcome::Reused);
    assert_eq!(progress.message, "复用缩略图 2/3");
    progress.record(ThumbnailOutcome::Failed);
    assert_eq!(progress.message, "跳过失败资源 3/3");
    assert_eq!((progress.processed, progress.generated, progress.skipped), (3, 1, 2));
    assert_eq!(progress.processed, progress.generated + progress.skipped);
    progress.finish();
    assert_eq!(progress.processed, progress.total);
    assert!(!progress.running);
    assert_eq!(progress.stage, "done");
    assert_eq!(progress.message, "缩略图完成：生成 1 个，复用/跳过 2 个");
}

#[test]
fn failed_thumbnail_run_reports_its_error() {
    let mut progress = ThumbnailProgress::initial();
    progress.start();
    progress.fail("disk full".to_string());
    assert!(!progress.running);
    assert_eq!(progress.stage, "error");
    assert_eq!(progress.error, "disk full");
    assert_eq!(progress.message, "disk full");
}

#[test]
fn thumbnail_generation_is_disabled() {
    assert_eq!(start_thumbnail_generation(), Err("缩略图生成已禁用".to_string()));
}

#[test]
fn size_pass_picks_files_sharing_a_size() {
    let sizes = vec![Some(10), Some(20), Some(10), None, Some(0), Some(20), Some(30)];
    let scan = dedupe_size_scan(&sizes, DEDUPE_MAX_FILE_SIZE);
    assert_eq!(scan.checked, 5);
    assert_eq!(scan.skipped, 2);
    assert_eq!(scan.candidates, vec![0, 1, 2, 5]);
}

#[test]
fn size_pass_skips_files_over_the_limit() {
    let sizes = vec![Some(100), Some(100), Some(5), Some(5)];
    let scan = dedupe_size_scan(&sizes, 50);
    assert_eq!(scan.checked, 2);
    assert_eq!(scan.skipped, 2);
    assert_eq!(scan.candidates, vec![2, 3]);
}

#[test]
fn files_group_by_size_and_hash() {
    let files = vec![
        HashedFile { size: 10, hash: 1, path: path("/a/one.jpg") },
        HashedFile { size: 10, hash: 2, path: path("/a/two.jpg") },
        HashedFile { size: 10, hash: 1, path: path("/b/one.jpg") },
    ];
    let groups = duplicate_groups(&files);
    assert_eq!(groups.len(), 1);
    let first = groups.iter().find(|g| g.hash == 1).expect("group of hash 1");
    let mut members: Vec<String> = first.paths.iter().map(render).collect();
    members.sort();
    assert_eq!(members, vec!["/a/one.jpg".to_string(), "/b/one.jpg".to_string()]);
    assert!(groups.iter().all(|g| g.hash != 2));
}

#[test]
fn duplicate_destination_may_not_overlap_a_root() {
    let roots = vec![path("/photos"), path("/videos")];
    assert_eq!(check_dedupe_destination(&roots, Some(&path("/dupes"))), Ok(()));
    assert_eq!(
        check_dedupe_destination(&roots, Some(&path("/photos/dupes"))),
        Err("重复项目录不能与资源路径重叠".to_string())
    );
    assert_eq!(
        check_dedupe_destination(&roots, Some(&path("/"))),
        Err("重复项目录不能与资源路径重叠".to_string())
    );
    assert_eq!(check_dedupe_destination(&roots, None), Err("Invalid duplicate destination".to_string()));
}

#[test]
fn repair_renames_to_the_detected_format() {
    match extension_repair(&path("/pics/photo.png"), Some(ImageFormatKind::Jpeg)) {
        RepairAction::Rename(p) => assert_eq!(render(&p), "/pics/photo.jpeg"),
        other => panic!("unexpected {other:?}"),
    }
    match extension_repair(&path("/pics/photo"), Some(ImageFormatKind::Png)) {
        RepairAction::Rename(p) => assert_eq!(render(&p), "/pics/photo.png"),
        other => panic!("unexpected {other:?}"),
    }
    assert!(matches!(extension_repair(&path("/pics/photo.JPG"), Some(ImageFormatKind::Jpeg)), RepairAction::Keep));
    assert!(matches!(extension_repair(&path("/pics/photo.tif"), Some(ImageFormatKind::Tiff)), RepairAction::Keep));
    assert!(matches!(extension_repair(&path("/pics/photo.png"), None), RepairAction::Skip));
    assert!(matches!(extension_repair(&path("/pics/photo.png"), Some(ImageFormatKind::Other)), RepairAction::Skip));
}

#[test]
fn walk_decisions() {
    assert_eq!(walk_step(true, true, false, false, false), WalkStep::Descend);
    assert_eq!(walk_step(true, false, false, false, true), WalkStep::Skip);
    assert_eq!(walk_step(false, false, true, true, false), WalkStep::Media);
    assert_eq!(walk_step(false, false, false, true, true), WalkStep::Skip);
    assert_eq!(walk_step(false, false, true, false, false), WalkStep::Ignore);
}

#[test]
fn schema_migration_checks() {
    let cols = |names: &[&str]| names.iter().map(|s| s.to_string()).collect::<Vec<_>>();
    assert!(source_paths_need_migration(&cols(&["path"])));
    assert!(!source_paths_need_migration(&cols(&["id", "path"])));
    assert!(!images_need_migration(&cols(&["id", "path", "media_type"])));
    assert!(images_need_migration(&cols(&["id", "path", "media_type", "source_path"])));
    assert!(images_need_migration(&cols(&["id", "path"])));
    assert!(images_need_migration(&cols(&["path", "media_type"])));
}

#[test]
fn settings_helpers() {
    assert_eq!(config_value_or(Some("x".to_string()), "d"), "x");
    assert_eq!(config_value_or(None, "d"), "d");
    assert_eq!(path_input("  /data/pics  "), Some("/data/pics".to_string()));
    assert_eq!(path_input("   "), None);
    assert!(points_to_app_dir(&path("/app"), None, &path("/app")));
    assert!(points_to_app_dir(&path("/link"), Some(&path("/app")), &path("/app")));
    assert!(!points_to_app_dir(&path("/other"), Some(&path("/other")), &path("/app")));
    assert_eq!(column_width_to_save(50), 100);
    assert_eq!(column_width_to_save(250), 250);
    assert_eq!(column_width_to_save(900), 600);
}

#[test]
fn source_path_changes() {
    let v = |names: &[&str]| names.iter().map(|s| s.to_string()).collect::<Vec<_>>();
    assert!(!source_paths_changed(&v(&["/a", "/b"]), &v(&["/a", "/b"])));
    assert!(source_paths_changed(&v(&["/b", "/a"]), &v(&["/a", "/b"])));
    assert!(source_paths_changed(&v(&["/a"]), &v(&["/a", "/b"])));
    assert!(!source_paths_changed(&v(&[]), &v(&[])));
}

#[test]
fn directory_walk_lists_each_directory_once() {
    let mut walk = MediaWalk::new(&path("/lib"));
    let root = walk.next_directory().expect("the root");
    assert_eq!(render(&root), "/lib");
    assert!(walk.enter(Some(&path("/lib"))));
    assert!(walk.entry(path("/lib/sub"), true, true, false, false, false).is_none());
    assert!(walk.entry(path("/lib/link"), true, false, false, false, true).is_none());
    let media = walk.entry(path("/lib/a.jpg"), false, false, true, true, false).expect("media");
    assert_eq!(render(&media), "/lib/a.jpg");
    assert!(walk.entry(path("/lib/notes.txt"), false, false, true, false, false).is_none());
    assert_eq!(walk.skipped, 1);
    let sub = walk.next_directory().expect("the subdirectory");
    assert_eq!(render(&sub), "/lib/sub");
    // The subdirectory resolves to the root again: it is not listed twice.
    assert!(!walk.enter(Some(&path("/lib"))));
    assert!(!walk.enter(None));
    assert_eq!(walk.skipped, 2);
    walk.skip();
    assert_eq!(walk.skipped, 3);
    assert!(walk.next_directory().is_none());
    assert_eq!(walk.visited.len(), 1);
}

#[test]
fn each_group_is_compared_with_its_kept_file() {
    let files = vec![
        HashedFile { size: 10, hash: 1, path: path("/b/one.jpg") },
        HashedFile { size: 10, hash: 1, path: path("/a/one.jpg") },
        HashedFile { size: 20, hash: 7, path: path("/c/x.png") },
        HashedFile { size: 10, hash: 1, path: path("/c/one.jpg") },
        HashedFile { size: 20, hash: 7, path: path("/a/x.png") },
        HashedFile { size: 30, hash: 3, path: path("/a/lone.png") },
    ];
    let pairs = dedupe_pairs(&duplicate_groups(&files));
    let mut rendered: Vec<(String, String)> = pairs.iter().map(|(k, s)| (render(k), render(s))).collect();
    rendered.sort();
    assert_eq!(
        rendered,
        vec![
            ("/a/one.jpg".to_string(), "/b/one.jpg".to_string()),
            ("/a/one.jpg".to_string(), "/c/one.jpg".to_string()),
            ("/a/x.png".to_string(), "/c/x.png".to_string()),
        ]
    );
    assert!(pairs.len() + 2 <= files.len());
}

#[test]
fn dedupe_tally_counts_outcomes() {
    let mut tally = DedupeTally::new(6, 4);
    tally.record(PairOutcome::Moved);
    tally.record(PairOutcome::MoveFailed);
    tally.record(PairOutcome::Differs);
    tally.record(PairOutcome::CompareFailed);
    assert_eq!((tally.checked, tally.duplicates, tally.moved, tally.skipped, tally.pending), (6, 2, 1, 2, 0));
    assert!(tally.moved <= tally.duplicates && tally.duplicates <= tally.checked);
}
