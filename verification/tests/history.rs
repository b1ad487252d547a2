//! The history of a file.
use polaris::history::{
    already_kept, extension_of, free_moment, history_dir, join_path, keep_steps, name_of,
    name_version, new_moment, read_version, restore_steps, same_bytes, versions_among,
    versions_to_prune, Step, Version, MAX_VERSIONS,
};
use std::path::Path;

#[test]
fn history_dir_is_sibling_of_file() {
    assert_eq!(history_dir("/a/b/c.docx"), "/a/b/c.docx.versions");
}

fn version(millis: u64) -> Version {
    Version { path: format!("/h/{millis:013}.docx"), millis }
}

#[test]
fn paths_are_taken_apart_as_std_does() {
    let paths = [
        "/a/b/c.docx", "c.docx", "./c.docx", "a/b", "a/b/", "/a//b.tar.gz", "/a/.hidden", "/a/.hidden.txt",
        "/a/b.", "名/文档.docx", "/", "", "..", "a/..", "/a/b/.", "/a/b/./", "a/./b.x",
    ];
    for p in paths {
        let path = Path::new(p);
        let name = path.file_name().map(|n| n.to_string_lossy().to_string());
        assert_eq!(name_of(p), name, "{p:?}");
        let ext = path
            .extension()
            .map(|e| format!(".{}", e.to_string_lossy()))
            .unwrap_or_default();
        assert_eq!(extension_of(p), ext, "{p:?}");
        let mut side = path.file_name().unwrap_or_default().to_os_string();
        side.push(".versions");
        assert_eq!(Path::new(&history_dir(p)), path.with_file_name(side), "{p:?}");
        assert_eq!(Path::new(&join_path(p, "x.y")), path.join("x.y"), "{p:?}");
    }
}

#[test]
fn version_names_are_padded_and_read_back() {
    assert_eq!(name_version(7, ".docx"), "0000000000007.docx");
    assert_eq!(name_version(1700000000000, ""), "1700000000000");
    assert_eq!(name_version(u64::MAX, ".x"), "18446744073709551615.x");
    for millis in [0, 7, 999, 1700000000000, u64::MAX] {
        let path = join_path("/h", &name_version(millis, ".docx"));
        assert_eq!(read_version(&path), Some(Version { path: path.clone(), millis }));
    }
    for stray in ["/h/note.txt", "/h/.docx", "/h/12a.docx", "/h/-5.docx"] {
        assert_eq!(read_version(stray), None);
    }
    assert_eq!(read_version("/h/+5.docx").map(|v| v.millis), Some(5));
}

#[test]
fn names_sort_as_their_times_do() {
    let early = name_version(999_999_999_999, ".docx");
    let late = name_version(1_700_000_000_000, ".docx");
    assert!(early < late);
}

#[test]
fn versions_are_listed_newest_first_and_strays_left_out() {
    let paths: Vec<String> =
        ["/h/0000000000005.docx", "/h/note.txt", "/h/0000000000009.docx", "/h/0000000000007.docx"]
            .iter()
            .map(|p| p.to_string())
            .collect();
    let millis: Vec<u64> = versions_among(&paths).iter().map(|v| v.millis).collect();
    assert_eq!(millis, [9, 7, 5]);
    assert!(versions_among(&vec![]).is_empty());
    let tie: Vec<String> = vec!["/h/5.a".to_string(), "/h/5.b".to_string()];
    let kept: Vec<String> = versions_among(&tie).into_iter().map(|v| v.path).collect();
    assert_eq!(kept, tie);
}

#[test]
fn pruning_takes_the_oldest_and_keep_nothing_means_keep_all() {
    let list: Vec<Version> = [9, 7, 5, 3].iter().map(|m| version(*m)).collect();
    assert_eq!(versions_to_prune(&list, 2), vec![version(5), version(3)]);
    assert_eq!(versions_to_prune(&list, 1), vec![version(7), version(5), version(3)]);
    assert!(versions_to_prune(&list, 4).is_empty());
    assert!(versions_to_prune(&list, 9).is_empty());
    assert!(versions_to_prune(&list, 0).is_empty());
    assert_eq!(MAX_VERSIONS, 50);
}

#[test]
fn a_new_version_never_takes_a_name_that_is_taken() {
    let taken = vec![name_version(10, ".docx"), name_version(11, ".docx"), name_version(13, ".docx")];
    assert_eq!(free_moment(9, ".docx", &taken), Some(9));
    assert_eq!(free_moment(10, ".docx", &taken), Some(12));
    assert_eq!(free_moment(13, ".docx", &taken), Some(14));
    assert_eq!(free_moment(10, ".txt", &taken), Some(10));
    let last = vec![name_version(u64::MAX, "")];
    assert_eq!(free_moment(u64::MAX, "", &last), None);
}

#[test]
fn content_that_is_kept_is_not_kept_again() {
    let current = b"abc".to_vec();
    assert!(!already_kept(&current, &vec![]));
    assert!(!already_kept(&current, &vec![None, Some(b"abd".to_vec()), Some(b"ab".to_vec())]));
    assert!(already_kept(&current, &vec![None, Some(b"abc".to_vec())]));
    assert!(same_bytes(&vec![], &vec![]));
    assert!(!same_bytes(&vec![1, 2], &vec![2, 1]));
}

#[test]
fn a_stored_version_is_later_than_all_others() {
    let taken = vec![name_version(20, ".docx"), name_version(12, ".docx"), "note.txt".to_string()];
    let list = vec![version(20), version(12)];
    assert_eq!(new_moment(15, ".docx", &taken, &list), Some(21));
    assert_eq!(new_moment(30, ".docx", &taken, &list), Some(30));
    assert_eq!(new_moment(15, ".docx", &taken, &vec![]), Some(15));
    assert_eq!(new_moment(20, ".docx", &taken, &vec![]), Some(21));
    assert_eq!(new_moment(0, ".docx", &vec![], &vec![version(u64::MAX)]), None);

    // Stored under that moment it heads the list, so pruning spares it.
    let mut paths: Vec<String> = taken.iter().map(|n| join_path("/h", n)).collect();
    paths.insert(1, join_path("/h", &name_version(21, ".docx")));
    let listed = versions_among(&paths);
    assert_eq!(listed[0].millis, 21);
    assert!(versions_to_prune(&listed, 1).iter().all(|v| v.millis < 21));
}

#[test]
fn a_listing_after_pruning_holds_the_newest() {
    let paths: Vec<String> = ["0000000000005.docx", "note.txt", "0000000000009.docx", "0000000000007.docx"]
        .iter()
        .map(|n| join_path("/h", n))
        .collect();
    for keep in 0..5 {
        let before = versions_among(&paths);
        let gone = versions_to_prune(&before, keep);
        // Whatever the order in which a directory is read.
        let rest: Vec<String> = paths
            .iter()
            .rev()
            .filter(|p| !gone.iter().any(|v| v.path == **p))
            .cloned()
            .collect();
        assert!(rest.contains(&"/h/note.txt".to_string()));
        let after = versions_among(&rest);
        let stay = if keep == 0 { before.len() } else { keep.min(before.len()) };
        assert_eq!(after, before[..stay]);
        assert_eq!(gone.len(), before.len() - stay);
        assert!(versions_to_prune(&after, keep).is_empty());
    }
}

#[test]
fn going_back_keeps_first_and_prunes_last() {
    assert_eq!(
        restore_steps("/h/1.docx", true, false),
        Ok(vec![Step::Keep, Step::Copy, Step::Prune])
    );
    assert_eq!(restore_steps("/h/1.docx", true, true), Ok(vec![Step::Copy]));
    for kept in [false, true] {
        assert_eq!(
            restore_steps("/nonexistent/0000000000000.docx", false, kept),
            Err("版本不存在: /nonexistent/0000000000000.docx".to_string())
        );
    }
    assert_eq!(keep_steps(false), vec![Step::Keep, Step::Prune]);
    assert!(keep_steps(true).is_empty());
}
