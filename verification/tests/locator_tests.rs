use memcard_sync::locate::{FileEntry, FolderEntry, find_mcds, sort_paths};

fn folder(name: &str, is_dir: bool, files: Vec<(&str, bool)>) -> FolderEntry {
    FolderEntry {
        name: name.to_string(),
        is_dir,
        files: files
            .into_iter()
            .map(|(n, f)| FileEntry { name: n.to_string(), is_file: f })
            .collect(),
    }
}

#[test]
fn sort_paths_orders_lexicographically() {
    let v = vec!["b".to_string(), "a/x".to_string(), "a".to_string(), "b".to_string()];
    assert_eq!(sort_paths(v), vec!["a", "a/x", "b", "b"]);
}

#[test]
fn find_mcds_collects_and_sorts_union_of_game_folders() {
    let entries = vec![
        folder("SLUS-00002", true, vec![("z.mcd", true), ("a.mcd", true)]),
        folder("SLUS-00001", true, vec![("save.mcd", true)]),
    ];
    let got = find_mcds("mc/PS1", &entries);
    assert_eq!(
        got,
        vec![
            "mc/PS1/SLUS-00001/save.mcd",
            "mc/PS1/SLUS-00002/a.mcd",
            "mc/PS1/SLUS-00002/z.mcd",
        ]
    );
}

#[test]
fn find_mcds_excludes_reserved_folders() {
    let entries = vec![
        folder("MemoryCard1", true, vec![("raw.bin", true)]),
        folder("SLUS-00001", true, vec![("save.mcd", true)]),
        folder("AMemoryCardB", true, vec![("other.bin", true)]),
    ];
    let got = find_mcds("mc/PS1", &entries);
    assert_eq!(got, vec!["mc/PS1/SLUS-00001/save.mcd"]);
}

#[test]
fn find_mcds_skips_non_directories_and_non_files() {
    let entries = vec![
        // a plain file beside the game folders: not a game folder
        folder("notes.txt", false, vec![("ignored", true)]),
        // a subdirectory inside a game folder is skipped silently
        folder("SLUS-00001", true, vec![("nested", false), ("save.mcd", true)]),
    ];
    let got = find_mcds("mc/PS1", &entries);
    assert_eq!(got, vec!["mc/PS1/SLUS-00001/save.mcd"]);
}

#[test]
fn find_mcds_empty_listing_gives_empty_sequence() {
    let entries: Vec<FolderEntry> = Vec::new();
    let got = find_mcds("mc/PS1", &entries);
    assert!(got.is_empty());
}
