use memcard_sync::MemcardError;
use memcard_sync::db::{convert, get_info, mcd_to_srm};
use memcard_sync::locate::{FileEntry, FolderEntry};
use memcard_sync::region::RegionTable;

fn open_dataset() -> sqlite::Connection {
    let conn = sqlite::open(":memory:").unwrap();
    conn.execute("CREATE TABLE ps1 (code TEXT, title TEXT, language TEXT)").unwrap();
    conn.execute("INSERT INTO ps1 VALUES ('SLUS-00001', 'final fantasy vii', 'english')").unwrap();
    conn.execute("INSERT INTO ps1 VALUES ('ZZZZ-00001', 'mystery title', 'english')").unwrap();
    conn
}

fn game_folder(name: &str, files: Vec<&str>) -> FolderEntry {
    FolderEntry {
        name: name.to_string(),
        is_dir: true,
        files: files
            .into_iter()
            .map(|n| FileEntry { name: n.to_string(), is_file: true })
            .collect(),
    }
}

#[test]
fn get_info_reports_unusable_dataset() {
    // a dataset without the ps1 table cannot be queried
    let conn = sqlite::open(":memory:").unwrap();
    assert_eq!(get_info("SLUS-00001", &conn), Err(MemcardError::DatasetError));
}

#[test]
fn get_info_finds_matching_record() {
    let conn = open_dataset();
    let info = get_info("SLUS-00001", &conn).unwrap().unwrap();
    assert_eq!(info.code, "SLUS-00001");
    assert_eq!(info.title, "final fantasy vii");
    assert_eq!(info.lang, "english");
}

#[test]
fn get_info_answers_nothing_for_absent_key() {
    let conn = open_dataset();
    assert!(get_info("SLPS-77777", &conn).unwrap().is_none());
}

#[test]
fn mcd_to_srm_plans_one_copy() {
    let conn = open_dataset();
    let table = RegionTable::new();
    let action = mcd_to_srm("mc/PS1/SLUS-00001/SLUS_000.01.1", &conn, &table, "out").unwrap();
    assert_eq!(action.source, "mc/PS1/SLUS-00001/SLUS_000.01.1");
    assert_eq!(action.dest, "out/Final Fantasy Vii (USA).srm");
}

#[test]
fn convert_plans_whole_tree_in_order() {
    let conn = open_dataset();
    let table = RegionTable::new();
    let entries = vec![game_folder("SLUS-00001", vec!["SLUS_000.01.1", "SAVE30.mcd"])];
    let actions = convert("mc", &entries, &conn, &table, "out").unwrap();
    assert_eq!(actions.len(), 2);
    // ascending path order: "SAVE30.mcd" sorts before "SLUS_000.01.1"
    assert_eq!(actions[0].source, "mc/PS1/SLUS-00001/SAVE30.mcd");
    assert_eq!(actions[0].dest, "out/Final Fantasy Vii (USA).2.srm");
    assert_eq!(actions[1].source, "mc/PS1/SLUS-00001/SLUS_000.01.1");
    assert_eq!(actions[1].dest, "out/Final Fantasy Vii (USA).srm");
}

#[test]
fn convert_aborts_on_unresolved_key() {
    let conn = open_dataset();
    let table = RegionTable::new();
    let entries = vec![game_folder("SLPS-99999", vec!["SAVE10.mcd"])];
    assert_eq!(
        convert("mc", &entries, &conn, &table, "out"),
        Err(MemcardError::UnresolvedRecord)
    );
}

#[test]
fn convert_aborts_on_unknown_region_prefix() {
    let conn = open_dataset();
    let table = RegionTable::new();
    let entries = vec![game_folder("ZZZZ-00001", vec!["SAVE10.mcd"])];
    assert_eq!(convert("mc", &entries, &conn, &table, "out"), Err(MemcardError::McdNameError));
}

#[test]
fn convert_stops_at_first_failure() {
    let conn = open_dataset();
    let table = RegionTable::new();
    // "AAAA-0" sorts before "SLUS-00001": the unresolved folder aborts the run
    let entries = vec![
        game_folder("SLUS-00001", vec!["SAVE10.mcd"]),
        game_folder("AAAA-0", vec!["SAVE10.mcd"]),
    ];
    assert_eq!(
        convert("mc", &entries, &conn, &table, "out"),
        Err(MemcardError::UnresolvedRecord)
    );
}

#[test]
fn convert_of_empty_listing_plans_nothing() {
    let conn = open_dataset();
    let table = RegionTable::new();
    let entries: Vec<FolderEntry> = Vec::new();
    let actions = convert("mc", &entries, &conn, &table, "out").unwrap();
    assert!(actions.is_empty());
}
