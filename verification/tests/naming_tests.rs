use memcard_sync::MemcardError;
use memcard_sync::naming::{GameInfo, file_name, folder_key, resolve_region, slot_suffix, srm_filename};
use memcard_sync::region::RegionTable;
use memcard_sync::title::{capitalize_first, capitalize_first_letters, normalize_title};

#[test]
fn slot_digit_one_gives_empty_suffix() {
    // '1' six positions from the end: the implicit first slot.
    assert_eq!(slot_suffix("A1BCDEF"), "");
}

#[test]
fn slot_digit_zero_gives_empty_suffix() {
    // '0' six positions from the end counts as the implicit slot too.
    assert_eq!(slot_suffix("SLUS_000.01.1"), "");
}

#[test]
fn slot_digit_above_one_is_renumbered() {
    assert_eq!(slot_suffix("A2BCDEF"), ".1");
    assert_eq!(slot_suffix("A3BCDEF"), ".2");
    assert_eq!(slot_suffix("A9BCDEF"), ".8");
}

#[test]
fn slot_non_digit_gives_empty_suffix() {
    assert_eq!(slot_suffix("AXBCDEF"), "");
}

#[test]
fn slot_short_name_gives_empty_suffix() {
    assert_eq!(slot_suffix("abc"), "");
    assert_eq!(slot_suffix(""), "");
}

#[test]
fn capitalize_first_upper_cases_one_char() {
    assert_eq!(capitalize_first("final"), "Final");
    assert_eq!(capitalize_first(""), "");
    assert_eq!(capitalize_first("x"), "X");
}

#[test]
fn capitalize_first_letters_title_cases_words() {
    assert_eq!(capitalize_first_letters("final fantasy vii"), "Final Fantasy Vii");
    assert_eq!(capitalize_first_letters("  spaced   out  "), "Spaced Out");
    assert_eq!(capitalize_first_letters(""), "");
}

#[test]
fn normalize_title_lowers_then_capitalizes() {
    assert_eq!(normalize_title("FINAL FANTASY VII"), "Final Fantasy Vii");
    assert_eq!(normalize_title("wild ARMs"), "Wild Arms");
}

#[test]
fn normalize_title_is_idempotent_on_samples() {
    for t in ["FINAL FANTASY VII", "a  b c", "", "MIXED case Words"] {
        let once = normalize_title(t);
        let twice = normalize_title(once.as_str());
        assert_eq!(twice, once);
    }
}

#[test]
fn region_table_resolves_known_prefixes() {
    let table = RegionTable::new();
    assert_eq!(table.get("SLUS"), Some("(USA)".to_string()));
    assert_eq!(table.get("SLES"), Some("(Europe)".to_string()));
    assert_eq!(table.get("SLPS"), Some("(Japan)".to_string()));
}

#[test]
fn region_table_fails_unknown_prefixes() {
    let table = RegionTable::new();
    assert_eq!(table.get("ZZZZ"), None);
    assert_eq!(table.get(""), None);
}

#[test]
fn resolve_region_splits_on_first_dash() {
    let table = RegionTable::new();
    assert_eq!(resolve_region("SLUS-00001", &table), Ok("(USA)".to_string()));
    // Only the prefix before the first dash matters.
    assert_eq!(resolve_region("SLUS-99999", &table), Ok("(USA)".to_string()));
    assert_eq!(resolve_region("SLUS--", &table), Ok("(USA)".to_string()));
}

#[test]
fn resolve_region_rejects_unknown_prefix() {
    let table = RegionTable::new();
    assert_eq!(resolve_region("ZZZZ-00001", &table), Err(MemcardError::McdNameError));
}

#[test]
fn resolve_region_rejects_code_without_dash() {
    let table = RegionTable::new();
    assert_eq!(resolve_region("SLUS", &table), Err(MemcardError::McdNameError));
}

#[test]
fn folder_key_is_parent_directory_name() {
    assert_eq!(folder_key("mc/PS1/SLUS-00001/file.bin"), "SLUS-00001");
    assert_eq!(folder_key("a/b"), "a");
    assert_eq!(folder_key("lonely"), "");
}

#[test]
fn file_name_is_last_component() {
    assert_eq!(file_name("mc/PS1/SLUS-00001/file.bin"), "file.bin");
    assert_eq!(file_name("lonely"), "lonely");
}

#[test]
fn srm_filename_synthesizes_title_region_slot() {
    let table = RegionTable::new();
    let info = GameInfo {
        code: "SLUS-00001".to_string(),
        title: "final fantasy vii".to_string(),
        lang: "english".to_string(),
    };
    assert_eq!(
        srm_filename(&info, "SLUS_000.01.1", &table),
        Ok("Final Fantasy Vii (USA).srm".to_string())
    );
    assert_eq!(
        srm_filename(&info, "SAVE30.mcd", &table),
        Ok("Final Fantasy Vii (USA).2.srm".to_string())
    );
}

#[test]
fn srm_filename_rejects_unknown_region() {
    let table = RegionTable::new();
    let info = GameInfo {
        code: "ZZZZ-00001".to_string(),
        title: "mystery".to_string(),
        lang: "english".to_string(),
    };
    assert_eq!(srm_filename(&info, "SAVE10.mcd", &table), Err(MemcardError::McdNameError));
}

#[test]
fn error_messages_name_the_failure() {
    assert_eq!(
        MemcardError::McdNameError.message(),
        "mcd file doesn't match expected naming convention"
    );
    assert_eq!(MemcardError::UnresolvedRecord.message(), "no dataset record for lookup key");
}
