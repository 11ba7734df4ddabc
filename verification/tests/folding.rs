use pintail_exec::fold::{fold_unless_binary, locate_folded};

#[test]
fn text_folds_case_and_accents_but_binary_stays_exact() {
    assert_eq!(fold_unless_binary("CAFÉ", false), "cafe");
    assert_eq!(fold_unless_binary("Straße", false), "strasse");
    assert_eq!(fold_unless_binary("CAFÉ", true), "CAFÉ");
    assert_eq!(fold_unless_binary("", false), "");
}

#[test]
fn locate_and_instr_compare_folded_text() {
    // INSTR(haystack, needle) is LOCATE(needle, haystack, 1).
    assert_eq!(locate_folded("a", "A", 1, false), 1);
    assert_eq!(locate_folded("cafe", "CAFÉ", 1, false), 1);
    assert_eq!(locate_folded("a", "A", 1, true), 0);
    assert_eq!(locate_folded("é", "une crème", 1, false), 3);
    assert_eq!(locate_folded("è", "crème", 1, false), 3);
    assert_eq!(locate_folded("e", "une crème", 5, false), 7);
    assert_eq!(locate_folded("x", "une crème", 1, false), 0);
}
