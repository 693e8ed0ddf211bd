use skyrim_alchemy::RecipeKind;

#[test]
fn classify_restore_keywords() {
    assert_eq!(RecipeKind::Restore, RecipeKind::from("Restore Health"));
    assert_eq!(RecipeKind::Restore, RecipeKind::from("Regenerate Magicka"));
    assert_eq!(RecipeKind::Restore, RecipeKind::from("Resist Fire"));
}

#[test]
fn classify_fortify_keyword() {
    assert_eq!(RecipeKind::Fortify, RecipeKind::from("Fortify Smithing"));
}

#[test]
fn classify_harm_keywords() {
    assert_eq!(RecipeKind::Harm, RecipeKind::from("Fire Damage"));
    assert_eq!(RecipeKind::Harm, RecipeKind::from("Ravage Stamina"));
    assert_eq!(RecipeKind::Harm, RecipeKind::from("Weakness to Magic"));
}

#[test]
fn classify_unknown_is_other() {
    assert_eq!(RecipeKind::Other, RecipeKind::from("Invisibility"));
    assert_eq!(RecipeKind::Other, RecipeKind::from(""));
}

#[test]
fn classify_first_match_wins() {
    // "Restore" is checked before "Fortify" in the fixed table order
    assert_eq!(RecipeKind::Restore, RecipeKind::from("Fortify Restore Health"));
    // "Damage" loses to "Restore" as well
    assert_eq!(RecipeKind::Restore, RecipeKind::from("Restore Damage"));
}

#[test]
fn classify_is_case_sensitive() {
    assert_eq!(RecipeKind::Other, RecipeKind::from("restore health"));
}
