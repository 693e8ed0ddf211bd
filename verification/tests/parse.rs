use skyrim_alchemy::parse_inventory;

fn names(text: &str) -> Vec<String> {
    parse_inventory(text).items.into_iter().map(|i| i.name).collect::<Vec<_>>()
}

#[test]
fn test_parse_inventory() {
    let inventory = parse_inventory(
        "
            a
            b (1)
            c (10)
        ",
    );
    assert_eq!(
        vec!["a", "b", "c"],
        inventory.items.iter().map(|i| &i.name).collect::<Vec<_>>()
    )
}

#[test]
fn parse_quantity_and_blank_lines() {
    assert_eq!(
        vec!["Blue Mountain Flower", "Void Salts"],
        names("Blue Mountain Flower (3)\n\nVoid Salts")
    );
}

#[test]
fn parse_empty_text() {
    assert_eq!(Vec::<String>::new(), names(""));
    assert_eq!(Vec::<String>::new(), names("\n\n   \n"));
}

#[test]
fn parse_strips_numeric_ends_only() {
    // digits and parentheses go from the ends, not the middle
    assert_eq!(vec!["a"], names("3a3"));
    assert_eq!(vec!["a2b"], names("(2)a2b(7)"));
}

#[test]
fn parse_trims_whitespace_after_marks() {
    // quantity characters go first, then whitespace: an annotation inside
    // trailing whitespace survives, one at the very end does not
    assert_eq!(vec!["Torchbug Thorax"], names("  Torchbug Thorax (12)"));
    assert_eq!(vec!["Torchbug Thorax (12)"], names("  Torchbug Thorax (12)  "));
}

#[test]
fn parse_keeps_line_order() {
    assert_eq!(vec!["z", "a", "m"], names("z\na\nm"));
}
