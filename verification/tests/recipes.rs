use skyrim_alchemy::{
    parse_inventory, AlchemyData, AlchemyDataIndexes, Effect, Ingredient, Inventory,
    InventoryItem, Recipe, RecipeKind, Search, SearchTerm, Weight,
};

fn ing(name: &str, effects: &[&str], value: u32) -> Ingredient {
    Ingredient {
        name: name.to_string(),
        effects: effects.iter().map(|s| s.to_string()).collect(),
        obtained: String::new(),
        value,
        weight: Weight { unscaled: 25, scale: 2 },
    }
}

fn eff(name: &str, value: u32) -> Effect {
    Effect { effect: name.to_string(), value }
}

fn inv(names: &[&str]) -> Inventory {
    Inventory {
        items: names.iter().map(|n| InventoryItem { name: n.to_string() }).collect(),
    }
}

fn fire_catalog() -> AlchemyData {
    AlchemyData {
        ingredients: vec![
            ing("A", &["Fire Damage"], 1),
            ing("B", &["Fire Damage"], 2),
            ing("C", &["Fire Damage"], 3),
        ],
        effects: vec![eff("Fire Damage", 50)],
    }
}

fn recipes(data: &AlchemyData, names: &[&str], search: &SearchTerm) -> Vec<Recipe> {
    let index = AlchemyDataIndexes::new(data);
    index.find_recipes(&inv(names), search)
}

#[test]
fn two_owned_ingredients_make_a_recipe() {
    let data = fire_catalog();
    let out = recipes(&data, &["A", "B"], &SearchTerm::All);
    assert_eq!(1, out.len());
    assert_eq!("Fire Damage", out[0].effect);
    assert_eq!(50, out[0].value);
    assert_eq!(vec!["A", "B"], out[0].ingredients);
    assert_eq!(RecipeKind::Harm, out[0].kind);
}

#[test]
fn one_owned_ingredient_makes_nothing() {
    let data = fire_catalog();
    assert_eq!(0, recipes(&data, &["A"], &SearchTerm::All).len());
}

#[test]
fn three_owned_ingredients_make_one_recipe() {
    let data = fire_catalog();
    let out = recipes(&data, &["A", "B", "C"], &SearchTerm::All);
    assert_eq!(1, out.len());
    assert_eq!(vec!["A", "B", "C"], out[0].ingredients);
}

#[test]
fn unknown_inventory_names_are_dropped() {
    let data = fire_catalog();
    let out = recipes(&data, &["A", "Sweetroll", "B"], &SearchTerm::All);
    assert_eq!(1, out.len());
    assert_eq!(vec!["A", "B"], out[0].ingredients);
}

#[test]
fn duplicate_inventory_names_count_once() {
    let data = fire_catalog();
    assert_eq!(0, recipes(&data, &["A", "A"], &SearchTerm::All).len());
    let out = recipes(&data, &["A", "A", "B"], &SearchTerm::All);
    assert_eq!(1, out.len());
    assert_eq!(vec!["A", "B"], out[0].ingredients);
}

#[test]
fn dangling_effect_names_are_skipped() {
    let data = AlchemyData {
        ingredients: vec![
            ing("A", &["Fire Damage", "Ghost Glow"], 1),
            ing("B", &["Fire Damage"], 2),
        ],
        effects: vec![eff("Fire Damage", 50)],
    };
    let out = recipes(&data, &["A", "B"], &SearchTerm::All);
    assert_eq!(1, out.len());
    assert_eq!("Fire Damage", out[0].effect);
}

#[test]
fn repeated_effect_name_in_one_ingredient_counts_once() {
    let data = AlchemyData {
        ingredients: vec![
            ing("A", &["Fire Damage", "Fire Damage"], 1),
            ing("B", &["Fire Damage"], 2),
        ],
        effects: vec![eff("Fire Damage", 50)],
    };
    let out = recipes(&data, &["A", "B"], &SearchTerm::All);
    assert_eq!(1, out.len());
    assert_eq!(vec!["A", "B"], out[0].ingredients);
}

#[test]
fn recipes_sort_by_value_then_name() {
    let data = AlchemyData {
        ingredients: vec![
            ing("A", &["Zeta Damage", "Alpha Damage", "Mid Damage"], 1),
            ing("B", &["Zeta Damage", "Alpha Damage", "Mid Damage"], 2),
        ],
        effects: vec![eff("Zeta Damage", 50), eff("Alpha Damage", 50), eff("Mid Damage", 80)],
    };
    let out = recipes(&data, &["A", "B"], &SearchTerm::All);
    let order: Vec<&str> = out.iter().map(|r| r.effect.as_str()).collect();
    assert_eq!(vec!["Mid Damage", "Alpha Damage", "Zeta Damage"], order);
    assert_eq!(vec![80, 50, 50], out.iter().map(|r| r.value).collect::<Vec<_>>());
}

#[test]
fn search_is_case_insensitive_on_effect_names() {
    let data = fire_catalog();
    let out = recipes(&data, &["A", "B"], &SearchTerm::Any("FIRE".to_string()));
    assert_eq!(1, out.len());
    assert_eq!(0, recipes(&data, &["A", "B"], &SearchTerm::Any("frost".to_string())).len());
}

#[test]
fn search_matches_ingredient_names_too() {
    let data = AlchemyData {
        ingredients: vec![
            ing("Salty Root", &["Restore Health"], 1),
            ing("Wheat", &["Restore Health"], 2),
        ],
        effects: vec![eff("Restore Health", 21)],
    };
    let out = recipes(&data, &["Salty Root", "Wheat"], &SearchTerm::Any("SALTY".to_string()));
    assert_eq!(1, out.len());
    assert_eq!("Restore Health", out[0].effect);
}

#[test]
fn duplicate_catalog_names_last_wins() {
    let data = AlchemyData {
        ingredients: vec![ing("A", &["Fire Damage"], 1), ing("B", &["Fire Damage"], 2)],
        effects: vec![eff("Fire Damage", 10), eff("Fire Damage", 99)],
    };
    let out = recipes(&data, &["A", "B"], &SearchTerm::All);
    assert_eq!(1, out.len());
    assert_eq!(99, out[0].value);
}

#[test]
fn find_by_name_resolves_last_duplicate() {
    let data = AlchemyData {
        ingredients: vec![ing("A", &["Fire Damage"], 1), ing("A", &["Frost Damage"], 7)],
        effects: vec![eff("Fire Damage", 10)],
    };
    let index = AlchemyDataIndexes::new(&data);
    let found = index.find_ingredient_by_name("A").expect("A resolves");
    assert_eq!(7, found.value);
    assert_eq!(vec!["Frost Damage".to_string()], found.effects);
    assert!(index.find_ingredient_by_name("Z").is_none());
    assert_eq!(10, index.find_effect_by_name("Fire Damage").expect("resolves").value);
    assert!(index.find_effect_by_name("Frost Damage").is_none());
}

#[test]
fn search_term_from_query_trims() {
    assert!(matches!(SearchTerm::from_query("   "), SearchTerm::All));
    match SearchTerm::from_query("  fire  ") {
        SearchTerm::Any(t) => assert_eq!("fire", t),
        SearchTerm::All => panic!("expected a term"),
    }
}

#[test]
fn parsed_inventory_feeds_discovery() {
    let data = fire_catalog();
    let index = AlchemyDataIndexes::new(&data);
    let inventory = parse_inventory("A (2)\n\nB");
    let out = index.find_recipes(&inventory, &SearchTerm::All);
    assert_eq!(1, out.len());
    assert_eq!(vec!["A", "B"], out[0].ingredients);
}
