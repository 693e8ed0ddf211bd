//! Recipe discovery for an alchemy catalog: given a static catalog of
//! ingredients and effects and a player-supplied inventory of ingredient
//! names, find every effect shared by at least two owned ingredients,
//! classify it, optionally filter it by a search term, and rank the
//! resulting recipes by value.

mod data;
mod inventory;
mod recipes;
mod seqs;
mod strings;

pub use data::{
    eff_names, ing_names, last_index_of_name, lemma_last_index_of_name, spec_eff_index,
    spec_find_effect, spec_find_ingredient, spec_ing_index, AlchemyData, AlchemyDataIndexes,
    Effect, Ingredient, Weight,
};
pub use inventory::{
    clean_line, first_nl, item_names, parse_inventory, spec_parse_inventory, strip_pred,
    stripped_char, trim_back, trim_both, trim_front, ws_pred, Inventory, InventoryItem,
};
pub use recipes::{
    find_recipes_post, group_has_two, has_effect, in_group, lemma_recipe_min_overlap,
    lemma_recipe_resolvable, lemma_search_narrows, names_of, names_sorted, owned_index,
    recipe_among, recipe_for, recipe_le, recipes_sorted, search_hit, spec_classify,
    spec_retained, Recipe, RecipeKind, Search, SearchTerm,
};
pub use strings::{
    contains_seq, contains_str, is_numeric_char, is_whitespace_char, lex_le, lex_le_str, lower_of,
    str_eq,
};
