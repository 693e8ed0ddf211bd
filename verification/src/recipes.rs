//! The recipe discovery engine: group the owned ingredients by shared
//! effect, keep the effects at least two distinct owned ingredients share,
//! filter by an optional case-insensitive search term, classify each effect,
//! and rank the recipes by value (descending) with effect name (ascending)
//! breaking ties.

use vstd::prelude::*;
use vstd::string::*;

use crate::data::{
    eff_names, ing_names, lemma_last_index_of_name, spec_eff_index, spec_ing_index, AlchemyData,
    AlchemyDataIndexes,
};
use crate::inventory::{strip_ws_bounds, trim_both, ws_pred, Inventory};
use crate::seqs::{lemma_insert_contains, lemma_push_contains, lemma_push_no_dup};
use crate::strings::{contains_seq, contains_str, lex_le, lex_le_str, lemma_lex_le_total, lower_of,
    lowercase};

verus! {

// ---------------------------------------------------------------------------
// Classification
// ---------------------------------------------------------------------------

/// The coarse display class of an effect.
#[derive(Clone, Copy, PartialEq, Eq, Structural, Debug)]
pub enum RecipeKind {
    Restore,
    Fortify,
    Harm,
    Other,
}

/// Classify an effect name by case-sensitive keyword containment, first
/// match in this fixed order winning: `Restore`, `Regenerate`, `Resist` give
/// [`RecipeKind::Restore`]; `Fortify` gives [`RecipeKind::Fortify`];
/// `Damage`, `Ravage`, `Weakness` give [`RecipeKind::Harm`]; anything else
/// is [`RecipeKind::Other`].
pub open spec fn spec_classify(name: Seq<char>) -> RecipeKind {
    if contains_seq(name, "Restore"@) {
        RecipeKind::Restore
    } else if contains_seq(name, "Regenerate"@) {
        RecipeKind::Restore
    } else if contains_seq(name, "Resist"@) {
        RecipeKind::Restore
    } else if contains_seq(name, "Fortify"@) {
        RecipeKind::Fortify
    } else if contains_seq(name, "Damage"@) {
        RecipeKind::Harm
    } else if contains_seq(name, "Ravage"@) {
        RecipeKind::Harm
    } else if contains_seq(name, "Weakness"@) {
        RecipeKind::Harm
    } else {
        RecipeKind::Other
    }
}

impl RecipeKind {
    /// Classify an effect name; the keyword table order is a behavioral
    /// contract (see [`spec_classify`]), not an implementation detail.
    pub fn from(value: &str) -> (r: RecipeKind)
        ensures
            r == spec_classify(value@),
    {
        if contains_str(value, "Restore") {
            RecipeKind::Restore
        } else if contains_str(value, "Regenerate") {
            RecipeKind::Restore
        } else if contains_str(value, "Resist") {
            RecipeKind::Restore
        } else if contains_str(value, "Fortify") {
            RecipeKind::Fortify
        } else if contains_str(value, "Damage") {
            RecipeKind::Harm
        } else if contains_str(value, "Ravage") {
            RecipeKind::Harm
        } else if contains_str(value, "Weakness") {
            RecipeKind::Harm
        } else {
            RecipeKind::Other
        }
    }
}

// ---------------------------------------------------------------------------
// The output value and the search term
// ---------------------------------------------------------------------------

/// A discovered recipe: an effect at least two owned ingredients share.
pub struct Recipe {
    pub effect: String,
    pub ingredients: Vec<String>,
    pub value: u32,
    pub kind: RecipeKind,
}

/// The optional case-insensitive substring filter of a query.
pub enum SearchTerm {
    All,
    Any(String),
}

impl SearchTerm {
    /// Build a search term from raw query text: whitespace-trimmed, and
    /// absent when nothing is left.
    pub fn from_query(text: &str) -> (r: SearchTerm)
        ensures
            ({
                let t = trim_both(text@, ws_pred());
                match r {
                    SearchTerm::All => t.len() == 0,
                    SearchTerm::Any(s) => t.len() > 0 && s@ == t,
                }
            }),
    {
        let len = text.unicode_len();
        proof {
            assert(text@.subrange(0, len as int) =~= text@);
        }
        let (lo, hi) = strip_ws_bounds(text, len, 0, len);
        if lo < hi {
            SearchTerm::Any(text.substring_char(lo, hi).to_owned())
        } else {
            SearchTerm::All
        }
    }
}

// ---------------------------------------------------------------------------
// The specification of discovery
// ---------------------------------------------------------------------------

/// Catalog position `i` is owned: some inventory name resolves to it.
pub open spec fn owned_index(data: AlchemyData, inv: Inventory, i: int) -> bool {
    exists|k: int| 0 <= k < inv.items@.len() && spec_ing_index(data, inv.items@[k].name@)
        == Option::Some(i)
}

/// Ingredient `i` contributes to effect `e`: one of its effect names
/// resolves to catalog position `e`.
pub open spec fn has_effect(data: AlchemyData, i: int, e: int) -> bool {
    exists|j: int| 0 <= j < data.ingredients@[i].effects@.len() && spec_eff_index(
        data,
        data.ingredients@[i].effects@[j]@,
    ) == Option::Some(e)
}

/// Ingredient `i` belongs to effect `e`'s recipe group: it is owned and
/// contributes to `e`.
pub open spec fn in_group(data: AlchemyData, inv: Inventory, e: int, i: int) -> bool {
    owned_index(data, inv, i) && has_effect(data, i, e)
}

/// At least two distinct owned ingredients share effect `e`: the domain rule
/// that makes a combination brewable.
pub open spec fn group_has_two(data: AlchemyData, inv: Inventory, e: int) -> bool {
    exists|i: int, j: int| i != j && in_group(data, inv, e, i) && in_group(data, inv, e, j)
}

/// The case-insensitive search term occurs in the effect's name or in the
/// name of some ingredient of its group.
pub open spec fn search_hit(data: AlchemyData, inv: Inventory, e: int, term: Seq<char>) -> bool {
    ||| contains_seq(lower_of(data.effects@[e].effect@), lower_of(term))
    ||| exists|i: int| in_group(data, inv, e, i) && contains_seq(
        lower_of(data.ingredients@[i].name@),
        lower_of(term),
    )
}

/// Effect `e` yields a recipe: its group has at least two distinct members,
/// and it passes the search filter when one is given.
pub open spec fn spec_retained(data: AlchemyData, inv: Inventory, search: SearchTerm, e: int) -> bool {
    &&& 0 <= e < data.effects@.len()
    &&& group_has_two(data, inv, e)
    &&& match search {
        SearchTerm::All => true,
        SearchTerm::Any(t) => search_hit(data, inv, e, t@),
    }
}

/// The name views of a list of strings.
pub open spec fn names_of(v: Seq<String>) -> Seq<Seq<char>> {
    v.map_values(|s: String| s@)
}

/// Adjacent entries are in ascending lexicographic order.
pub open spec fn names_sorted(v: Seq<String>) -> bool {
    forall|k: int| 0 <= k < v.len() - 1 ==> lex_le(#[trigger] v[k]@, v[k + 1]@)
}

/// `rec` is the recipe of effect `e`: the effect is retained, and the recipe
/// carries its name, value, classification, and exactly the names of its
/// group, each once, in ascending order.
pub open spec fn recipe_for(
    data: AlchemyData,
    inv: Inventory,
    search: SearchTerm,
    rec: Recipe,
    e: int,
) -> bool {
    &&& spec_retained(data, inv, search, e)
    &&& rec.effect@ == data.effects@[e].effect@
    &&& rec.value == data.effects@[e].value
    &&& rec.kind == spec_classify(data.effects@[e].effect@)
    &&& names_of(rec.ingredients@).no_duplicates()
    &&& forall|nm: Seq<char>| #[trigger] names_of(rec.ingredients@).contains(nm) <==> exists|i: int|
        in_group(data, inv, e, i) && data.ingredients@[i].name@ == nm
    &&& names_sorted(rec.ingredients@)
}

/// `rec` is the recipe of some effect at a position below `bound`.
pub open spec fn recipe_among(
    data: AlchemyData,
    inv: Inventory,
    search: SearchTerm,
    rec: Recipe,
    bound: int,
) -> bool {
    exists|e: int| 0 <= e < bound && #[trigger] recipe_for(data, inv, search, rec, e)
}

/// Widening the position bound keeps a recipe's membership.
proof fn lemma_recipe_among_widen(
    data: AlchemyData,
    inv: Inventory,
    search: SearchTerm,
    rec: Recipe,
    b1: int,
    b2: int,
)
    requires
        recipe_among(data, inv, search, rec, b1),
        b1 <= b2,
    ensures
        recipe_among(data, inv, search, rec, b2),
{
    let e = choose|e: int| 0 <= e < b1 && #[trigger] recipe_for(data, inv, search, rec, e);
    assert(0 <= e < b2 && recipe_for(data, inv, search, rec, e));
}

/// The ranking order: value descending, effect name ascending on ties.
pub open spec fn recipe_le(a: Recipe, b: Recipe) -> bool {
    a.value > b.value || (a.value == b.value && lex_le(a.effect@, b.effect@))
}

/// Every adjacent pair of the output respects the ranking order.
pub open spec fn recipes_sorted(s: Seq<Recipe>) -> bool {
    forall|k: int| 0 <= k < s.len() - 1 ==> recipe_le(#[trigger] s[k], s[k + 1])
}

/// The full contract of discovery: every output recipe is the recipe of
/// some retained effect, every retained effect appears, no effect name
/// appears twice, and the list is ranked.
pub open spec fn find_recipes_post(
    data: AlchemyData,
    inv: Inventory,
    search: SearchTerm,
    rs: Seq<Recipe>,
) -> bool {
    &&& forall|n: int| 0 <= n < rs.len() ==> recipe_among(
        data,
        inv,
        search,
        #[trigger] rs[n],
        data.effects@.len() as int,
    )
    &&& forall|e: int| spec_retained(data, inv, search, e) ==> exists|n: int| 0 <= n < rs.len()
        && rs[n].effect@ == data.effects@[e].effect@
    &&& forall|n: int, m: int| 0 <= n < m < rs.len() ==> rs[n].effect@ != rs[m].effect@
    &&& recipes_sorted(rs)
}

/// Discovery of brewable recipes over an indexed catalog.
pub trait Search {
    /// The catalog the implementer answers queries over.
    spec fn catalog_view(&self) -> AlchemyData;

    /// Discover, rank and filter the recipes brewable from `inventory`.
    fn find_recipes(&self, inventory: &Inventory, search: &SearchTerm) -> (r: Vec<Recipe>)
        ensures
            find_recipes_post(self.catalog_view(), *inventory, *search, r@),
    ;
}

// ---------------------------------------------------------------------------
// Laws
// ---------------------------------------------------------------------------

/// An owned catalog position is canonical: its own name resolves back to it.
proof fn lemma_owned_canonical(data: AlchemyData, inv: Inventory, i: int)
    requires
        owned_index(data, inv, i),
    ensures
        0 <= i < data.ingredients@.len(),
        spec_ing_index(data, data.ingredients@[i].name@) == Option::Some(i),
{
    let k = choose|k: int| 0 <= k < inv.items@.len() && spec_ing_index(
        data,
        inv.items@[k].name@,
    ) == Option::Some(i);
    lemma_last_index_of_name(ing_names(data), inv.items@[k].name@);
    assert(ing_names(data)[i] == data.ingredients@[i].name@);
}

/// Distinct owned catalog positions carry distinct names.
proof fn lemma_owned_distinct_names(data: AlchemyData, inv: Inventory, i: int, j: int)
    requires
        owned_index(data, inv, i),
        owned_index(data, inv, j),
        i != j,
    ensures
        data.ingredients@[i].name@ != data.ingredients@[j].name@,
{
    lemma_owned_canonical(data, inv, i);
    lemma_owned_canonical(data, inv, j);
}

/// An effect position with a group member is canonical: its own name
/// resolves back to it.
proof fn lemma_effect_canonical(data: AlchemyData, inv: Inventory, e: int)
    requires
        exists|i: int| in_group(data, inv, e, i),
    ensures
        0 <= e < data.effects@.len(),
        spec_eff_index(data, data.effects@[e].effect@) == Option::Some(e),
{
    let i = choose|i: int| in_group(data, inv, e, i);
    let j = choose|j: int| 0 <= j < data.ingredients@[i].effects@.len() && spec_eff_index(
        data,
        data.ingredients@[i].effects@[j]@,
    ) == Option::Some(e);
    lemma_last_index_of_name(eff_names(data), data.ingredients@[i].effects@[j]@);
    assert(eff_names(data)[e] == data.effects@[e].effect@);
}

/// Minimum-overlap: every recipe names at least two ingredients.
pub proof fn lemma_recipe_min_overlap(
    data: AlchemyData,
    inv: Inventory,
    search: SearchTerm,
    rec: Recipe,
    e: int,
)
    requires
        recipe_for(data, inv, search, rec, e),
    ensures
        rec.ingredients@.len() >= 2,
{
    let (i, j) = choose|i: int, j: int| i != j && in_group(data, inv, e, i) && in_group(
        data,
        inv,
        e,
        j,
    );
    lemma_owned_distinct_names(data, inv, i, j);
    let ni = data.ingredients@[i].name@;
    let nj = data.ingredients@[j].name@;
    assert(names_of(rec.ingredients@).contains(ni));
    assert(names_of(rec.ingredients@).contains(nj));
    let a = choose|a: int| 0 <= a < names_of(rec.ingredients@).len() && names_of(
        rec.ingredients@,
    )[a] == ni;
    let b = choose|b: int| 0 <= b < names_of(rec.ingredients@).len() && names_of(
        rec.ingredients@,
    )[b] == nj;
    assert(a != b);
    assert(names_of(rec.ingredients@).len() == rec.ingredients@.len());
}

/// Resolvability: every name a recipe carries is present in the catalog
/// index — the effect name resolves to the recipe's effect, and every
/// ingredient name resolves to an ingredient.
pub proof fn lemma_recipe_resolvable(
    data: AlchemyData,
    inv: Inventory,
    search: SearchTerm,
    rec: Recipe,
    e: int,
)
    requires
        recipe_for(data, inv, search, rec, e),
    ensures
        spec_eff_index(data, rec.effect@) == Option::Some(e),
        forall|k: int| 0 <= k < rec.ingredients@.len() ==> spec_ing_index(
            data,
            rec.ingredients@[k]@,
        ) is Some,
{
    let (i0, j0) = choose|i: int, j: int| i != j && in_group(data, inv, e, i) && in_group(
        data,
        inv,
        e,
        j,
    );
    assert(in_group(data, inv, e, i0));
    lemma_effect_canonical(data, inv, e);
    assert forall|k: int| 0 <= k < rec.ingredients@.len() implies spec_ing_index(
        data,
        rec.ingredients@[k]@,
    ) is Some by {
        let nm = rec.ingredients@[k]@;
        assert(names_of(rec.ingredients@)[k] == nm);
        assert(names_of(rec.ingredients@).contains(nm));
        let i = choose|i: int| in_group(data, inv, e, i) && data.ingredients@[i].name@ == nm;
        lemma_owned_canonical(data, inv, i);
    }
}

/// Search filtering only narrows: with a term, an effect is retained exactly
/// when it is retained without one and the term hits its group.
pub proof fn lemma_search_narrows(data: AlchemyData, inv: Inventory, term: String, e: int)
    ensures
        spec_retained(data, inv, SearchTerm::Any(term), e) <==> (spec_retained(
            data,
            inv,
            SearchTerm::All,
            e,
        ) && search_hit(data, inv, e, term@)),
{
}

/// The ranking order is total.
proof fn lemma_recipe_le_total(a: Recipe, b: Recipe)
    ensures
        recipe_le(a, b) || recipe_le(b, a),
{
    lemma_lex_le_total(a.effect@, b.effect@);
}

// ---------------------------------------------------------------------------
// Executable helpers
// ---------------------------------------------------------------------------

/// Linear membership test on a vector of catalog positions.
fn vec_contains_usize(v: &Vec<usize>, x: usize) -> (r: bool)
    ensures
        r == v@.contains(x),
{
    let mut t: usize = 0;
    while t < v.len()
        invariant
            t <= v@.len(),
            forall|j: int| 0 <= j < t ==> v@[j] != x,
        decreases v@.len() - t,
    {
        if v[t] == x {
            return true;
        }
        t += 1;
    }
    false
}

/// Does ingredient `i` contribute to effect position `e`?
#[verifier::loop_isolation(false)]
fn ingredient_has_effect(idx: &AlchemyDataIndexes, i: usize, e: usize) -> (r: bool)
    requires
        i < idx.catalog().ingredients@.len(),
    ensures
        r == has_effect(idx.catalog(), i as int, e as int),
{
    let data = idx.catalog_ref();
    let ing = &data.ingredients[i];
    let mut j: usize = 0;
    while j < ing.effects.len()
        invariant
            j <= ing.effects@.len(),
            forall|jj: int| 0 <= jj < j ==> spec_eff_index(idx.catalog(), ing.effects@[jj]@)
                != Option::Some(e as int),
        decreases ing.effects@.len() - j,
    {
        match idx.effect_index(ing.effects[j].as_str()) {
            Option::Some(p) => {
                if p == e {
                    return true;
                }
            },
            Option::None => {},
        }
        j += 1;
    }
    false
}

/// Does the search term hit the effect's name or the name of some group
/// member, case-insensitively?
#[verifier::loop_isolation(false)]
fn group_matches_search(data: &AlchemyData, group: &Vec<usize>, e: usize, term: &String) -> (r:
    bool)
    requires
        e < data.effects@.len(),
        forall|q: int| 0 <= q < group@.len() ==> (#[trigger] group@[q]) < data.ingredients@.len(),
    ensures
        r == (contains_seq(lower_of(data.effects@[e as int].effect@), lower_of(term@)) || exists|
            q: int,
        |
            0 <= q < group@.len() && contains_seq(
                lower_of(data.ingredients@[#[trigger] group@[q] as int].name@),
                lower_of(term@),
            )),
{
    let lterm = lowercase(term.as_str());
    let leff = lowercase(data.effects[e].effect.as_str());
    if contains_str(leff.as_str(), lterm.as_str()) {
        return true;
    }
    let mut q: usize = 0;
    while q < group.len()
        invariant
            q <= group@.len(),
            forall|qq: int| 0 <= qq < q ==> !contains_seq(
                lower_of(data.ingredients@[#[trigger] group@[qq] as int].name@),
                lower_of(term@),
            ),
        decreases group@.len() - q,
    {
        let lname = lowercase(data.ingredients[group[q]].name.as_str());
        if contains_str(lname.as_str(), lterm.as_str()) {
            return true;
        }
        q += 1;
    }
    false
}

/// Decide the ranking order between two recipes.
fn recipe_le_exec(a: &Recipe, b: &Recipe) -> (r: bool)
    ensures
        r == recipe_le(*a, *b),
{
    if a.value != b.value {
        a.value > b.value
    } else {
        lex_le_str(a.effect.as_str(), b.effect.as_str())
    }
}

/// Mapping names over an insert is an insert of the name.
proof fn lemma_names_of_insert(s: Seq<String>, p: int, x: String)
    requires
        0 <= p <= s.len(),
    ensures
        names_of(s.insert(p, x)) == names_of(s).insert(p, x@),
{
    s.insert_ensures(p, x);
    names_of(s).insert_ensures(p, x@);
    assert(names_of(s.insert(p, x)) =~= names_of(s).insert(p, x@));
}

/// Insert a name into an ascending list, keeping it ascending.
#[verifier::loop_isolation(false)]
fn insert_name_sorted(names: &mut Vec<String>, s: String)
    requires
        names_sorted(old(names)@),
    ensures
        names_sorted(final(names)@),
        exists|p: int| 0 <= p <= old(names)@.len() && final(names)@ == old(names)@.insert(p, s),
{
    let ghost orig = names@;
    let mut p: usize = 0;
    while p < names.len() && lex_le_str(names[p].as_str(), s.as_str())
        invariant
            0 <= p <= orig.len(),
            forall|j: int| 0 <= j < p ==> lex_le(#[trigger] orig[j]@, s@),
        decreases orig.len() - p,
    {
        p += 1;
    }
    proof {
        if p < names@.len() {
            lemma_lex_le_total(orig[p as int]@, s@);
        }
    }
    names.insert(p, s);
    proof {
        orig.insert_ensures(p as int, s);
        assert forall|k: int| 0 <= k < names@.len() - 1 implies lex_le(
            #[trigger] names@[k]@,
            names@[k + 1]@,
        ) by {
            if k + 1 < p {
                assert(names@[k] == orig[k]);
                assert(names@[k + 1] == orig[k + 1]);
            } else if k + 1 == p {
                assert(names@[k] == orig[k]);
                assert(names@[k + 1] == s);
            } else if k == p {
                assert(names@[k] == s);
                assert(names@[k + 1] == orig[k]);
            } else {
                assert(names@[k] == orig[k - 1]);
                assert(names@[k + 1] == orig[k]);
            }
        }
    }
}

/// Insert a recipe into a ranked list, keeping it ranked.
#[verifier::loop_isolation(false)]
fn insert_recipe_sorted(out: &mut Vec<Recipe>, rec: Recipe)
    requires
        recipes_sorted(old(out)@),
    ensures
        recipes_sorted(final(out)@),
        exists|p: int| 0 <= p <= old(out)@.len() && final(out)@ == old(out)@.insert(p, rec),
{
    let ghost orig = out@;
    let mut p: usize = 0;
    while p < out.len() && recipe_le_exec(&out[p], &rec)
        invariant
            0 <= p <= orig.len(),
            forall|j: int| 0 <= j < p ==> recipe_le(#[trigger] orig[j], rec),
        decreases orig.len() - p,
    {
        p += 1;
    }
    proof {
        if p < out@.len() {
            lemma_recipe_le_total(orig[p as int], rec);
        }
    }
    out.insert(p, rec);
    proof {
        orig.insert_ensures(p as int, rec);
        assert forall|k: int| 0 <= k < out@.len() - 1 implies recipe_le(
            #[trigger] out@[k],
            out@[k + 1],
        ) by {
            if k + 1 < p {
                assert(out@[k] == orig[k]);
                assert(out@[k + 1] == orig[k + 1]);
            } else if k + 1 == p {
                assert(out@[k] == orig[k]);
                assert(out@[k + 1] == rec);
            } else if k == p {
                assert(out@[k] == rec);
                assert(out@[k + 1] == orig[k]);
            } else {
                assert(out@[k] == orig[k - 1]);
                assert(out@[k + 1] == orig[k]);
            }
        }
    }
}


// ---------------------------------------------------------------------------
// Discovery
// ---------------------------------------------------------------------------

/// Resolve the inventory names through the index, deduplicating by catalog
/// position; unresolved names contribute nothing.
#[verifier::loop_isolation(false)]
fn resolve_owned(idx: &AlchemyDataIndexes, inventory: &Inventory) -> (owned: Vec<usize>)
    ensures
        owned@.no_duplicates(),
        forall|t: int| 0 <= t < owned@.len() ==> (#[trigger] owned@[t])
            < idx.catalog().ingredients@.len(),
        forall|x: usize| #[trigger] owned@.contains(x) <==> owned_index(
            idx.catalog(),
            *inventory,
            x as int,
        ),
{
    let ghost cat = idx.catalog();
    let ghost inv = *inventory;
    let ghost ing_count = cat.ingredients@.len();
    let mut owned: Vec<usize> = Vec::new();
    let mut k: usize = 0;
    while k < inventory.items.len()
        invariant
            k <= inv.items@.len(),
            owned@.no_duplicates(),
            forall|t: int| 0 <= t < owned@.len() ==> (#[trigger] owned@[t]) < ing_count,
            forall|x: usize| #[trigger] owned@.contains(x) <==> exists|kk: int|
                0 <= kk < k && spec_ing_index(cat, inv.items@[kk].name@) == Option::Some(x as int),
        decreases inv.items@.len() - k,
    {
        let found = idx.ingredient_index(inventory.items[k].name.as_str());
        let ghost before = owned@;
        match found {
            Option::Some(i) => {
                proof {
                    lemma_last_index_of_name(ing_names(cat), inv.items@[k as int].name@);
                }
                if !vec_contains_usize(&owned, i) {
                    owned.push(i);
                    proof {
                        lemma_push_contains(before, i);
                        lemma_push_no_dup(before, i);
                    }
                }
            },
            Option::None => {},
        }
        proof {
            assert forall|x: usize| #[trigger] owned@.contains(x) <==> exists|kk: int|
                0 <= kk < k + 1 && spec_ing_index(cat, inv.items@[kk].name@) == Option::Some(
                    x as int,
                ) by {
                if owned@.contains(x) {
                    if before.contains(x) {
                        let kk = choose|kk: int|
                            0 <= kk < k && spec_ing_index(cat, inv.items@[kk].name@)
                                == Option::Some(x as int);
                        assert(0 <= kk < k + 1 && spec_ing_index(cat, inv.items@[kk].name@)
                            == Option::Some(x as int));
                    } else {
                        assert(found == Option::Some(x));
                        assert(spec_ing_index(cat, inv.items@[k as int].name@) == Option::Some(
                            x as int,
                        ));
                    }
                }
                if exists|kk: int|
                    0 <= kk < k + 1 && spec_ing_index(cat, inv.items@[kk].name@) == Option::Some(
                        x as int,
                    ) {
                    let kk = choose|kk: int|
                        0 <= kk < k + 1 && spec_ing_index(cat, inv.items@[kk].name@)
                            == Option::Some(x as int);
                    if kk < k {
                        assert(before.contains(x));
                    } else {
                        assert(found == Option::Some(x));
                        assert(owned@.contains(x));
                    }
                }
            }
        }
        k += 1;
    }
    owned
}

/// Gather the group of effect position `e`: the owned ingredients that
/// contribute to it, each once.
#[verifier::loop_isolation(false)]
fn collect_group(
    idx: &AlchemyDataIndexes,
    Ghost(inv): Ghost<Inventory>,
    owned: &Vec<usize>,
    e: usize,
) -> (group: Vec<usize>)
    requires
        owned@.no_duplicates(),
        forall|t: int| 0 <= t < owned@.len() ==> (#[trigger] owned@[t])
            < idx.catalog().ingredients@.len(),
        forall|x: usize| #[trigger] owned@.contains(x) <==> owned_index(
            idx.catalog(),
            inv,
            x as int,
        ),
    ensures
        group@.no_duplicates(),
        forall|q: int| 0 <= q < group@.len() ==> (#[trigger] group@[q])
            < idx.catalog().ingredients@.len(),
        forall|x: usize| #[trigger] group@.contains(x) <==> in_group(
            idx.catalog(),
            inv,
            e as int,
            x as int,
        ),
{
    let ghost cat = idx.catalog();
    let mut group: Vec<usize> = Vec::new();
    let mut t: usize = 0;
    while t < owned.len()
        invariant
            t <= owned@.len(),
            group@.no_duplicates(),
            forall|q: int| 0 <= q < group@.len() ==> (#[trigger] group@[q])
                < cat.ingredients@.len(),
            forall|x: usize| #[trigger] group@.contains(x) <==> exists|tt: int|
                0 <= tt < t && owned@[tt] == x && has_effect(cat, x as int, e as int),
        decreases owned@.len() - t,
    {
        let i = owned[t];
        let ghost gbefore = group@;
        if ingredient_has_effect(idx, i, e) {
            group.push(i);
            proof {
                lemma_push_contains(gbefore, i);
                if gbefore.contains(i) {
                    let tt = choose|tt: int|
                        0 <= tt < t && owned@[tt] == i && has_effect(cat, i as int, e as int);
                    assert(owned@[tt] == owned@[t as int]);
                    assert(false);
                }
                lemma_push_no_dup(gbefore, i);
            }
        }
        proof {
            assert forall|x: usize| #[trigger] group@.contains(x) <==> exists|tt: int|
                0 <= tt < t + 1 && owned@[tt] == x && has_effect(cat, x as int, e as int) by {
                if group@.contains(x) {
                    if gbefore.contains(x) {
                        let tt = choose|tt: int|
                            0 <= tt < t && owned@[tt] == x && has_effect(cat, x as int, e as int);
                        assert(0 <= tt < t + 1 && owned@[tt] == x && has_effect(
                            cat,
                            x as int,
                            e as int,
                        ));
                    } else {
                        assert(x == i);
                        assert(owned@[t as int] == x);
                    }
                }
                if exists|tt: int|
                    0 <= tt < t + 1 && owned@[tt] == x && has_effect(cat, x as int, e as int) {
                    let tt = choose|tt: int|
                        0 <= tt < t + 1 && owned@[tt] == x && has_effect(cat, x as int, e as int);
                    if tt == t {
                        assert(x == i);
                        assert(group@.contains(x));
                    }
                }
            }
        }
        t += 1;
    }
    proof {
        assert forall|x: usize| #[trigger] group@.contains(x) <==> in_group(
            cat,
            inv,
            e as int,
            x as int,
        ) by {
            if group@.contains(x) {
                let tt = choose|tt: int|
                    0 <= tt < owned@.len() && owned@[tt] == x && has_effect(
                        cat,
                        x as int,
                        e as int,
                    );
                assert(owned@.contains(x));
            }
            if in_group(cat, inv, e as int, x as int) {
                assert(owned@.contains(x));
                let tt = choose|tt: int| 0 <= tt < owned@.len() && owned@[tt] == x;
            }
        }
    }
    group
}

/// Collect the names of a group's members, ascending and each once.
#[verifier::loop_isolation(false)]
fn sorted_group_names(
    data: &AlchemyData,
    Ghost(inv): Ghost<Inventory>,
    group: &Vec<usize>,
    Ghost(e): Ghost<int>,
) -> (names: Vec<String>)
    requires
        group@.no_duplicates(),
        forall|q: int| 0 <= q < group@.len() ==> (#[trigger] group@[q])
            < data.ingredients@.len(),
        forall|x: usize| #[trigger] group@.contains(x) <==> in_group(*data, inv, e, x as int),
    ensures
        names@.len() == group@.len(),
        names_sorted(names@),
        names_of(names@).no_duplicates(),
        forall|nm: Seq<char>| #[trigger] names_of(names@).contains(nm) <==> exists|i: int|
            in_group(*data, inv, e, i) && data.ingredients@[i].name@ == nm,
{
    let ghost cat = *data;
    let ing_total = data.ingredients.len();
    proof {
        assert(cat.ingredients@.len() == ing_total);
    }
    let mut names: Vec<String> = Vec::new();
    let mut q: usize = 0;
    while q < group.len()
        invariant
            q <= group@.len(),
            names@.len() == q,
            names_sorted(names@),
            names_of(names@).no_duplicates(),
            forall|nm: Seq<char>| #[trigger] names_of(names@).contains(nm) <==> exists|qq: int|
                0 <= qq < q && cat.ingredients@[#[trigger] group@[qq] as int].name@ == nm,
        decreases group@.len() - q,
    {
        let nm_s = data.ingredients[group[q]].name.clone();
        let ghost nmv = nm_s@;
        let ghost nbefore = names@;
        proof {
            assert(nmv == cat.ingredients@[group@[q as int] as int].name@);
        }
        insert_name_sorted(&mut names, nm_s);
        proof {
            let p = choose|p: int| 0 <= p <= nbefore.len() && names@ == nbefore.insert(p, nm_s);
            lemma_names_of_insert(nbefore, p, nm_s);
            lemma_insert_contains(names_of(nbefore), p, nmv);
            nbefore.insert_ensures(p, nm_s);
            if names_of(nbefore).contains(nmv) {
                let qq = choose|qq: int|
                    0 <= qq < q && cat.ingredients@[#[trigger] group@[qq] as int].name@ == nmv;
                assert(group@.contains(group@[qq]));
                assert(group@.contains(group@[q as int]));
                assert(group@[qq] != group@[q as int]);
                lemma_owned_distinct_names(cat, inv, group@[qq] as int, group@[q as int] as int);
                assert(false);
            }
            crate::seqs::lemma_insert_no_dup(names_of(nbefore), p, nmv);
            assert forall|nm: Seq<char>| #[trigger] names_of(names@).contains(nm) <==> exists|
                qq: int,
            |
                0 <= qq < q + 1 && cat.ingredients@[#[trigger] group@[qq] as int].name@ == nm by {
                if names_of(names@).contains(nm) {
                    if names_of(nbefore).contains(nm) {
                        let qq = choose|qq: int|
                            0 <= qq < q && cat.ingredients@[#[trigger] group@[qq] as int].name@
                                == nm;
                        assert(0 <= qq < q + 1 && cat.ingredients@[group@[qq] as int].name@ == nm);
                    } else {
                        assert(nm == nmv);
                        assert(cat.ingredients@[group@[q as int] as int].name@ == nm);
                    }
                }
                if exists|qq: int|
                    0 <= qq < q + 1 && cat.ingredients@[#[trigger] group@[qq] as int].name@
                        == nm {
                    let qq = choose|qq: int|
                        0 <= qq < q + 1 && cat.ingredients@[#[trigger] group@[qq] as int].name@
                            == nm;
                    if qq < q {
                        assert(names_of(nbefore).contains(nm));
                        assert(names_of(names@).contains(nm));
                    } else {
                        assert(nm == nmv);
                        assert(names_of(names@).contains(nm));
                    }
                }
            }
        }
        q += 1;
    }
    proof {
        assert forall|nm: Seq<char>| #[trigger] names_of(names@).contains(nm) <==> exists|i: int|
            in_group(cat, inv, e, i) && cat.ingredients@[i].name@ == nm by {
            if names_of(names@).contains(nm) {
                let qq = choose|qq: int|
                    0 <= qq < group@.len() && cat.ingredients@[#[trigger] group@[qq] as int].name@
                        == nm;
                assert(group@.contains(group@[qq]));
                assert(in_group(cat, inv, e, group@[qq] as int) && cat.ingredients@[
                    group@[qq] as int
                ].name@ == nm);
            }
            if exists|i: int| in_group(cat, inv, e, i) && cat.ingredients@[i].name@ == nm {
                let i = choose|i: int| in_group(cat, inv, e, i) && cat.ingredients@[i].name@ == nm;
                lemma_owned_canonical(cat, inv, i);
                assert(group@.contains(i as usize));
                let qq = choose|qq: int| 0 <= qq < group@.len() && group@[qq] == i as usize;
                assert(cat.ingredients@[group@[qq] as int].name@ == nm);
                assert(names_of(names@).contains(nm));
            }
        }
    }
    names
}

/// A recipe of effect `e` carries a name no recipe of an earlier effect
/// carries: retained effect positions are canonical, so distinct positions
/// have distinct names.
proof fn lemma_fresh_effect_name(
    cat: AlchemyData,
    inv: Inventory,
    srch: SearchTerm,
    obefore: Seq<Recipe>,
    rec: Recipe,
    e: int,
)
    requires
        recipe_for(cat, inv, srch, rec, e),
        forall|n: int| 0 <= n < obefore.len() ==> recipe_among(
            cat,
            inv,
            srch,
            #[trigger] obefore[n],
            e,
        ),
    ensures
        forall|n: int| 0 <= n < obefore.len() ==> (#[trigger] obefore[n]).effect@ != rec.effect@,
{
    assert forall|n: int| 0 <= n < obefore.len() implies (#[trigger] obefore[n]).effect@
        != rec.effect@ by {
        assert(recipe_among(cat, inv, srch, obefore[n], e));
        let ee = choose|ee: int| 0 <= ee < e && #[trigger] recipe_for(cat, inv, srch, obefore[n], ee);
        let (i, j) = choose|i: int, j: int|
            i != j && in_group(cat, inv, ee, i) && in_group(cat, inv, ee, j);
        assert(in_group(cat, inv, ee, i));
        lemma_effect_canonical(cat, inv, ee);
        let (i2, j2) = choose|i2: int, j2: int|
            i2 != j2 && in_group(cat, inv, e, i2) && in_group(cat, inv, e, j2);
        assert(in_group(cat, inv, e, i2));
        lemma_effect_canonical(cat, inv, e);
        if obefore[n].effect@ == rec.effect@ {
            assert(cat.effects@[ee].effect@ == cat.effects@[e].effect@);
            assert(false);
        }
    }
}

/// Inserting the new recipe keeps every entry the recipe of some effect
/// below the widened bound.
#[verifier::rlimit(100)]
proof fn lemma_insert_sound(
    cat: AlchemyData,
    inv: Inventory,
    srch: SearchTerm,
    obefore: Seq<Recipe>,
    onew: Seq<Recipe>,
    rec: Recipe,
    p: int,
    e: int,
)
    requires
        0 <= p <= obefore.len(),
        onew == obefore.insert(p, rec),
        recipe_for(cat, inv, srch, rec, e),
        forall|n: int| 0 <= n < obefore.len() ==> recipe_among(
            cat,
            inv,
            srch,
            #[trigger] obefore[n],
            e,
        ),
    ensures
        forall|n: int| 0 <= n < onew.len() ==> recipe_among(
            cat,
            inv,
            srch,
            #[trigger] onew[n],
            e + 1,
        ),
{
    obefore.insert_ensures(p, rec);
    assert forall|n: int| 0 <= n < onew.len() implies recipe_among(
        cat,
        inv,
        srch,
        #[trigger] onew[n],
        e + 1,
    ) by {
        if n < p {
            assert(onew[n] == obefore[n]);
            assert(recipe_among(cat, inv, srch, obefore[n], e));
            lemma_recipe_among_widen(cat, inv, srch, obefore[n], e, e + 1);
        } else if n == p {
            assert(onew[n] == rec);
            assert(0 <= e < e + 1 && recipe_for(cat, inv, srch, rec, e));
            assert(recipe_among(cat, inv, srch, rec, e + 1));
        } else {
            assert(onew[n] == obefore[n - 1]);
            assert(recipe_among(cat, inv, srch, obefore[n - 1], e));
            lemma_recipe_among_widen(cat, inv, srch, obefore[n - 1], e, e + 1);
        }
    }
}

/// Inserting the recipe of effect `e` keeps every retained effect below
/// `e + 1` represented.
#[verifier::rlimit(100)]
proof fn lemma_insert_complete(
    cat: AlchemyData,
    inv: Inventory,
    srch: SearchTerm,
    obefore: Seq<Recipe>,
    onew: Seq<Recipe>,
    rec: Recipe,
    p: int,
    e: int,
)
    requires
        0 <= p <= obefore.len(),
        onew == obefore.insert(p, rec),
        rec.effect@ == cat.effects@[e].effect@,
        forall|ee: int| 0 <= ee < e && spec_retained(cat, inv, srch, ee) ==> exists|x: Recipe|
            #[trigger] obefore.contains(x) && x.effect@ == cat.effects@[ee].effect@,
    ensures
        forall|ee: int| 0 <= ee < e + 1 && spec_retained(cat, inv, srch, ee) ==> exists|x: Recipe|
            #[trigger] onew.contains(x) && x.effect@ == cat.effects@[ee].effect@,
{
    lemma_insert_contains(obefore, p, rec);
    assert forall|ee: int| 0 <= ee < e + 1 && spec_retained(cat, inv, srch, ee) implies exists|
        x: Recipe,
    | #[trigger] onew.contains(x) && x.effect@ == cat.effects@[ee].effect@ by {
        if ee < e {
            let x = choose|x: Recipe|
                #[trigger] obefore.contains(x) && x.effect@ == cat.effects@[ee].effect@;
            assert(onew.contains(x));
        } else {
            assert(onew.contains(rec));
            assert(rec.effect@ == cat.effects@[e].effect@);
        }
    }
}

/// Inserting a recipe with a fresh effect name keeps the names pairwise
/// distinct.
#[verifier::rlimit(100)]
proof fn lemma_insert_distinct(
    obefore: Seq<Recipe>,
    onew: Seq<Recipe>,
    rec: Recipe,
    p: int,
)
    requires
        0 <= p <= obefore.len(),
        onew == obefore.insert(p, rec),
        forall|n: int| 0 <= n < obefore.len() ==> (#[trigger] obefore[n]).effect@ != rec.effect@,
        forall|n: int, m: int| 0 <= n < m < obefore.len() ==> obefore[n].effect@
            != obefore[m].effect@,
    ensures
        forall|n: int, m: int| 0 <= n < m < onew.len() ==> onew[n].effect@ != onew[m].effect@,
{
    obefore.insert_ensures(p, rec);
    assert forall|n: int, m: int| 0 <= n < m < onew.len() implies onew[n].effect@
        != onew[m].effect@ by {
        if m < p {
            assert(onew[n] == obefore[n]);
            assert(onew[m] == obefore[m]);
        } else if m == p {
            assert(onew[n] == obefore[n]);
            assert(onew[m] == rec);
        } else if n < p {
            assert(onew[n] == obefore[n]);
            assert(onew[m] == obefore[m - 1]);
        } else if n == p {
            assert(onew[n] == rec);
            assert(onew[m] == obefore[m - 1]);
        } else {
            assert(onew[n] == obefore[n - 1]);
            assert(onew[m] == obefore[m - 1]);
        }
    }
}

/// Inserting the recipe of a fresh effect preserves the three running
/// facts of discovery: every entry is some retained effect's recipe, every
/// retained effect seen so far appears, and no effect name appears twice.
proof fn lemma_insert_preserves(
    cat: AlchemyData,
    inv: Inventory,
    srch: SearchTerm,
    obefore: Seq<Recipe>,
    onew: Seq<Recipe>,
    rec: Recipe,
    p: int,
    e: int,
)
    requires
        0 <= p <= obefore.len(),
        onew == obefore.insert(p, rec),
        recipe_for(cat, inv, srch, rec, e),
        forall|n: int| 0 <= n < obefore.len() ==> recipe_among(
            cat,
            inv,
            srch,
            #[trigger] obefore[n],
            e,
        ),
        forall|ee: int| 0 <= ee < e && spec_retained(cat, inv, srch, ee) ==> exists|x: Recipe|
            #[trigger] obefore.contains(x) && x.effect@ == cat.effects@[ee].effect@,
        forall|n: int, m: int| 0 <= n < m < obefore.len() ==> obefore[n].effect@
            != obefore[m].effect@,
    ensures
        forall|n: int| 0 <= n < onew.len() ==> recipe_among(
            cat,
            inv,
            srch,
            #[trigger] onew[n],
            e + 1,
        ),
        forall|ee: int| 0 <= ee < e + 1 && spec_retained(cat, inv, srch, ee) ==> exists|x: Recipe|
            #[trigger] onew.contains(x) && x.effect@ == cat.effects@[ee].effect@,
        forall|n: int, m: int| 0 <= n < m < onew.len() ==> onew[n].effect@ != onew[m].effect@,
{
    lemma_fresh_effect_name(cat, inv, srch, obefore, rec, e);
    lemma_insert_sound(cat, inv, srch, obefore, onew, rec, p, e);
    lemma_insert_complete(cat, inv, srch, obefore, onew, rec, p, e);
    lemma_insert_distinct(obefore, onew, rec, p);
}

impl<'a> Search for AlchemyDataIndexes<'a> {
    open spec fn catalog_view(&self) -> AlchemyData {
        self.catalog()
    }

    #[verifier::loop_isolation(false)]
    #[verifier::rlimit(100)]
    fn find_recipes(&self, inventory: &Inventory, search: &SearchTerm) -> (r: Vec<Recipe>) {
        let data = self.catalog_ref();
        let ghost cat = self.catalog();
        let ghost inv = *inventory;
        let ghost srch = *search;
        let ing_total = data.ingredients.len();
        let eff_count = data.effects.len();
        proof {
            assert(cat.ingredients@.len() == ing_total);
            assert(cat.effects@.len() == eff_count);
        }

        let owned = resolve_owned(self, inventory);

        let mut out: Vec<Recipe> = Vec::new();
        let mut e: usize = 0;
        while e < eff_count
            invariant
                e <= eff_count,
                recipes_sorted(out@),
                forall|n: int| 0 <= n < out@.len() ==> recipe_among(
                    cat,
                    inv,
                    srch,
                    #[trigger] out@[n],
                    e as int,
                ),
                forall|ee: int|
                    0 <= ee < e && spec_retained(cat, inv, srch, ee) ==> exists|x: Recipe|
                        #[trigger] out@.contains(x) && x.effect@ == cat.effects@[ee].effect@,
                forall|n: int, m: int| 0 <= n < m < out@.len() ==> out@[n].effect@
                    != out@[m].effect@,
            decreases eff_count - e,
        {
            let group = collect_group(self, Ghost(inv), &owned, e);
            if group.len() >= 2 {
                proof {
                    let i0 = group@[0];
                    let i1 = group@[1];
                    assert(group@.contains(i0));
                    assert(group@.contains(i1));
                    assert(i0 != i1);
                    assert(in_group(cat, inv, e as int, i0 as int) && in_group(
                        cat,
                        inv,
                        e as int,
                        i1 as int,
                    ) && i0 as int != i1 as int);
                    assert(group_has_two(cat, inv, e as int));
                }
                let keep: bool = match search {
                    SearchTerm::All => true,
                    SearchTerm::Any(term) => group_matches_search(data, &group, e, term),
                };
                if keep {
                    proof {
                        match srch {
                            SearchTerm::All => {},
                            SearchTerm::Any(t) => {
                                if contains_seq(
                                    lower_of(cat.effects@[e as int].effect@),
                                    lower_of(t@),
                                ) {
                                } else {
                                    let q = choose|q: int|
                                        0 <= q < group@.len() && contains_seq(
                                            lower_of(
                                                cat.ingredients@[
                                                    #[trigger] group@[q] as int
                                                ].name@,
                                            ),
                                            lower_of(t@),
                                        );
                                    assert(group@.contains(group@[q]));
                                    assert(in_group(cat, inv, e as int, group@[q] as int));
                                }
                                assert(search_hit(cat, inv, e as int, t@));
                            },
                        }
                        assert(spec_retained(cat, inv, srch, e as int));
                    }
                    let names = sorted_group_names(data, Ghost(inv), &group, Ghost(e as int));
                    let rec = Recipe {
                        effect: data.effects[e].effect.clone(),
                        ingredients: names,
                        value: data.effects[e].value,
                        kind: RecipeKind::from(data.effects[e].effect.as_str()),
                    };
                    proof {
                        assert(recipe_for(cat, inv, srch, rec, e as int));
                    }
                    let ghost obefore = out@;
                    let ghost reck = rec;
                    insert_recipe_sorted(&mut out, rec);
                    proof {
                        let p = choose|p: int|
                            0 <= p <= obefore.len() && out@ == obefore.insert(p, reck);
                        lemma_insert_preserves(cat, inv, srch, obefore, out@, reck, p, e as int);
                    }
                } else {
                    proof {
                        match srch {
                            SearchTerm::All => {
                                assert(false);
                            },
                            SearchTerm::Any(tm) => {
                                if search_hit(cat, inv, e as int, tm@) {
                                    if !contains_seq(
                                        lower_of(cat.effects@[e as int].effect@),
                                        lower_of(tm@),
                                    ) {
                                        let i = choose|i: int|
                                            in_group(cat, inv, e as int, i) && contains_seq(
                                                lower_of(cat.ingredients@[i].name@),
                                                lower_of(tm@),
                                            );
                                        lemma_owned_canonical(cat, inv, i);
                                        assert(group@.contains(i as usize));
                                        let qq = choose|qq: int|
                                            0 <= qq < group@.len() && group@[qq] == i as usize;
                                        assert(contains_seq(
                                            lower_of(cat.ingredients@[group@[qq] as int].name@),
                                            lower_of(tm@),
                                        ));
                                        assert(false);
                                    }
                                    assert(false);
                                }
                            },
                        }
                        assert(!spec_retained(cat, inv, srch, e as int));
                    }
                }
            } else {
                proof {
                    if group_has_two(cat, inv, e as int) {
                        let (i, j) = choose|i: int, j: int|
                            i != j && in_group(cat, inv, e as int, i) && in_group(
                                cat,
                                inv,
                                e as int,
                                j,
                            );
                        lemma_owned_canonical(cat, inv, i);
                        lemma_owned_canonical(cat, inv, j);
                        assert(group@.contains(i as usize));
                        assert(group@.contains(j as usize));
                        let qi = choose|qi: int| 0 <= qi < group@.len() && group@[qi] == i as usize;
                        let qj = choose|qj: int| 0 <= qj < group@.len() && group@[qj] == j as usize;
                        assert(qi != qj);
                        assert(false);
                    }
                    assert(!spec_retained(cat, inv, srch, e as int));
                }
            }
            e += 1;
        }
        proof {
            assert forall|n: int| 0 <= n < out@.len() implies recipe_among(
                cat,
                inv,
                srch,
                #[trigger] out@[n],
                cat.effects@.len() as int,
            ) by {
                assert(recipe_among(cat, inv, srch, out@[n], e as int));
            }
            assert forall|ee: int| spec_retained(cat, inv, srch, ee) implies exists|n: int|
                0 <= n < out@.len() && out@[n].effect@ == cat.effects@[ee].effect@ by {
                let x = choose|x: Recipe|
                    out@.contains(x) && x.effect@ == cat.effects@[ee].effect@;
                let n = choose|n: int| 0 <= n < out@.len() && out@[n] == x;
            }
            assert(find_recipes_post(cat, inv, srch, out@));
        }
        out
    }
}



} // verus!
