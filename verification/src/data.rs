//! The static catalog: ingredient and effect records, and the name-keyed
//! index built over them.  Duplicate names in the source arrays collapse
//! deterministically, the last occurrence winning, exactly as inserting the
//! records in order into a name-keyed map would behave.

use vstd::prelude::*;
use vstd::string::*;

use crate::strings::str_eq;

verus! {

/// A non-negative decimal carry weight, kept as an unscaled integer and a
/// power-of-ten scale: the value is `unscaled / 10^scale`.  The discovery
/// engine never reads it; it is catalog metadata.
#[derive(Clone, Copy, PartialEq, Eq, Structural, Debug)]
pub struct Weight {
    pub unscaled: u64,
    pub scale: i64,
}

/// An immutable catalog record: an ingredient and the effect names it can
/// contribute to.  Effect names may dangle (name no effect of the catalog);
/// such references are skipped at query time, never an error.
#[derive(Debug)]
pub struct Ingredient {
    pub name: String,
    pub effects: Vec<String>,
    pub obtained: String,
    pub value: u32,
    pub weight: Weight,
}

/// An immutable catalog record: an effect and its base currency value.
#[derive(Debug)]
pub struct Effect {
    pub effect: String,
    pub value: u32,
}

/// The load-once catalog: ordered ingredient and effect tables.
#[derive(Debug)]
pub struct AlchemyData {
    pub ingredients: Vec<Ingredient>,
    pub effects: Vec<Effect>,
}

// ---------------------------------------------------------------------------
// Name resolution, "last wins"
// ---------------------------------------------------------------------------

/// The largest index of `names` holding `name`, if any: the entry that
/// survives when the names are inserted in order into a name-keyed map.
pub open spec fn last_index_of_name(names: Seq<Seq<char>>, name: Seq<char>) -> Option<int>
    decreases names.len(),
{
    if names.len() == 0 {
        Option::None
    } else if names.last() == name {
        Option::Some(names.len() - 1)
    } else {
        last_index_of_name(names.drop_last(), name)
    }
}

/// The ingredient names of the catalog, in table order.
pub open spec fn ing_names(data: AlchemyData) -> Seq<Seq<char>> {
    data.ingredients@.map_values(|i: Ingredient| i.name@)
}

/// The effect names of the catalog, in table order.
pub open spec fn eff_names(data: AlchemyData) -> Seq<Seq<char>> {
    data.effects@.map_values(|e: Effect| e.effect@)
}

/// The catalog position an ingredient name resolves to, if any.
pub open spec fn spec_ing_index(data: AlchemyData, name: Seq<char>) -> Option<int> {
    last_index_of_name(ing_names(data), name)
}

/// The catalog position an effect name resolves to, if any.
pub open spec fn spec_eff_index(data: AlchemyData, name: Seq<char>) -> Option<int> {
    last_index_of_name(eff_names(data), name)
}

/// The ingredient record an ingredient name resolves to, if any.
pub open spec fn spec_find_ingredient(data: AlchemyData, name: Seq<char>) -> Option<Ingredient> {
    match spec_ing_index(data, name) {
        Option::Some(i) => Option::Some(data.ingredients@[i]),
        Option::None => Option::None,
    }
}

/// The effect record an effect name resolves to, if any.
pub open spec fn spec_find_effect(data: AlchemyData, name: Seq<char>) -> Option<Effect> {
    match spec_eff_index(data, name) {
        Option::Some(i) => Option::Some(data.effects@[i]),
        Option::None => Option::None,
    }
}

/// What [`last_index_of_name`] returns: the hit is a match with no later
/// match, and a miss means no entry matches at all.
pub proof fn lemma_last_index_of_name(names: Seq<Seq<char>>, name: Seq<char>)
    ensures
        match last_index_of_name(names, name) {
            Option::Some(i) => 0 <= i < names.len() && names[i] == name && forall|j: int|
                i < j < names.len() ==> names[j] != name,
            Option::None => forall|j: int| 0 <= j < names.len() ==> names[j] != name,
        },
    decreases names.len(),
{
    if names.len() > 0 && names.last() != name {
        lemma_last_index_of_name(names.drop_last(), name);
        assert(forall|j: int| 0 <= j < names.len() - 1 ==> names.drop_last()[j] == names[j]);
    }
}

/// An index is *canonical* when its own name resolves back to it, i.e. no
/// later entry shadows it.
pub proof fn lemma_canonical_iff(names: Seq<Seq<char>>, i: int)
    requires
        0 <= i < names.len(),
    ensures
        (last_index_of_name(names, names[i]) == Option::Some(i)) <==> (forall|j: int|
            i < j < names.len() ==> names[j] != names[i]),
{
    lemma_last_index_of_name(names, names[i]);
    if forall|j: int| i < j < names.len() ==> names[j] != names[i] {
        match last_index_of_name(names, names[i]) {
            Option::Some(k) => {
                if k < i {
                    assert(names[i] == names[i]);
                    assert(false);
                }
            },
            Option::None => {
                assert(names[i] != names[i]);
            },
        }
    }
}

// ---------------------------------------------------------------------------
// The catalog index
// ---------------------------------------------------------------------------

/// A name-keyed view over a catalog.  Building it collapses duplicate names
/// (last occurrence wins) into the two position tables; lookups consult only
/// the surviving, canonical positions.
pub struct AlchemyDataIndexes<'a> {
    data: &'a AlchemyData,
    ingredient_positions: Vec<usize>,
    effect_positions: Vec<usize>,
}

/// Is `names[i]` never repeated later in `names`?
spec fn is_canonical(names: Seq<Seq<char>>, i: int) -> bool {
    0 <= i < names.len() && forall|j: int| i < j < names.len() ==> names[j] != names[i]
}

/// Scan forward from `i + 1`: does any later entry repeat `names[i]`'s name?
fn is_last_with_name_ing(items: &Vec<Ingredient>, i: usize) -> (r: bool)
    requires
        i < items@.len(),
    ensures
        r == is_canonical(items@.map_values(|it: Ingredient| it.name@), i as int),
{
    let ghost names = items@.map_values(|it: Ingredient| it.name@);
    let n = items.len();
    let mut j = i + 1;
    while j < n
        invariant
            i < j <= n,
            n == items@.len(),
            names == items@.map_values(|it: Ingredient| it.name@),
            forall|k: int| i < k < j ==> names[k] != names[i as int],
        decreases n - j,
    {
        if str_eq(items[j].name.as_str(), items[i].name.as_str()) {
            proof {
                assert(names[j as int] == items@[j as int].name@);
                assert(names[i as int] == items@[i as int].name@);
            }
            return false;
        }
        j += 1;
    }
    true
}

/// Scan forward from `i + 1`: does any later entry repeat `effects[i]`'s name?
fn is_last_with_name_eff(items: &Vec<Effect>, i: usize) -> (r: bool)
    requires
        i < items@.len(),
    ensures
        r == is_canonical(items@.map_values(|it: Effect| it.effect@), i as int),
{
    let ghost names = items@.map_values(|it: Effect| it.effect@);
    let n = items.len();
    let mut j = i + 1;
    while j < n
        invariant
            i < j <= n,
            n == items@.len(),
            names == items@.map_values(|it: Effect| it.effect@),
            forall|k: int| i < k < j ==> names[k] != names[i as int],
        decreases n - j,
    {
        if str_eq(items[j].effect.as_str(), items[i].effect.as_str()) {
            proof {
                assert(names[j as int] == items@[j as int].effect@);
                assert(names[i as int] == items@[i as int].effect@);
            }
            return false;
        }
        j += 1;
    }
    true
}

impl<'a> AlchemyDataIndexes<'a> {
    /// The catalog this index was built over.
    pub closed spec fn catalog(self) -> AlchemyData {
        *self.data
    }

    #[verifier::type_invariant]
    spec fn wf(self) -> bool {
        &&& forall|k: int| 0 <= k < self.ingredient_positions@.len() ==> is_canonical(
            ing_names(*self.data),
            #[trigger] self.ingredient_positions@[k] as int,
        )
        &&& forall|i: int| is_canonical(ing_names(*self.data), i)
            ==> self.ingredient_positions@.contains(i as usize)
        &&& forall|k: int| 0 <= k < self.effect_positions@.len() ==> is_canonical(
            eff_names(*self.data),
            #[trigger] self.effect_positions@[k] as int,
        )
        &&& forall|i: int| is_canonical(eff_names(*self.data), i)
            ==> self.effect_positions@.contains(i as usize)
    }

    /// Build the name-keyed index: keep, for every distinct name, the last
    /// catalog entry carrying it.
    pub fn new(alchemy_data: &'a AlchemyData) -> (r: AlchemyDataIndexes<'a>)
        ensures
            r.catalog() == *alchemy_data,
    {
        let ghost inames = ing_names(*alchemy_data);
        let ghost enames = eff_names(*alchemy_data);
        let mut ingredient_positions: Vec<usize> = Vec::new();
        let mut i: usize = 0;
        while i < alchemy_data.ingredients.len()
            invariant
                i <= alchemy_data.ingredients@.len(),
                inames == ing_names(*alchemy_data),
                forall|k: int| 0 <= k < ingredient_positions@.len() ==> is_canonical(
                    inames,
                    #[trigger] ingredient_positions@[k] as int,
                ),
                forall|p: int| 0 <= p < i && is_canonical(inames, p)
                    ==> ingredient_positions@.contains(p as usize),
            decreases alchemy_data.ingredients@.len() - i,
        {
            if is_last_with_name_ing(&alchemy_data.ingredients, i) {
                let ghost before = ingredient_positions@;
                ingredient_positions.push(i);
                proof {
                    crate::seqs::lemma_push_contains(before, i as usize);
                }
            }
            i += 1;
        }
        let mut effect_positions: Vec<usize> = Vec::new();
        let mut e: usize = 0;
        while e < alchemy_data.effects.len()
            invariant
                e <= alchemy_data.effects@.len(),
                enames == eff_names(*alchemy_data),
                forall|k: int| 0 <= k < effect_positions@.len() ==> is_canonical(
                    enames,
                    #[trigger] effect_positions@[k] as int,
                ),
                forall|p: int| 0 <= p < e && is_canonical(enames, p)
                    ==> effect_positions@.contains(p as usize),
            decreases alchemy_data.effects@.len() - e,
        {
            if is_last_with_name_eff(&alchemy_data.effects, e) {
                let ghost before = effect_positions@;
                effect_positions.push(e);
                proof {
                    crate::seqs::lemma_push_contains(before, e as usize);
                }
            }
            e += 1;
        }
        AlchemyDataIndexes { data: alchemy_data, ingredient_positions, effect_positions }
    }

    /// A borrow of the indexed catalog.
    pub(crate) fn catalog_ref(&self) -> (r: &'a AlchemyData)
        ensures
            *r == self.catalog(),
    {
        self.data
    }

    /// The catalog position `name` resolves to among the ingredients, if any.
    pub(crate) fn ingredient_index(&self, name: &str) -> (r: Option<usize>)
        ensures
            match r {
                Option::Some(i) => spec_ing_index(self.catalog(), name@) == Option::Some(i as int),
                Option::None => spec_ing_index(self.catalog(), name@) is None,
            },
    {
        proof {
            use_type_invariant(self);
        }
        let ghost names = ing_names(*self.data);
        let n = self.data.ingredients.len();
        proof {
            assert(names.len() == n);
        }
        let mut k: usize = 0;
        while k < self.ingredient_positions.len()
            invariant
                self.wf(),
                names == ing_names(*self.data),
                k <= self.ingredient_positions@.len(),
                forall|kk: int| 0 <= kk < k
                    ==> names[#[trigger] self.ingredient_positions@[kk] as int] != name@,
            decreases self.ingredient_positions@.len() - k,
        {
            let p = self.ingredient_positions[k];
            if str_eq(self.data.ingredients[p].name.as_str(), name) {
                proof {
                    lemma_canonical_iff(names, p as int);
                }
                return Option::Some(p);
            }
            k += 1;
        }
        proof {
            lemma_last_index_of_name(names, name@);
            if spec_ing_index(*self.data, name@) is Some {
                let i = spec_ing_index(*self.data, name@)->Some_0;
                lemma_canonical_iff(names, i);
                assert(is_canonical(names, i));
                let kk = choose|kk: int| 0 <= kk < self.ingredient_positions@.len()
                    && self.ingredient_positions@[kk] == i as usize;
                assert(names[self.ingredient_positions@[kk] as int] != name@);
                assert(false);
            }
        }
        Option::None
    }

    /// The catalog position `name` resolves to among the effects, if any.
    pub(crate) fn effect_index(&self, name: &str) -> (r: Option<usize>)
        ensures
            match r {
                Option::Some(i) => spec_eff_index(self.catalog(), name@) == Option::Some(i as int),
                Option::None => spec_eff_index(self.catalog(), name@) is None,
            },
    {
        proof {
            use_type_invariant(self);
        }
        let ghost names = eff_names(*self.data);
        let n = self.data.effects.len();
        proof {
            assert(names.len() == n);
        }
        let mut k: usize = 0;
        while k < self.effect_positions.len()
            invariant
                self.wf(),
                names == eff_names(*self.data),
                k <= self.effect_positions@.len(),
                forall|kk: int| 0 <= kk < k
                    ==> names[#[trigger] self.effect_positions@[kk] as int] != name@,
            decreases self.effect_positions@.len() - k,
        {
            let p = self.effect_positions[k];
            if str_eq(self.data.effects[p].effect.as_str(), name) {
                proof {
                    lemma_canonical_iff(names, p as int);
                }
                return Option::Some(p);
            }
            k += 1;
        }
        proof {
            lemma_last_index_of_name(names, name@);
            if spec_eff_index(*self.data, name@) is Some {
                let i = spec_eff_index(*self.data, name@)->Some_0;
                lemma_canonical_iff(names, i);
                assert(is_canonical(names, i));
                let kk = choose|kk: int| 0 <= kk < self.effect_positions@.len()
                    && self.effect_positions@[kk] == i as usize;
                assert(names[self.effect_positions@[kk] as int] != name@);
                assert(false);
            }
        }
        Option::None
    }

    /// Look an ingredient up by name; of duplicate names the last survives.
    pub fn find_ingredient_by_name(&self, name: &str) -> (r: Option<&Ingredient>)
        ensures
            match r {
                Option::Some(ing) => spec_find_ingredient(self.catalog(), name@)
                    == Option::Some(*ing),
                Option::None => spec_find_ingredient(self.catalog(), name@) is None,
            },
    {
        match self.ingredient_index(name) {
            Option::Some(i) => {
                proof {
                    lemma_last_index_of_name(ing_names(*self.data), name@);
                }
                Option::Some(&self.data.ingredients[i])
            },
            Option::None => Option::None,
        }
    }

    /// Look an effect up by name; of duplicate names the last survives.
    pub fn find_effect_by_name(&self, name: &str) -> (r: Option<&Effect>)
        ensures
            match r {
                Option::Some(eff) => spec_find_effect(self.catalog(), name@)
                    == Option::Some(*eff),
                Option::None => spec_find_effect(self.catalog(), name@) is None,
            },
    {
        match self.effect_index(name) {
            Option::Some(i) => {
                proof {
                    lemma_last_index_of_name(eff_names(*self.data), name@);
                }
                Option::Some(&self.data.effects[i])
            },
            Option::None => Option::None,
        }
    }
}

} // verus!
