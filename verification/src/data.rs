//! The recipe catalog: items, recipes and primitive-resource listings,
//! with the derived queries the solver needs (producers and consumers of
//! an item, excluding a caller-supplied set of disallowed recipes).

use vstd::prelude::*;
use vstd::string::{StrSliceExecFns, StringExecFns};

use crate::sets::IdSet;
use crate::units::{AMOUNT_MAX, TIME_MAX};

verus! {

/// A per-cycle quantity of one item, fixed-point scaled.
#[derive(Debug)]
pub struct ItemQuantity {
    pub item: String,
    pub amount: i64,
}

/// A catalog entry converting fixed per-cycle ingredient amounts into fixed
/// per-cycle product amounts over a cycle time (`time`, fixed-point seconds).
#[verifier::ext_equal]
#[derive(Debug)]
pub struct Recipe {
    pub name: String,
    pub class_name: String,
    pub alternate: bool,
    pub time: i64,
    pub for_building: bool,
    pub ingredients: Vec<ItemQuantity>,
    pub products: Vec<ItemQuantity>,
}

/// A craftable or primitive item.
#[derive(Debug)]
pub struct Item {
    pub id: String,
    pub name: String,
}

/// A catalog listing marking one item as extractable from the world.
#[derive(Debug)]
pub struct Resource {
    pub name: String,
}

/// Why a catalog was rejected at construction.
#[derive(Debug, PartialEq, Eq, Structural, Clone, Copy)]
pub enum DataError {
    /// Two recipes share an identifier.
    DuplicateRecipe,
    /// Two items share an identifier.
    DuplicateItem,
    /// A recipe identifier collides with an item identifier.
    IdClash,
    /// A cycle time lies outside `(0, TIME_MAX]`.
    BadTime,
    /// An ingredient or product amount lies outside `(0, AMOUNT_MAX]`.
    BadQuantity,
    /// An ingredient or product names an unknown item.
    UnknownQuantityItem,
    /// A recipe lists the same item twice among its ingredients or its
    /// products (each list is an ordered set).
    RepeatedQuantityItem,
}

/// `pat` occurs as a contiguous run inside `s`.
pub open spec fn contains_seq(s: Seq<char>, pat: Seq<char>) -> bool {
    exists|off: int|
        #![trigger s.subrange(off, off + pat.len() as int)]
        0 <= off && off + pat.len() <= s.len() && s.subrange(off, off + pat.len() as int) == pat
}

/// A recipe the planner never uses: marked building-only, or a packaging
/// recipe (its identifier mentions "ackage").
pub open spec fn recipe_excluded(rec: Recipe) -> bool {
    rec.for_building || contains_seq(rec.class_name@, "ackage"@)
}

/// Whether `pat` occurs as a contiguous run inside `s`.
fn contains_pattern(s: &String, pat: &String) -> (b: bool)
    ensures
        b == contains_seq(s@, pat@),
{
    let n = s.as_str().unicode_len();
    let m = pat.as_str().unicode_len();
    if m > n {
        proof {
            if contains_seq(s@, pat@) {
                let off = choose|off: int|
                    #![trigger s@.subrange(off, off + pat@.len() as int)]
                    0 <= off && off + pat@.len() <= s@.len() && s@.subrange(
                        off,
                        off + pat@.len() as int,
                    ) == pat@;
                assert(false);
            }
        }
        return false;
    }
    if m == 0 {
        proof {
            assert(s@.subrange(0, 0 + pat@.len() as int) =~= pat@);
        }
        return true;
    }
    let mut off: usize = 0;
    while off <= n - m
        invariant
            n == s@.len(),
            m == pat@.len(),
            0 < m <= n,
            0 <= off,
            off <= n - m + 1,
            forall|o2: int|
                #![trigger s@.subrange(o2, o2 + m)]
                0 <= o2 < off ==> s@.subrange(o2, o2 + m) != pat@,
        decreases n - m + 1 - off,
    {
        let mut t: usize = 0;
        let mut matches_here = true;
        while t < m && matches_here
            invariant
                n == s@.len(),
                m == pat@.len(),
                off + m <= n,
                0 <= t <= m,
                matches_here ==> forall|t2: int| 0 <= t2 < t ==> s@[off + t2] == pat@[t2],
                !matches_here ==> s@.subrange(off as int, off + m) != pat@,
            decreases m - t, (if matches_here {
                1int
            } else {
                0int
            }),
        {
            let sc = s.as_str().get_char(off + t);
            let pc = pat.as_str().get_char(t);
            if sc != pc {
                proof {
                    if s@.subrange(off as int, off + m) == pat@ {
                        assert(s@.subrange(off as int, off + m)[t as int] == s@[off + t]);
                        assert(false);
                    }
                }
                matches_here = false;
            } else {
                t += 1;
            }
        }
        if matches_here {
            proof {
                assert(s@.subrange(off as int, off + m) =~= pat@);
            }
            return true;
        }
        off += 1;
    }
    proof {
        if contains_seq(s@, pat@) {
            let o = choose|o: int|
                #![trigger s@.subrange(o, o + pat@.len() as int)]
                0 <= o && o + pat@.len() <= s@.len() && s@.subrange(o, o + pat@.len() as int)
                    == pat@;
            assert(o < off);
            assert(false);
        }
    }
    false
}

/// `rec` produces the item with identifier `id`.
pub open spec fn rec_has_product(rec: Recipe, id: Seq<char>) -> bool {
    exists|i: int| 0 <= i < rec.products@.len() && rec.products@[i].item@ == id
}

/// `rec` consumes the item with identifier `id`.
pub open spec fn rec_has_ingredient(rec: Recipe, id: Seq<char>) -> bool {
    exists|i: int| 0 <= i < rec.ingredients@.len() && rec.ingredients@[i].item@ == id
}

/// The item with identifier `id` occurs in `its`.
pub open spec fn item_listed(its: Seq<Item>, id: Seq<char>) -> bool {
    exists|i: int| 0 <= i < its.len() && its[i].id@ == id
}

/// The quantities of `qs` name pairwise-distinct items: the list is an
/// ordered set.
pub open spec fn quantities_distinct(qs: Seq<ItemQuantity>) -> bool {
    forall|i: int, j: int|
        #![trigger qs[i].item, qs[j].item]
        0 <= i < j < qs.len() ==> qs[i].item@ != qs[j].item@
}

/// Every quantity of `qs` has a positive, bounded amount and names a listed item.
pub open spec fn quantities_ok(qs: Seq<ItemQuantity>, its: Seq<Item>) -> bool {
    forall|i: int|
        0 <= i < qs.len() ==> 0 < (#[trigger] qs[i]).amount <= AMOUNT_MAX && item_listed(
            its,
            qs[i].item@,
        )
}

/// The catalog invariant: identifiers unique, recipe and item identifier
/// namespaces disjoint, every cycle time and amount positive and bounded,
/// every quantity naming a listed item.
pub open spec fn catalog_ok(rs: Seq<Recipe>, its: Seq<Item>) -> bool {
    &&& forall|i: int, j: int|
        #![trigger rs[i].class_name, rs[j].class_name]
        0 <= i < j < rs.len() ==> rs[i].class_name@ != rs[j].class_name@
    &&& forall|i: int, j: int|
        #![trigger its[i].id, its[j].id]
        0 <= i < j < its.len() ==> its[i].id@ != its[j].id@
    &&& forall|i: int, j: int|
        #![trigger rs[i].class_name, its[j].id]
        0 <= i < rs.len() && 0 <= j < its.len() ==> rs[i].class_name@ != its[j].id@
    &&& forall|i: int| 0 <= i < rs.len() ==> 0 < (#[trigger] rs[i]).time <= TIME_MAX
    &&& forall|i: int|
        0 <= i < rs.len() ==> quantities_ok((#[trigger] rs[i]).ingredients@, its)
            && quantities_ok(rs[i].products@, its)
    &&& forall|i: int|
        0 <= i < rs.len() ==> quantities_distinct((#[trigger] rs[i]).ingredients@)
            && quantities_distinct(rs[i].products@)
}

/// Some recipe outside `dis` produces `item`.
pub open spec fn some_creator(d: GameData, dis: Set<Seq<char>>, item: Seq<char>) -> bool {
    exists|j: int|
        0 <= j < d.recipes@.len() && !dis.contains((#[trigger] d.recipes@[j]).class_name@)
            && rec_has_product(d.recipes@[j], item)
}

/// Entry `k` of `r` is the identifier of one of the first `n` recipes.
pub open spec fn creator_from_prefix(d: GameData, r: Seq<String>, k: int, n: int) -> bool {
    exists|j: int| 0 <= j < n && r[k] == (#[trigger] d.recipes@[j]).class_name
}

/// `id` names a recipe outside `dis` that produces `item`.
pub open spec fn creator_witness(
    d: GameData,
    dis: Set<Seq<char>>,
    item: Seq<char>,
    id: Seq<char>,
) -> bool {
    exists|j: int|
        0 <= j < d.recipes@.len() && (#[trigger] d.recipes@[j]).class_name@ == id && !dis.contains(
            id,
        ) && rec_has_product(d.recipes@[j], item)
}

/// `id` names a recipe outside `dis` that consumes `item`.
pub open spec fn user_witness(
    d: GameData,
    dis: Set<Seq<char>>,
    item: Seq<char>,
    id: Seq<char>,
) -> bool {
    exists|j: int|
        0 <= j < d.recipes@.len() && (#[trigger] d.recipes@[j]).class_name@ == id && !dis.contains(
            id,
        ) && rec_has_ingredient(d.recipes@[j], item)
}

/// The read-only store of recipes, items and primitive resources.
#[derive(Debug)]
pub struct GameData {
    pub recipes: Vec<Recipe>,
    pub items: Vec<Item>,
    pub resources: Vec<Resource>,
}

impl GameData {
    /// The catalog invariant, over this store's contents.
    pub open spec fn wf(self) -> bool {
        catalog_ok(self.recipes@, self.items@)
    }

    /// An item with identifier `id` exists.
    pub open spec fn has_item(self, id: Seq<char>) -> bool {
        item_listed(self.items@, id)
    }

    /// A recipe with identifier `id` exists.
    pub open spec fn has_recipe(self, id: Seq<char>) -> bool {
        exists|i: int| 0 <= i < self.recipes@.len() && self.recipes@[i].class_name@ == id
    }

    /// Index of the item with identifier `id`.
    pub open spec fn item_index(self, id: Seq<char>) -> int {
        choose|i: int| 0 <= i < self.items@.len() && self.items@[i].id@ == id
    }

    /// The item with identifier `id`.
    pub open spec fn item_at(self, id: Seq<char>) -> Item {
        self.items@[self.item_index(id)]
    }

    /// Index of the recipe with identifier `id`.
    pub open spec fn recipe_index(self, id: Seq<char>) -> int {
        choose|i: int| 0 <= i < self.recipes@.len() && self.recipes@[i].class_name@ == id
    }

    /// The recipe with identifier `id`.
    pub open spec fn recipe_at(self, id: Seq<char>) -> Recipe {
        self.recipes@[self.recipe_index(id)]
    }

    /// Builds a catalog: recipes marked `for_building` and packaging
    /// recipes are discarded, and the remainder is accepted exactly when it
    /// satisfies the catalog invariant.
    pub fn new(recipes: Vec<Recipe>, items: Vec<Item>, resources: Vec<Resource>) -> (r: Result<
        GameData,
        DataError,
    >)
        ensures
            r is Ok <==> catalog_ok(
                recipes@.filter(|rec: Recipe| !recipe_excluded(rec)),
                items@,
            ),
            r matches Ok(d) ==> d.recipes@ == recipes@.filter(|rec: Recipe| !recipe_excluded(rec))
                && d.items@ == items@ && d.resources@ == resources@ && d.wf(),
    {
        let ghost orig = recipes@;
        let mut remaining = recipes;
        let n = remaining.len();
        proof {
            assert(orig.len() == n as int);
        }
        let pat = String::from_str("ackage");
        let mut kept: Vec<Recipe> = Vec::new();
        let mut i: usize = 0;
        while remaining.len() > 0
            invariant
                orig.len() <= usize::MAX,
                pat@ == "ackage"@,
                i + remaining@.len() == orig.len(),
                remaining@ == orig.skip(i as int),
                kept@ == orig.take(i as int).filter(|rec: Recipe| !recipe_excluded(rec)),
            decreases remaining@.len(),
        {
            proof {
                reveal(Seq::filter);
                assert(orig.take(i + 1).drop_last() =~= orig.take(i as int));
                assert(orig.take(i + 1).last() == orig[i as int]);
                assert(remaining@[0] == orig[i as int]);
            }
            let rec = remaining.remove(0);
            proof {
                assert(remaining@ =~= orig.skip(i + 1));
            }
            if !rec.for_building && !contains_pattern(&rec.class_name, &pat) {
                kept.push(rec);
            }
            i += 1;
        }
        proof {
            assert(orig.take(orig.len() as int) =~= orig);
        }
        let d = GameData { recipes: kept, items, resources };
        if !check_unique_recipes(&d.recipes) {
            return Err(DataError::DuplicateRecipe);
        }
        if !check_unique_items(&d.items) {
            return Err(DataError::DuplicateItem);
        }
        if !check_disjoint(&d.recipes, &d.items) {
            return Err(DataError::IdClash);
        }
        if !check_times(&d.recipes) {
            return Err(DataError::BadTime);
        }
        match check_quantities(&d.recipes, &d.items) {
            Some(e) => {
                return Err(e);
            },
            None => {},
        }
        if !check_distinct_quantities(&d.recipes) {
            return Err(DataError::RepeatedQuantityItem);
        }
        Ok(d)
    }

    /// Whether an item with identifier `id` is listed.
    pub fn contains_item(&self, id: &String) -> (b: bool)
        ensures
            b == self.has_item(id@),
    {
        item_exists(&self.items, id)
    }

    /// Whether a recipe with identifier `id` is listed.
    pub fn contains_recipe(&self, id: &String) -> (b: bool)
        ensures
            b == self.has_recipe(id@),
    {
        let mut i: usize = 0;
        while i < self.recipes.len()
            invariant
                0 <= i <= self.recipes@.len(),
                forall|j: int| 0 <= j < i ==> self.recipes@[j].class_name@ != id@,
            decreases self.recipes@.len() - i,
        {
            if self.recipes[i].class_name == *id {
                return true;
            }
            i += 1;
        }
        false
    }

    /// Point lookup of an item.
    pub fn get_item(&self, item_id: &String) -> (r: &Item)
        requires
            self.wf(),
            self.has_item(item_id@),
        ensures
            r == self.item_at(item_id@),
            r.id@ == item_id@,
    {
        let mut i: usize = 0;
        while i < self.items.len()
            invariant
                0 <= i <= self.items@.len(),
                forall|j: int| 0 <= j < i ==> self.items@[j].id@ != item_id@,
                self.wf(),
                self.has_item(item_id@),
            decreases self.items@.len() - i,
        {
            if self.items[i].id == *item_id {
                proof {
                    let k = self.item_index(item_id@);
                    assert(self.items@[k].id@ == item_id@);
                    if k < i {
                        assert(self.items@[k].id@ != self.items@[i as int].id@);
                    } else if i < k {
                        assert(self.items@[i as int].id@ != self.items@[k].id@);
                    }
                }
                return &self.items[i];
            }
            i += 1;
        }
        proof {
            assert(false);
        }
        &self.items[0]
    }

    /// Point lookup of a recipe.
    pub fn get_recipe(&self, recipe_id: &String) -> (r: &Recipe)
        requires
            self.wf(),
            self.has_recipe(recipe_id@),
        ensures
            r == self.recipe_at(recipe_id@),
            r.class_name@ == recipe_id@,
    {
        let mut i: usize = 0;
        while i < self.recipes.len()
            invariant
                0 <= i <= self.recipes@.len(),
                forall|j: int| 0 <= j < i ==> self.recipes@[j].class_name@ != recipe_id@,
                self.wf(),
                self.has_recipe(recipe_id@),
            decreases self.recipes@.len() - i,
        {
            if self.recipes[i].class_name == *recipe_id {
                proof {
                    let k = self.recipe_index(recipe_id@);
                    assert(self.recipes@[k].class_name@ == recipe_id@);
                    if k < i {
                        assert(self.recipes@[k].class_name@ != self.recipes@[i as int].class_name@);
                    } else if i < k {
                        assert(self.recipes@[i as int].class_name@ != self.recipes@[k].class_name@);
                    }
                }
                return &self.recipes[i];
            }
            i += 1;
        }
        proof {
            assert(false);
        }
        &self.recipes[0]
    }

    /// Display name of an item.
    pub fn get_item_name(&self, item_id: &String) -> (r: String)
        requires
            self.wf(),
            self.has_item(item_id@),
        ensures
            r == self.item_at(item_id@).name,
    {
        self.get_item(item_id).name.clone()
    }

    /// Display name of a recipe.
    pub fn get_recipe_name(&self, recipe_id: &String) -> (r: String)
        requires
            self.wf(),
            self.has_recipe(recipe_id@),
        ensures
            r == self.recipe_at(recipe_id@).name,
    {
        self.get_recipe(recipe_id).name.clone()
    }

    /// The identifiers of the ingredients of a recipe, in catalog order.
    pub fn get_ingredients(&self, recipe_id: &String) -> (r: Vec<String>)
        requires
            self.wf(),
            self.has_recipe(recipe_id@),
        ensures
            r@ == self.recipe_at(recipe_id@).ingredients@.map_values(
                |iq: ItemQuantity| iq.item,
            ),
    {
        let rec = self.get_recipe(recipe_id);
        quantity_items(&rec.ingredients)
    }

    /// The identifiers of the products of a recipe, in catalog order.
    pub fn get_products(&self, recipe_id: &String) -> (r: Vec<String>)
        requires
            self.wf(),
            self.has_recipe(recipe_id@),
        ensures
            r@ == self.recipe_at(recipe_id@).products@.map_values(|iq: ItemQuantity| iq.item),
    {
        let rec = self.get_recipe(recipe_id);
        quantity_items(&rec.products)
    }

    /// Identifiers of the recipes outside `disallowed` that produce `item_id`,
    /// in catalog order.
    pub fn get_item_creators(&self, item_id: &String, disallowed: &IdSet) -> (r: Vec<String>)
        ensures
            r@ == self.recipes@.filter(
                |rec: Recipe| !disallowed@.contains(rec.class_name@) && rec_has_product(
                    rec,
                    item_id@,
                ),
            ).map_values(|rec: Recipe| rec.class_name),
            (r@.len() > 0) == some_creator(*self, disallowed@, item_id@),
            forall|k: int|
                0 <= k < r@.len() ==> creator_witness(
                    *self,
                    disallowed@,
                    item_id@,
                    (#[trigger] r@[k])@,
                ),
            (forall|i: int, j: int|
                #![trigger self.recipes@[i].class_name, self.recipes@[j].class_name]
                0 <= i < j < self.recipes@.len() ==> self.recipes@[i].class_name@
                    != self.recipes@[j].class_name@) ==> (forall|p: int, q: int|
                #![trigger r@[p], r@[q]]
                0 <= p < q < r@.len() ==> r@[p]@ != r@[q]@),
    {
        let mut r: Vec<String> = Vec::new();
        let mut i: usize = 0;
        while i < self.recipes.len()
            invariant
                0 <= i <= self.recipes@.len(),
                r@ == self.recipes@.take(i as int).filter(
                    |rec: Recipe| !disallowed@.contains(rec.class_name@) && rec_has_product(
                        rec,
                        item_id@,
                    ),
                ).map_values(|rec: Recipe| rec.class_name),
                (r@.len() > 0) == (exists|j: int|
                    0 <= j < i && !disallowed@.contains(
                        (#[trigger] self.recipes@[j]).class_name@,
                    ) && rec_has_product(self.recipes@[j], item_id@)),
                forall|k: int|
                    0 <= k < r@.len() ==> creator_witness(
                        *self,
                        disallowed@,
                        item_id@,
                        (#[trigger] r@[k])@,
                    ),
                forall|k: int|
                    0 <= k < r@.len() ==> #[trigger] creator_from_prefix(*self, r@, k, i as int),
                (forall|i2: int, j2: int|
                    #![trigger self.recipes@[i2].class_name, self.recipes@[j2].class_name]
                    0 <= i2 < j2 < self.recipes@.len() ==> self.recipes@[i2].class_name@
                        != self.recipes@[j2].class_name@) ==> (forall|p: int, q: int|
                    #![trigger r@[p], r@[q]]
                    0 <= p < q < r@.len() ==> r@[p]@ != r@[q]@),
            decreases self.recipes@.len() - i,
        {
            proof {
                reveal(Seq::filter);
                assert(self.recipes@.take(i + 1).drop_last() =~= self.recipes@.take(i as int));
                assert(self.recipes@.take(i + 1).last() == self.recipes@[i as int]);
            }
            let allowed = !disallowed.contains(&self.recipes[i].class_name);
            let produces = quantities_mention(&self.recipes[i].products, item_id);
            let ghost rold = r@;
            if allowed && produces {
                r.push(self.recipes[i].class_name.clone());
                proof {
                    assert(creator_witness(*self, disallowed@, item_id@, r@.last()@)) by {
                        assert(self.recipes@[i as int].class_name@ == r@.last()@);
                    }
                    assert forall|k: int| 0 <= k < r@.len() implies #[trigger] creator_from_prefix(
                        *self,
                        r@,
                        k,
                        i + 1,
                    ) by {
                        if k < r@.len() - 1 {
                            assert(creator_from_prefix(*self, rold, k, i as int));
                            let j = choose|j: int|
                                0 <= j < i && rold[k] == self.recipes@[j].class_name;
                            assert(r@[k] == self.recipes@[j].class_name);
                        } else {
                            assert(r@[k] == self.recipes@[i as int].class_name);
                        }
                    }
                    if forall|i2: int, j2: int|
                        #![trigger self.recipes@[i2].class_name, self.recipes@[j2].class_name]
                        0 <= i2 < j2 < self.recipes@.len() ==> self.recipes@[i2].class_name@
                            != self.recipes@[j2].class_name@ {
                        assert forall|p: int, q: int|
                            #![trigger r@[p], r@[q]]
                            0 <= p < q < r@.len() implies r@[p]@ != r@[q]@ by {
                            if q == r@.len() - 1 {
                                assert(creator_from_prefix(*self, rold, p, i as int));
                                let j = choose|j: int|
                                    0 <= j < i && rold[p] == self.recipes@[j].class_name;
                                assert(self.recipes@[j].class_name@
                                    != self.recipes@[i as int].class_name@);
                                assert(r@[q]@ == self.recipes@[i as int].class_name@);
                            } else {
                                assert(rold[p]@ != rold[q]@);
                            }
                        }
                    }
                    let f = self.recipes@.take(i as int).filter(
                        |rec: Recipe| !disallowed@.contains(rec.class_name@) && rec_has_product(
                            rec,
                            item_id@,
                        ),
                    );
                    assert(self.recipes@.take(i + 1).filter(
                        |rec: Recipe| !disallowed@.contains(rec.class_name@) && rec_has_product(
                            rec,
                            item_id@,
                        ),
                    ) =~= f.push(self.recipes@[i as int]));
                    assert(f.push(self.recipes@[i as int]).map_values(
                        |rec: Recipe| rec.class_name,
                    ) =~= f.map_values(|rec: Recipe| rec.class_name).push(
                        self.recipes@[i as int].class_name,
                    ));
                }
            } else {
                proof {
                    assert forall|k: int| 0 <= k < r@.len() implies #[trigger] creator_from_prefix(
                        *self,
                        r@,
                        k,
                        i + 1,
                    ) by {
                        assert(creator_from_prefix(*self, rold, k, i as int));
                        let j = choose|j: int| 0 <= j < i && rold[k] == self.recipes@[j].class_name;
                        assert(r@[k] == self.recipes@[j].class_name);
                    }
                }
            }
            i += 1;
        }
        proof {
            assert(self.recipes@.take(self.recipes@.len() as int) =~= self.recipes@);
        }
        r
    }

    /// Identifiers of the recipes outside `disallowed` that consume `item_id`,
    /// in catalog order.
    pub fn get_item_users(&self, item_id: &String, disallowed: &IdSet) -> (r: Vec<String>)
        ensures
            r@ == self.recipes@.filter(
                |rec: Recipe| !disallowed@.contains(rec.class_name@) && rec_has_ingredient(
                    rec,
                    item_id@,
                ),
            ).map_values(|rec: Recipe| rec.class_name),
            forall|k: int|
                0 <= k < r@.len() ==> user_witness(
                    *self,
                    disallowed@,
                    item_id@,
                    (#[trigger] r@[k])@,
                ),
    {
        let mut r: Vec<String> = Vec::new();
        let mut i: usize = 0;
        while i < self.recipes.len()
            invariant
                0 <= i <= self.recipes@.len(),
                r@ == self.recipes@.take(i as int).filter(
                    |rec: Recipe| !disallowed@.contains(rec.class_name@) && rec_has_ingredient(
                        rec,
                        item_id@,
                    ),
                ).map_values(|rec: Recipe| rec.class_name),
                forall|k: int|
                    0 <= k < r@.len() ==> user_witness(
                        *self,
                        disallowed@,
                        item_id@,
                        (#[trigger] r@[k])@,
                    ),
            decreases self.recipes@.len() - i,
        {
            proof {
                reveal(Seq::filter);
                assert(self.recipes@.take(i + 1).drop_last() =~= self.recipes@.take(i as int));
                assert(self.recipes@.take(i + 1).last() == self.recipes@[i as int]);
            }
            let allowed = !disallowed.contains(&self.recipes[i].class_name);
            let consumes = quantities_mention(&self.recipes[i].ingredients, item_id);
            if allowed && consumes {
                r.push(self.recipes[i].class_name.clone());
                proof {
                    assert(user_witness(*self, disallowed@, item_id@, r@.last()@)) by {
                        assert(self.recipes@[i as int].class_name@ == r@.last()@);
                    }
                    let f = self.recipes@.take(i as int).filter(
                        |rec: Recipe| !disallowed@.contains(rec.class_name@) && rec_has_ingredient(
                            rec,
                            item_id@,
                        ),
                    );
                    assert(self.recipes@.take(i + 1).filter(
                        |rec: Recipe| !disallowed@.contains(rec.class_name@) && rec_has_ingredient(
                            rec,
                            item_id@,
                        ),
                    ) =~= f.push(self.recipes@[i as int]));
                    assert(f.push(self.recipes@[i as int]).map_values(
                        |rec: Recipe| rec.class_name,
                    ) =~= f.map_values(|rec: Recipe| rec.class_name).push(
                        self.recipes@[i as int].class_name,
                    ));
                }
            }
            i += 1;
        }
        proof {
            assert(self.recipes@.take(self.recipes@.len() as int) =~= self.recipes@);
        }
        r
    }
}

/// The item identifiers of a quantity list, in order.
fn quantity_items(qs: &Vec<ItemQuantity>) -> (r: Vec<String>)
    ensures
        r@ == qs@.map_values(|iq: ItemQuantity| iq.item),
{
    let mut r: Vec<String> = Vec::new();
    let mut i: usize = 0;
    while i < qs.len()
        invariant
            0 <= i <= qs@.len(),
            r@ == qs@.take(i as int).map_values(|iq: ItemQuantity| iq.item),
        decreases qs@.len() - i,
    {
        r.push(qs[i].item.clone());
        proof {
            assert(qs@.take(i + 1).map_values(|iq: ItemQuantity| iq.item) =~= qs@.take(
                i as int,
            ).map_values(|iq: ItemQuantity| iq.item).push(qs@[i as int].item));
        }
        i += 1;
    }
    proof {
        assert(qs@.take(qs@.len() as int) =~= qs@);
    }
    r
}

/// Whether some quantity of `qs` names `id`.
fn quantities_mention(qs: &Vec<ItemQuantity>, id: &String) -> (b: bool)
    ensures
        b == exists|i: int| 0 <= i < qs@.len() && qs@[i].item@ == id@,
{
    let mut i: usize = 0;
    while i < qs.len()
        invariant
            0 <= i <= qs@.len(),
            forall|j: int| 0 <= j < i ==> qs@[j].item@ != id@,
        decreases qs@.len() - i,
    {
        if qs[i].item == *id {
            return true;
        }
        i += 1;
    }
    false
}

/// Whether an item with identifier `id` occurs in `its`.
fn item_exists(its: &Vec<Item>, id: &String) -> (b: bool)
    ensures
        b == item_listed(its@, id@),
{
    let mut i: usize = 0;
    while i < its.len()
        invariant
            0 <= i <= its@.len(),
            forall|j: int| 0 <= j < i ==> its@[j].id@ != id@,
        decreases its@.len() - i,
    {
        if its[i].id == *id {
            return true;
        }
        i += 1;
    }
    false
}

/// Whether all recipe identifiers in `rs` are pairwise distinct.
fn check_unique_recipes(rs: &Vec<Recipe>) -> (b: bool)
    ensures
        b == (forall|i: int, j: int|
            #![trigger rs@[i].class_name, rs@[j].class_name]
            0 <= i < j < rs@.len() ==> rs@[i].class_name@ != rs@[j].class_name@),
{
    let mut i: usize = 0;
    while i < rs.len()
        invariant
            0 <= i <= rs@.len(),
            forall|a: int, b: int|
                #![trigger rs@[a].class_name, rs@[b].class_name]
                0 <= a < b < i ==> rs@[a].class_name@ != rs@[b].class_name@,
        decreases rs@.len() - i,
    {
        let mut j: usize = 0;
        while j < i
            invariant
                0 <= j <= i < rs@.len(),
                forall|b: int| 0 <= b < j ==> rs@[b].class_name@ != rs@[i as int].class_name@,
            decreases i - j,
        {
            if rs[j].class_name == rs[i].class_name {
                return false;
            }
            j += 1;
        }
        i += 1;
    }
    true
}

/// Whether all item identifiers in `its` are pairwise distinct.
fn check_unique_items(its: &Vec<Item>) -> (b: bool)
    ensures
        b == (forall|i: int, j: int|
            #![trigger its@[i].id, its@[j].id]
            0 <= i < j < its@.len() ==> its@[i].id@ != its@[j].id@),
{
    let mut i: usize = 0;
    while i < its.len()
        invariant
            0 <= i <= its@.len(),
            forall|a: int, b: int|
                #![trigger its@[a].id, its@[b].id]
                0 <= a < b < i ==> its@[a].id@ != its@[b].id@,
        decreases its@.len() - i,
    {
        let mut j: usize = 0;
        while j < i
            invariant
                0 <= j <= i < its@.len(),
                forall|b: int| 0 <= b < j ==> its@[b].id@ != its@[i as int].id@,
            decreases i - j,
        {
            if its[j].id == its[i].id {
                return false;
            }
            j += 1;
        }
        i += 1;
    }
    true
}

/// Whether no recipe identifier collides with an item identifier.
fn check_disjoint(rs: &Vec<Recipe>, its: &Vec<Item>) -> (b: bool)
    ensures
        b == (forall|i: int, j: int|
            #![trigger rs@[i].class_name, its@[j].id]
            0 <= i < rs@.len() && 0 <= j < its@.len() ==> rs@[i].class_name@ != its@[j].id@),
{
    let mut i: usize = 0;
    while i < rs.len()
        invariant
            0 <= i <= rs@.len(),
            forall|a: int, b: int|
                #![trigger rs@[a].class_name, its@[b].id]
                0 <= a < i && 0 <= b < its@.len() ==> rs@[a].class_name@ != its@[b].id@,
        decreases rs@.len() - i,
    {
        if item_exists(its, &rs[i].class_name) {
            return false;
        }
        i += 1;
    }
    true
}

/// Whether every cycle time lies in `(0, TIME_MAX]`.
fn check_times(rs: &Vec<Recipe>) -> (b: bool)
    ensures
        b == (forall|i: int| 0 <= i < rs@.len() ==> 0 < (#[trigger] rs@[i]).time <= TIME_MAX),
{
    let mut i: usize = 0;
    while i < rs.len()
        invariant
            0 <= i <= rs@.len(),
            forall|a: int| 0 <= a < i ==> 0 < (#[trigger] rs@[a]).time <= TIME_MAX,
        decreases rs@.len() - i,
    {
        if rs[i].time <= 0 || rs[i].time > TIME_MAX {
            return false;
        }
        i += 1;
    }
    true
}

/// Checks one quantity list; `None` means it is acceptable.
fn check_quantity_list(qs: &Vec<ItemQuantity>, its: &Vec<Item>) -> (r: Option<DataError>)
    ensures
        r is None <==> quantities_ok(qs@, its@),
        r matches Some(e) ==> (e == DataError::BadQuantity || e == DataError::UnknownQuantityItem),
{
    let mut i: usize = 0;
    while i < qs.len()
        invariant
            0 <= i <= qs@.len(),
            forall|a: int|
                0 <= a < i ==> 0 < (#[trigger] qs@[a]).amount <= AMOUNT_MAX && item_listed(
                    its@,
                    qs@[a].item@,
                ),
        decreases qs@.len() - i,
    {
        if qs[i].amount <= 0 || qs[i].amount > AMOUNT_MAX {
            return Some(DataError::BadQuantity);
        }
        if !item_exists(its, &qs[i].item) {
            return Some(DataError::UnknownQuantityItem);
        }
        i += 1;
    }
    None
}

/// Whether the items of `qs` are pairwise distinct.
fn quantity_items_distinct(qs: &Vec<ItemQuantity>) -> (b: bool)
    ensures
        b == quantities_distinct(qs@),
{
    let mut i: usize = 0;
    while i < qs.len()
        invariant
            0 <= i <= qs@.len(),
            forall|a: int, b2: int|
                #![trigger qs@[a].item, qs@[b2].item]
                0 <= a < b2 < i ==> qs@[a].item@ != qs@[b2].item@,
        decreases qs@.len() - i,
    {
        let mut j: usize = 0;
        while j < i
            invariant
                0 <= j <= i < qs@.len(),
                forall|b2: int| 0 <= b2 < j ==> qs@[b2].item@ != qs@[i as int].item@,
            decreases i - j,
        {
            if qs[j].item == qs[i].item {
                return false;
            }
            j += 1;
        }
        i += 1;
    }
    true
}

/// Whether every recipe's ingredient and product lists are ordered sets.
fn check_distinct_quantities(rs: &Vec<Recipe>) -> (b: bool)
    ensures
        b == (forall|i: int|
            0 <= i < rs@.len() ==> quantities_distinct((#[trigger] rs@[i]).ingredients@)
                && quantities_distinct(rs@[i].products@)),
{
    let mut i: usize = 0;
    while i < rs.len()
        invariant
            0 <= i <= rs@.len(),
            forall|a: int|
                0 <= a < i ==> quantities_distinct((#[trigger] rs@[a]).ingredients@)
                    && quantities_distinct(rs@[a].products@),
        decreases rs@.len() - i,
    {
        if !quantity_items_distinct(&rs[i].ingredients) {
            return false;
        }
        if !quantity_items_distinct(&rs[i].products) {
            return false;
        }
        i += 1;
    }
    true
}

/// Checks every recipe's quantity lists; `None` means all are acceptable.
fn check_quantities(rs: &Vec<Recipe>, its: &Vec<Item>) -> (r: Option<DataError>)
    ensures
        r is None <==> (forall|i: int|
            0 <= i < rs@.len() ==> quantities_ok((#[trigger] rs@[i]).ingredients@, its@)
                && quantities_ok(rs@[i].products@, its@)),
        r matches Some(e) ==> (e == DataError::BadQuantity || e == DataError::UnknownQuantityItem),
{
    let mut i: usize = 0;
    while i < rs.len()
        invariant
            0 <= i <= rs@.len(),
            forall|a: int|
                0 <= a < i ==> quantities_ok((#[trigger] rs@[a]).ingredients@, its@)
                    && quantities_ok(rs@[a].products@, its@),
        decreases rs@.len() - i,
    {
        match check_quantity_list(&rs[i].ingredients, its) {
            Some(e) => {
                return Some(e);
            },
            None => {},
        }
        match check_quantity_list(&rs[i].products, its) {
            Some(e) => {
                return Some(e);
            },
            None => {},
        }
        i += 1;
    }
    None
}

} // verus!
