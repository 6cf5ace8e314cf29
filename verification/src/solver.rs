//! The production-plan solver: feasibility pruning, flow-graph and
//! linear-program construction, and extraction of the solved factory graph.

use vstd::prelude::*;

use crate::data::{rec_has_ingredient, rec_has_product, some_creator, GameData, ItemQuantity, Recipe};
use crate::factory::{
    above_noise, entries_above_noise, entries_positive, has_node, ids_unique, lemma_extends_trans,
    lemma_records_extend, node_cleaned, nodes_extend, records_input, records_output, Factory,
    ItemRate, Node, NodeType,
};
use crate::model::{
    occ, satisfies, satisfies_all, term_sum, vars_sum, Constraint, Model, VarDef,
};
use crate::sets::IdSet;
use crate::units::{AMOUNT_MAX, BYPRODUCT_WEIGHT, MINUTE, RATE_EPSILON, SCALE};

verus! {

/// A primitive resource's extraction-rate limit (`None` stands for an
/// unbounded supply) and objective weight (cost per unit of flow).
#[derive(Debug, Clone, Copy)]
pub struct Resource {
    pub limit: Option<i64>,
    pub weight: i64,
}

/// Why a solve was aborted before any linear-program work.
#[derive(Debug, PartialEq, Eq, Structural, Clone, Copy)]
pub enum SolveError {
    /// A requested target identifier is not an item of the catalog.
    UnknownItem,
    /// The same target item was requested twice.
    DuplicateTarget,
}

/// A resource with identifier `id` occurs in `rs`.
pub open spec fn res_listed(rs: Seq<(String, Resource)>, id: Seq<char>) -> bool {
    exists|i: int| 0 <= i < rs.len() && rs[i].0@ == id
}

/// The set of resource identifiers of `rs`.
pub open spec fn res_ids(rs: Seq<(String, Resource)>) -> Set<Seq<char>> {
    Set::new(|s: Seq<char>| res_listed(rs, s))
}

/// Index of the resource with identifier `id`.
pub open spec fn res_index(rs: Seq<(String, Resource)>, id: Seq<char>) -> int {
    choose|i: int| 0 <= i < rs.len() && rs[i].0@ == id
}

/// The resource with identifier `id`.
pub open spec fn res_at(rs: Seq<(String, Resource)>, id: Seq<char>) -> Resource {
    rs[res_index(rs, id)].1
}

/// The ingredient `item` can be supplied under the disallowed set `dis`:
/// it is a primitive resource or some allowed recipe produces it.
pub open spec fn ingredient_satisfiable(
    d: GameData,
    res: Set<Seq<char>>,
    dis: Set<Seq<char>>,
    item: Seq<char>,
) -> bool {
    res.contains(item) || some_creator(d, dis, item)
}

/// Every ingredient of `rec` can be supplied under the disallowed set `dis`.
pub open spec fn recipe_feasible(
    d: GameData,
    res: Set<Seq<char>>,
    dis: Set<Seq<char>>,
    rec: Recipe,
) -> bool {
    forall|q: int|
        0 <= q < rec.ingredients@.len() ==> ingredient_satisfiable(
            d,
            res,
            dis,
            (#[trigger] rec.ingredients@[q]).item@,
        )
}

/// `e` already contains every recipe that is infeasible under `e` itself:
/// pruning cannot grow such a set.
pub open spec fn dis_closed(d: GameData, res: Set<Seq<char>>, e: Set<Seq<char>>) -> bool {
    forall|j: int|
        0 <= j < d.recipes@.len() && !recipe_feasible(d, res, e, (#[trigger] d.recipes@[j]))
            ==> e.contains(d.recipes@[j].class_name@)
}

/// A recipe with an ingredient that is neither a configured resource nor
/// produced by any allowed recipe is infeasible.
pub proof fn lemma_unsupplied_ingredient_infeasible(
    d: GameData,
    res: Set<Seq<char>>,
    dis: Set<Seq<char>>,
    rec: Recipe,
    q: int,
)
    requires
        0 <= q < rec.ingredients@.len(),
        !res.contains(rec.ingredients@[q].item@),
        !some_creator(d, dis, rec.ingredients@[q].item@),
    ensures
        !recipe_feasible(d, res, dis, rec),
{
    assert(!ingredient_satisfiable(d, res, dis, rec.ingredients@[q].item@));
}

/// After pruning, an infeasible recipe is necessarily in the disallowed
/// set: the allowed remainder holds only feasible recipes.
pub proof fn lemma_pruned_disallows_infeasible(s: Solver, j: int)
    requires
        s.pruned(),
        0 <= j < s.data.recipes@.len(),
        !s.feasible_spec(s.data.recipes@[j]),
    ensures
        s.disallowed_recipes@.contains(s.data.recipes@[j].class_name@),
{
}

/// Infeasibility is monotone in the disallowed set: disallowing more
/// recipes can only remove producers.
pub proof fn lemma_infeasible_monotone(
    d: GameData,
    res: Set<Seq<char>>,
    d1: Set<Seq<char>>,
    d2: Set<Seq<char>>,
    rec: Recipe,
)
    requires
        d1.subset_of(d2),
        !recipe_feasible(d, res, d1, rec),
    ensures
        !recipe_feasible(d, res, d2, rec),
{
    let q = choose|q: int|
        0 <= q < rec.ingredients@.len() && !ingredient_satisfiable(
            d,
            res,
            d1,
            rec.ingredients@[q].item@,
        );
    let item = rec.ingredients@[q].item@;
    if ingredient_satisfiable(d, res, d2, item) {
        if some_creator(d, d2, item) {
            let j = choose|j: int|
                0 <= j < d.recipes@.len() && !d2.contains(
                    (#[trigger] d.recipes@[j]).class_name@,
                ) && rec_has_product(d.recipes@[j], item);
            assert(!d1.contains(d.recipes@[j].class_name@));
            assert(some_creator(d, d1, item));
        }
        assert(false);
    }
}

/// Filtering with a stronger predicate keeps no more recipes.
pub proof fn lemma_filter_mono(
    s: Seq<Recipe>,
    p1: spec_fn(Recipe) -> bool,
    p2: spec_fn(Recipe) -> bool,
)
    requires
        forall|x: Recipe| #[trigger] p2(x) ==> p1(x),
    ensures
        s.filter(p2).len() <= s.filter(p1).len(),
    decreases s.len(),
{
    reveal(Seq::filter);
    if s.len() > 0 {
        lemma_filter_mono(s.drop_last(), p1, p2);
    }
}

/// Filtering with a strictly stronger predicate that loses the recipe at
/// index `k` keeps strictly fewer recipes.
pub proof fn lemma_filter_strict(
    s: Seq<Recipe>,
    p1: spec_fn(Recipe) -> bool,
    p2: spec_fn(Recipe) -> bool,
    k: int,
)
    requires
        forall|x: Recipe| #[trigger] p2(x) ==> p1(x),
        0 <= k < s.len(),
        p1(s[k]),
        !p2(s[k]),
    ensures
        s.filter(p2).len() < s.filter(p1).len(),
    decreases s.len(),
{
    reveal(Seq::filter);
    if k == s.len() - 1 {
        lemma_filter_mono(s.drop_last(), p1, p2);
    } else {
        lemma_filter_strict(s.drop_last(), p1, p2, k);
    }
}

/// The solver's configuration: the catalog, the resource table, the
/// disallowed and preserved recipe sets, the byproduct penalty, and the
/// requested target rates.
pub struct Solver {
    pub data: GameData,
    pub resources: Vec<(String, Resource)>,
    pub disallowed_recipes: IdSet,
    pub preserved_recipes: IdSet,
    pub byproduct_coefficient: i64,
    pub targets: Vec<(String, i64)>,
}

impl Solver {
    /// The solver invariant: a well-formed catalog and unique resource keys.
    pub open spec fn wf(self) -> bool {
        &&& self.data.wf()
        &&& forall|i: int, j: int|
            #![trigger self.resources@[i].0, self.resources@[j].0]
            0 <= i < j < self.resources@.len() ==> self.resources@[i].0@ != self.resources@[j].0@
    }

    /// The identifiers currently configured as primitive resources.
    pub open spec fn res_set(self) -> Set<Seq<char>> {
        res_ids(self.resources@)
    }

    /// `rec` is feasible under the current configuration.
    pub open spec fn feasible_spec(self, rec: Recipe) -> bool {
        recipe_feasible(self.data, self.res_set(), self.disallowed_recipes@, rec)
    }

    /// How many catalog recipes are currently allowed.
    pub open spec fn allowed_count(self) -> int {
        self.data.recipes@.filter(
            |r: Recipe| !self.disallowed_recipes@.contains(r.class_name@),
        ).len() as int
    }

    /// Every recipe still allowed is feasible: the state pruning reaches.
    pub open spec fn pruned(self) -> bool {
        forall|j: int|
            0 <= j < self.data.recipes@.len() && !self.disallowed_recipes@.contains(
                (#[trigger] self.data.recipes@[j]).class_name@,
            ) ==> self.feasible_spec(self.data.recipes@[j])
    }

    /// A solver over `data` with the given target rates, no resources, no
    /// disallowed or preserved recipes, and the default byproduct penalty.
    pub fn new(data: GameData, targets: Vec<(String, i64)>) -> (s: Solver)
        requires
            data.wf(),
        ensures
            s.data == data,
            s.resources@ == Seq::<(String, Resource)>::empty(),
            s.disallowed_recipes@ == Set::<Seq<char>>::empty(),
            s.preserved_recipes@ == Set::<Seq<char>>::empty(),
            s.byproduct_coefficient == BYPRODUCT_WEIGHT,
            s.targets == targets,
            s.wf(),
    {
        Solver {
            data,
            resources: Vec::new(),
            disallowed_recipes: IdSet::new(),
            preserved_recipes: IdSet::new(),
            byproduct_coefficient: BYPRODUCT_WEIGHT,
            targets,
        }
    }

    /// Configures `resource` as a primitive with the given extraction limit
    /// and weight, replacing any earlier configuration of it.
    pub fn configure_resource(&mut self, resource: &String, limit: Option<i64>, weight: i64)
        requires
            old(self).wf(),
        ensures
            final(self).wf(),
            final(self).data == old(self).data,
            final(self).disallowed_recipes@ == old(self).disallowed_recipes@,
            final(self).preserved_recipes@ == old(self).preserved_recipes@,
            final(self).byproduct_coefficient == old(self).byproduct_coefficient,
            final(self).targets == old(self).targets,
            final(self).res_set() == old(self).res_set().insert(resource@),
            res_at(final(self).resources@, resource@) == (Resource { limit, weight }),
            forall|id: Seq<char>|
                id != resource@ && res_listed(old(self).resources@, id) ==> res_listed(
                    final(self).resources@,
                    id,
                ) && res_at(final(self).resources@, id) == res_at(old(self).resources@, id),
    {
        let ghost pre = self.resources@;
        let mut i: usize = 0;
        let mut found = false;
        let mut at: usize = 0;
        while i < self.resources.len() && !found
            invariant
                0 <= i <= self.resources@.len(),
                self.resources@ == pre,
                !found ==> forall|q: int| 0 <= q < i ==> pre[q].0@ != resource@,
                found ==> at < pre.len() && pre[at as int].0@ == resource@,
            decreases self.resources@.len() - i, (if found {
                0int
            } else {
                1int
            }),
        {
            if self.resources[i].0 == *resource {
                found = true;
                at = i;
            } else {
                i += 1;
            }
        }
        if found {
            self.resources[at] = (resource.clone(), Resource { limit, weight });
            proof {
                assert(self.resources@ =~= pre.update(at as int, self.resources@[at as int]));
                assert(self.resources@[at as int].0@ == resource@);
                assert(self.resources@[at as int].1 == (Resource { limit, weight }));
                lemma_res_lookup(pre, self.resources@, at as int, resource@);
                assert(final_res_set_ok(pre, self.resources@, resource@));
            }
        } else {
            self.resources.push((resource.clone(), Resource { limit, weight }));
            proof {
                assert(self.resources@.drop_last() =~= pre);
                lemma_res_push(pre, self.resources@, resource@);
                assert(final_res_set_ok(pre, self.resources@, resource@));
            }
        }
    }

    /// Configures `resource` with the given extraction limit and weight
    /// zero, replacing any earlier configuration of it.
    pub fn add_resource(&mut self, resource: &String, amount: i64)
        requires
            old(self).wf(),
        ensures
            final(self).wf(),
            final(self).data == old(self).data,
            final(self).disallowed_recipes@ == old(self).disallowed_recipes@,
            final(self).preserved_recipes@ == old(self).preserved_recipes@,
            final(self).byproduct_coefficient == old(self).byproduct_coefficient,
            final(self).targets == old(self).targets,
            final(self).res_set() == old(self).res_set().insert(resource@),
            res_at(final(self).resources@, resource@) == (Resource {
                limit: Some(amount),
                weight: 0,
            }),
            forall|id: Seq<char>|
                id != resource@ && res_listed(old(self).resources@, id) ==> res_listed(
                    final(self).resources@,
                    id,
                ) && res_at(final(self).resources@, id) == res_at(old(self).resources@, id),
    {
        self.configure_resource(resource, Some(amount), 0);
    }

    /// Disallows one recipe.
    pub fn remove_recipe(&mut self, recipe_id: &String)
        requires
            old(self).wf(),
        ensures
            final(self).wf(),
            final(self).data == old(self).data,
            final(self).resources@ == old(self).resources@,
            final(self).preserved_recipes@ == old(self).preserved_recipes@,
            final(self).byproduct_coefficient == old(self).byproduct_coefficient,
            final(self).targets == old(self).targets,
            final(self).disallowed_recipes@ == old(self).disallowed_recipes@.insert(recipe_id@),
    {
        self.disallowed_recipes.insert(recipe_id);
    }

    /// Exempts one recipe from `remove_alternates`.
    pub fn preserve_recipe(&mut self, recipe_id: &String)
        requires
            old(self).wf(),
        ensures
            final(self).wf(),
            final(self).data == old(self).data,
            final(self).resources@ == old(self).resources@,
            final(self).disallowed_recipes@ == old(self).disallowed_recipes@,
            final(self).byproduct_coefficient == old(self).byproduct_coefficient,
            final(self).targets == old(self).targets,
            final(self).preserved_recipes@ == old(self).preserved_recipes@.insert(recipe_id@),
    {
        self.preserved_recipes.insert(recipe_id);
    }

    /// Disallows every alternate recipe that was not explicitly preserved.
    pub fn remove_alternates(&mut self)
        requires
            old(self).wf(),
        ensures
            final(self).wf(),
            final(self).data == old(self).data,
            final(self).resources@ == old(self).resources@,
            final(self).preserved_recipes@ == old(self).preserved_recipes@,
            final(self).byproduct_coefficient == old(self).byproduct_coefficient,
            final(self).targets == old(self).targets,
            forall|s: Seq<char>|
                final(self).disallowed_recipes@.contains(s) <==> (old(self).disallowed_recipes@.contains(s) || exists|j: int|
                    0 <= j < old(self).data.recipes@.len() && (#[trigger] old(self).data.recipes@[j]).class_name@ == s && old(self).data.recipes@[j].alternate
                        && !old(self).preserved_recipes@.contains(s)),
    {
        let mut i: usize = 0;
        while i < self.data.recipes.len()
            invariant
                old(self).wf(),
                0 <= i <= self.data.recipes@.len(),
                self.data == old(self).data,
                self.resources@ == old(self).resources@,
                self.preserved_recipes@ == old(self).preserved_recipes@,
                self.byproduct_coefficient == old(self).byproduct_coefficient,
                self.targets == old(self).targets,
                forall|s: Seq<char>|
                    self.disallowed_recipes@.contains(s) <==> (old(self).disallowed_recipes@.contains(s) || exists|j: int|
                        0 <= j < i && (#[trigger] old(self).data.recipes@[j]).class_name@ == s
                            && old(self).data.recipes@[j].alternate && !old(self).preserved_recipes@.contains(s)),
            decreases self.data.recipes@.len() - i,
        {
            let alternate = self.data.recipes[i].alternate;
            let preserved = self.preserved_recipes.contains(&self.data.recipes[i].class_name);
            if alternate && !preserved {
                let rid = self.data.recipes[i].class_name.clone();
                self.disallowed_recipes.insert(&rid);
            }
            i += 1;
        }
    }

    /// Whether every ingredient of the recipe is a known resource or is
    /// produced by at least one recipe outside the disallowed set.
    pub fn is_feasible(&self, recipe_id: &String) -> (b: bool)
        requires
            self.wf(),
            self.data.has_recipe(recipe_id@),
        ensures
            b == self.feasible_spec(self.data.recipe_at(recipe_id@)),
    {
        let rec = self.data.get_recipe(recipe_id);
        let mut q: usize = 0;
        while q < rec.ingredients.len()
            invariant
                self.wf(),
                self.data.has_recipe(recipe_id@),
                *rec == self.data.recipe_at(recipe_id@),
                0 <= q <= rec.ingredients@.len(),
                forall|p: int|
                    0 <= p < q ==> ingredient_satisfiable(
                        self.data,
                        self.res_set(),
                        self.disallowed_recipes@,
                        (#[trigger] rec.ingredients@[p]).item@,
                    ),
            decreases rec.ingredients@.len() - q,
        {
            let resource_provided = resource_exists(&self.resources, &rec.ingredients[q].item);
            let creators = self.data.get_item_creators(
                &rec.ingredients[q].item,
                &self.disallowed_recipes,
            );
            if !resource_provided && creators.len() == 0 {
                return false;
            }
            q += 1;
        }
        true
    }

    /// One pruning pass: disallows every currently allowed recipe found
    /// infeasible, in catalog order.  Reports whether anything changed; an
    /// unchanged pass means every allowed recipe is feasible.
    fn prune_pass(&mut self) -> (changed: bool)
        requires
            old(self).wf(),
        ensures
            final(self).wf(),
            final(self).data == old(self).data,
            final(self).resources@ == old(self).resources@,
            final(self).preserved_recipes@ == old(self).preserved_recipes@,
            final(self).byproduct_coefficient == old(self).byproduct_coefficient,
            final(self).targets == old(self).targets,
            forall|s: Seq<char>|
                old(self).disallowed_recipes@.contains(s) ==> final(self).disallowed_recipes@.contains(s),
            !changed ==> final(self).disallowed_recipes@ == old(self).disallowed_recipes@,
            !changed ==> final(self).pruned(),
            changed ==> final(self).allowed_count() < old(self).allowed_count(),
            forall|e: Set<Seq<char>>|
                old(self).disallowed_recipes@.subset_of(e) && #[trigger] dis_closed(
                    old(self).data,
                    old(self).res_set(),
                    e,
                ) ==> final(self).disallowed_recipes@.subset_of(e),
    {
        let mut changed = false;
        let mut i: usize = 0;
        while i < self.data.recipes.len()
            invariant
                old(self).wf(),
                0 <= i <= self.data.recipes@.len(),
                self.data == old(self).data,
                self.resources@ == old(self).resources@,
                self.preserved_recipes@ == old(self).preserved_recipes@,
                self.byproduct_coefficient == old(self).byproduct_coefficient,
                self.targets == old(self).targets,
                forall|s: Seq<char>|
                    old(self).disallowed_recipes@.contains(s) ==> self.disallowed_recipes@.contains(
                        s,
                    ),
                !changed ==> self.disallowed_recipes@ == old(self).disallowed_recipes@,
                !changed ==> forall|j: int|
                    0 <= j < i && !self.disallowed_recipes@.contains(
                        (#[trigger] self.data.recipes@[j]).class_name@,
                    ) ==> self.feasible_spec(self.data.recipes@[j]),
                changed ==> self.allowed_count() < old(self).allowed_count(),
                forall|e: Set<Seq<char>>|
                    old(self).disallowed_recipes@.subset_of(e) && #[trigger] dis_closed(
                        old(self).data,
                        old(self).res_set(),
                        e,
                    ) ==> self.disallowed_recipes@.subset_of(e),
            decreases self.data.recipes@.len() - i,
        {
            let rid = self.data.recipes[i].class_name.clone();
            proof {
                assert(self.data.has_recipe(rid@));
            }
            let allowed = !self.disallowed_recipes.contains(&rid);
            if allowed && !self.is_feasible(&rid) {
                let ghost pre = *self;
                let ghost predis = self.disallowed_recipes@;
                proof {
                    // the queried recipe is the one at index i
                    let k = self.data.recipe_index(rid@);
                    if k != i as int {
                        assert(self.data.recipes@[k].class_name@
                            == self.data.recipes@[i as int].class_name@);
                        assert(false);
                    }
                }
                self.disallowed_recipes.insert(&rid);
                changed = true;
                proof {
                    let p1 = |r: Recipe| !predis.contains(r.class_name@);
                    let p2 = |r: Recipe| !predis.insert(rid@).contains(r.class_name@);
                    assert(forall|x: Recipe| #[trigger] p2(x) ==> p1(x));
                    lemma_filter_strict(self.data.recipes@, p1, p2, i as int);
                    assert(self.disallowed_recipes@ =~= predis.insert(rid@));
                    assert(self.allowed_count() == self.data.recipes@.filter(p2).len()) by {
                        assert(self.data.recipes@.filter(
                            |r: Recipe| !self.disallowed_recipes@.contains(r.class_name@),
                        ) =~= self.data.recipes@.filter(p2)) by {
                            lemma_filter_equiv(
                                self.data.recipes@,
                                |r: Recipe| !self.disallowed_recipes@.contains(r.class_name@),
                                p2,
                            );
                        }
                    }
                    assert(pre.allowed_count() == self.data.recipes@.filter(p1).len()) by {
                        lemma_filter_equiv(
                            self.data.recipes@,
                            |r: Recipe| !predis.contains(r.class_name@),
                            p1,
                        );
                    }
                    if pre.allowed_count() > old(self).allowed_count() {
                        let pm1 = |r: Recipe| !old(self).disallowed_recipes@.contains(
                            r.class_name@,
                        );
                        assert(forall|x: Recipe| #[trigger] p1(x) ==> pm1(x));
                        lemma_filter_mono(self.data.recipes@, pm1, p1);
                        assert(false);
                    }
                    // minimality: the newly disallowed recipe lies in every
                    // closed superset
                    assert forall|e: Set<Seq<char>>|
                        old(self).disallowed_recipes@.subset_of(e) && #[trigger] dis_closed(
                            old(self).data,
                            old(self).res_set(),
                            e,
                        ) implies self.disallowed_recipes@.subset_of(e) by {
                        assert(predis.subset_of(e));
                        lemma_infeasible_monotone(
                            self.data,
                            self.res_set(),
                            predis,
                            e,
                            self.data.recipes@[i as int],
                        );
                        assert(e.contains(rid@));
                        assert forall|s: Seq<char>|
                            self.disallowed_recipes@.contains(s) implies e.contains(s) by {
                            if s != rid@ {
                                assert(predis.contains(s));
                            }
                        }
                    }
                }
            }
            i += 1;
        }
        changed
    }

    /// Prunes the recipe graph to a fixed point: afterwards every recipe
    /// left outside the disallowed set is feasible, and the disallowed set
    /// is the least superset of the original closed under infeasibility.
    pub fn prune(&mut self)
        requires
            old(self).wf(),
        ensures
            final(self).wf(),
            final(self).data == old(self).data,
            final(self).resources@ == old(self).resources@,
            final(self).preserved_recipes@ == old(self).preserved_recipes@,
            final(self).byproduct_coefficient == old(self).byproduct_coefficient,
            final(self).targets == old(self).targets,
            forall|s: Seq<char>|
                old(self).disallowed_recipes@.contains(s) ==> final(self).disallowed_recipes@.contains(s),
            final(self).pruned(),
            forall|e: Set<Seq<char>>|
                old(self).disallowed_recipes@.subset_of(e) && #[trigger] dis_closed(
                    old(self).data,
                    old(self).res_set(),
                    e,
                ) ==> final(self).disallowed_recipes@.subset_of(e),
    {
        let mut changed = self.prune_pass();
        while changed
            invariant
                self.wf(),
                self.data == old(self).data,
                self.resources@ == old(self).resources@,
                self.preserved_recipes@ == old(self).preserved_recipes@,
                self.byproduct_coefficient == old(self).byproduct_coefficient,
                self.targets == old(self).targets,
                forall|s: Seq<char>|
                    old(self).disallowed_recipes@.contains(s) ==> self.disallowed_recipes@.contains(
                        s,
                    ),
                !changed ==> self.pruned(),
                forall|e: Set<Seq<char>>|
                    old(self).disallowed_recipes@.subset_of(e) && #[trigger] dis_closed(
                        old(self).data,
                        old(self).res_set(),
                        e,
                    ) ==> self.disallowed_recipes@.subset_of(e),
            decreases self.allowed_count(), (if changed {
                1int
            } else {
                0int
            }),
        {
            let ghost mid = *self;
            changed = self.prune_pass();
            proof {
                assert forall|e: Set<Seq<char>>|
                    old(self).disallowed_recipes@.subset_of(e) && #[trigger] dis_closed(
                        old(self).data,
                        old(self).res_set(),
                        e,
                    ) implies self.disallowed_recipes@.subset_of(e) by {
                    assert(mid.res_set() =~= old(self).res_set());
                    assert(dis_closed(mid.data, mid.res_set(), e));
                    assert(mid.disallowed_recipes@.subset_of(e));
                }
            }
        }
    }
}

/// Two filters with pointwise-equal predicates keep the same recipes.
pub proof fn lemma_filter_equiv(
    s: Seq<Recipe>,
    p1: spec_fn(Recipe) -> bool,
    p2: spec_fn(Recipe) -> bool,
)
    requires
        forall|x: Recipe| #[trigger] p1(x) == #[trigger] p2(x),
    ensures
        s.filter(p1) =~= s.filter(p2),
    decreases s.len(),
{
    reveal(Seq::filter);
    if s.len() > 0 {
        lemma_filter_equiv(s.drop_last(), p1, p2);
    }
}

/// Spec-level description of what `configure_resource` leaves behind.
pub open spec fn final_res_set_ok(
    pre: Seq<(String, Resource)>,
    post: Seq<(String, Resource)>,
    id: Seq<char>,
) -> bool {
    res_ids(post) == res_ids(pre).insert(id)
}

/// Replacing the entry at `k` (which carries `id`) keeps every lookup for
/// other identifiers and the overall identifier set.
proof fn lemma_res_lookup(
    pre: Seq<(String, Resource)>,
    post: Seq<(String, Resource)>,
    k: int,
    id: Seq<char>,
)
    requires
        0 <= k < pre.len(),
        pre[k].0@ == id,
        post.len() == pre.len(),
        forall|j: int| 0 <= j < pre.len() && j != k ==> post[j] == pre[j],
        post[k].0@ == pre[k].0@,
        forall|i: int, j: int|
            #![trigger pre[i].0, pre[j].0]
            0 <= i < j < pre.len() ==> pre[i].0@ != pre[j].0@,
    ensures
        res_ids(post) == res_ids(pre).insert(id),
        res_at(post, id) == post[k].1,
        forall|id2: Seq<char>|
            id2 != id && res_listed(pre, id2) ==> res_listed(post, id2) && res_at(post, id2)
                == res_at(pre, id2),
{
    assert forall|s: Seq<char>| res_ids(post).contains(s) implies res_ids(pre).insert(id).contains(
        s,
    ) by {
        let i = choose|i: int| 0 <= i < post.len() && post[i].0@ == s;
        if i != k {
            assert(pre[i].0@ == s);
        }
    }
    assert forall|s: Seq<char>| res_ids(pre).insert(id).contains(s) implies res_ids(
        post,
    ).contains(s) by {
        if s == id {
            assert(post[k].0@ == id);
        } else {
            let i = choose|i: int| 0 <= i < pre.len() && pre[i].0@ == s;
            assert(post[i].0@ == s);
        }
    }
    assert(res_ids(post) =~= res_ids(pre).insert(id));
    let ki = res_index(post, id);
    assert(post[k].0@ == id);
    if ki != k {
        assert(pre[ki].0@ == id || post[ki] == pre[ki]);
        assert(pre[ki].0@ == pre[k].0@);
        assert(false);
    }
    assert forall|id2: Seq<char>| id2 != id && res_listed(pre, id2) implies res_listed(post, id2)
        && res_at(post, id2) == res_at(pre, id2) by {
        let i = choose|i: int| 0 <= i < pre.len() && pre[i].0@ == id2;
        assert(i != k);
        assert(post[i].0@ == id2);
        let i1 = res_index(pre, id2);
        let i2 = res_index(post, id2);
        assert(pre[i1].0@ == id2);
        assert(post[i2].0@ == id2);
        if i2 != k {
            assert(pre[i2].0@ == id2);
            if i1 != i2 {
                assert(pre[i1].0@ != pre[i2].0@);
            }
        } else {
            assert(false);
        }
    }
}

/// Appending a fresh entry keeps every earlier lookup and adds `id`.
proof fn lemma_res_push(
    pre: Seq<(String, Resource)>,
    post: Seq<(String, Resource)>,
    id: Seq<char>,
)
    requires
        post.len() == pre.len() + 1,
        forall|j: int| 0 <= j < pre.len() ==> post[j] == pre[j],
        post[pre.len() as int].0@ == id,
        forall|q: int| 0 <= q < pre.len() ==> pre[q].0@ != id,
        forall|i: int, j: int|
            #![trigger pre[i].0, pre[j].0]
            0 <= i < j < pre.len() ==> pre[i].0@ != pre[j].0@,
    ensures
        res_ids(post) == res_ids(pre).insert(id),
        res_at(post, id) == post[pre.len() as int].1,
        forall|id2: Seq<char>|
            id2 != id && res_listed(pre, id2) ==> res_listed(post, id2) && res_at(post, id2)
                == res_at(pre, id2),
{
    let n = pre.len() as int;
    assert forall|s: Seq<char>| res_ids(post).contains(s) implies res_ids(pre).insert(id).contains(
        s,
    ) by {
        let i = choose|i: int| 0 <= i < post.len() && post[i].0@ == s;
        if i < n {
            assert(pre[i].0@ == s);
        }
    }
    assert forall|s: Seq<char>| res_ids(pre).insert(id).contains(s) implies res_ids(
        post,
    ).contains(s) by {
        if s == id {
            assert(post[n].0@ == id);
        } else {
            let i = choose|i: int| 0 <= i < pre.len() && pre[i].0@ == s;
            assert(post[i].0@ == s);
        }
    }
    assert(res_ids(post) =~= res_ids(pre).insert(id));
    let ki = res_index(post, id);
    assert(post[n].0@ == id);
    if ki != n {
        assert(pre[ki].0@ == id);
        assert(false);
    }
    assert forall|id2: Seq<char>| id2 != id && res_listed(pre, id2) implies res_listed(post, id2)
        && res_at(post, id2) == res_at(pre, id2) by {
        let i = choose|i: int| 0 <= i < pre.len() && pre[i].0@ == id2;
        assert(post[i].0@ == id2);
        let i1 = res_index(pre, id2);
        let i2 = res_index(post, id2);
        assert(pre[i1].0@ == id2);
        assert(post[i2].0@ == id2);
        if i2 == n {
            assert(false);
        }
        assert(pre[i2].0@ == id2);
        if i1 != i2 {
            assert(pre[i1].0@ != pre[i2].0@ || pre[i2].0@ != pre[i1].0@);
            assert(false);
        }
    }
}


/// A directed, item-typed transfer between two nodes, bound to one
/// decision variable of the model.
#[derive(Debug)]
pub struct Link {
    pub item: String,
    pub source: String,
    pub destination: String,
    pub variable: usize,
}

/// The growing edge set of the flow graph, grouped only logically: each
/// link records its source and destination node identifiers.
#[derive(Debug)]
pub struct LinkSet {
    pub links: Vec<Link>,
}

/// Some link leaves the node `id`.
pub open spec fn has_source(ls: Seq<Link>, id: Seq<char>) -> bool {
    exists|i: int| 0 <= i < ls.len() && ls[i].source@ == id
}

/// Every link's variable is a distinct index below `nvars`.
pub open spec fn links_wf(ls: Seq<Link>, nvars: int) -> bool {
    &&& forall|i: int| 0 <= i < ls.len() ==> (#[trigger] ls[i]).variable < nvars
    &&& forall|i: int, j: int| 0 <= i < j < ls.len() ==> ls[i].variable != ls[j].variable
}

/// The variables of the links into `dest` carrying `item`.
pub open spec fn incoming_vars(ls: Seq<Link>, dest: Seq<char>, item: Seq<char>) -> Seq<usize> {
    ls.filter(|l: Link| l.destination@ == dest && l.item@ == item).map_values(
        |l: Link| l.variable,
    )
}

/// The variables of the links out of `source` carrying `item`.
pub open spec fn outgoing_vars(ls: Seq<Link>, source: Seq<char>, item: Seq<char>) -> Seq<usize> {
    ls.filter(|l: Link| l.source@ == source && l.item@ == item).map_values(|l: Link| l.variable)
}

/// Total flow of `item` into `dest` under assignment `a`.
pub open spec fn in_flow(ls: Seq<Link>, dest: Seq<char>, item: Seq<char>, a: Seq<i64>) -> int {
    vars_sum(incoming_vars(ls, dest, item), a)
}

/// Total flow of `item` out of `source` under assignment `a`.
pub open spec fn out_flow(ls: Seq<Link>, source: Seq<char>, item: Seq<char>, a: Seq<i64>) -> int {
    vars_sum(outgoing_vars(ls, source, item), a)
}

/// Number of machines needed to sustain `rate` on a recipe with cycle time
/// `t` and per-cycle product amount `a`: the integer ceiling of
/// `rate * t / (60 * a)` in fixed point.
pub open spec fn machines_of(rate: int, t: int, a: int) -> int {
    (rate * t + MINUTE * a - 1) / (MINUTE * a)
}

/// The sustained per-machine rate with the minimum machine count.
pub open spec fn underclock_of(rate: int, t: int, a: int) -> int {
    rate / machines_of(rate, t, a)
}

/// The per-cycle amount of the last product of `rec` carrying `item`, or
/// zero when none does.
pub open spec fn product_amount(rec: Recipe, item: Seq<char>) -> int
    decreases rec.products@.len(),
{
    product_amount_seq(rec.products@, item)
}

/// Helper for `product_amount`, over the raw product list.
pub open spec fn product_amount_seq(ps: Seq<ItemQuantity>, item: Seq<char>) -> int
    decreases ps.len(),
{
    if ps.len() == 0 {
        0
    } else if ps.last().item@ == item {
        ps.last().amount as int
    } else {
        product_amount_seq(ps.drop_last(), item)
    }
}

/// No single machine exceeds its maximum throughput: with the minimum
/// integer machine count, the per-machine rate stays at or below
/// `60 * a / t`, the rate one machine sustains at full clock.
pub proof fn lemma_underclock_bound(rate: int, t: int, a: int)
    requires
        rate > 0,
        t > 0,
        a > 0,
    ensures
        machines_of(rate, t, a) >= 1,
        0 <= underclock_of(rate, t, a) <= rate,
        underclock_of(rate, t, a) * t <= MINUTE * a,
{
    let d = MINUTE * a;
    let p = rate * t;
    assert(MINUTE > 0);
    assert(d > 0 && p > 0) by (nonlinear_arith)
        requires
            rate > 0,
            t > 0,
            a > 0,
            MINUTE > 0,
            d == MINUTE * a,
            p == rate * t,
    {}
    let m = (p + d - 1) / d;
    assert(m * d >= p && m >= 1) by (nonlinear_arith)
        requires
            p > 0,
            d > 0,
            m == (p + d - 1) / d,
    {}
    let u = rate / m;
    assert(0 <= u <= rate && u * m <= rate) by (nonlinear_arith)
        requires
            rate > 0,
            m >= 1,
            u == rate / m,
    {}
    assert(u * t <= d) by (nonlinear_arith)
        requires
            u * m <= rate,
            m * d >= p,
            p == rate * t,
            m >= 1,
            t > 0,
            d > 0,
            u >= 0,
    {}
}

impl LinkSet {
    /// The empty edge set.
    pub fn new() -> (r: LinkSet)
        ensures
            r.links@ == Seq::<Link>::empty(),
    {
        LinkSet { links: Vec::new() }
    }

    /// Whether any link leaves the node `id`.
    pub fn contains_source(&self, id: &String) -> (b: bool)
        ensures
            b == has_source(self.links@, id@),
    {
        let mut i: usize = 0;
        while i < self.links.len()
            invariant
                0 <= i <= self.links@.len(),
                forall|j: int| 0 <= j < i ==> self.links@[j].source@ != id@,
            decreases self.links@.len() - i,
        {
            if self.links[i].source == *id {
                return true;
            }
            i += 1;
        }
        false
    }

    /// Whether any link out of `source` carries `item`.
    pub fn has_outgoing_item(&self, source: &String, item: &String) -> (b: bool)
        ensures
            b == outgoing_exists(self.links@, source@, item@),
    {
        let mut i: usize = 0;
        while i < self.links.len()
            invariant
                0 <= i <= self.links@.len(),
                forall|j: int|
                    0 <= j < i ==> !((#[trigger] self.links@[j]).source@ == source@
                        && self.links@[j].item@ == item@),
            decreases self.links@.len() - i,
        {
            if self.links[i].source == *source && self.links[i].item == *item {
                return true;
            }
            i += 1;
        }
        false
    }

    /// Appends a link bound to a fresh unbounded variable with unit weight.
    pub fn add_simple_variable(
        &mut self,
        source: &String,
        destination: &String,
        item: &String,
        model: &mut Model,
    )
        ensures
            link_appended(
                old(self).links@,
                final(self).links@,
                source@,
                destination@,
                item@,
                old(model).vars@.len() as int,
            ),
            final(model).vars@ == old(model).vars@.push(
                (VarDef { weight: SCALE, upper: None }),
            ),
            final(model).constraints@ == old(model).constraints@,
    {
        let variable = model.add_var(SCALE, None);
        self.links.push(
            Link {
                item: item.clone(),
                source: source.clone(),
                destination: destination.clone(),
                variable,
            },
        );
    }

    /// Appends a link bound to a fresh unbounded variable with the given
    /// weight (used for byproduct sinks).
    pub fn add_weighted_variable(
        &mut self,
        source: &String,
        destination: &String,
        item: &String,
        weight: i64,
        model: &mut Model,
    )
        ensures
            link_appended(
                old(self).links@,
                final(self).links@,
                source@,
                destination@,
                item@,
                old(model).vars@.len() as int,
            ),
            final(model).vars@ == old(model).vars@.push((VarDef { weight, upper: None })),
            final(model).constraints@ == old(model).constraints@,
    {
        let variable = model.add_var(weight, None);
        self.links.push(
            Link {
                item: item.clone(),
                source: source.clone(),
                destination: destination.clone(),
                variable,
            },
        );
    }

    /// Appends a resource edge: sourced at the item's own node, bounded by
    /// the resource's extraction limit and weighted by its cost.
    pub fn add_resource_variable(
        &mut self,
        resource: Resource,
        destination: &String,
        item: &String,
        model: &mut Model,
    )
        ensures
            link_appended(
                old(self).links@,
                final(self).links@,
                item@,
                destination@,
                item@,
                old(model).vars@.len() as int,
            ),
            final(model).vars@ == old(model).vars@.push(
                (VarDef { weight: resource.weight, upper: resource.limit }),
            ),
            final(model).constraints@ == old(model).constraints@,
    {
        let variable = model.add_var(resource.weight, resource.limit);
        self.links.push(
            Link {
                item: item.clone(),
                source: item.clone(),
                destination: destination.clone(),
                variable,
            },
        );
    }

    /// The variables of the links into `destination` carrying `item`.
    pub fn get_incoming_for_item(&self, destination: &String, item: &String) -> (r: Vec<usize>)
        ensures
            r@ == incoming_vars(self.links@, destination@, item@),
            vars_from_prefix(r@, self.links@, self.links@.len() as int),
    {
        let mut r: Vec<usize> = Vec::new();
        let mut i: usize = 0;
        while i < self.links.len()
            invariant
                0 <= i <= self.links@.len(),
                r@ == incoming_vars(self.links@.take(i as int), destination@, item@),
                vars_from_prefix(r@, self.links@, i as int),
            decreases self.links@.len() - i,
        {
            proof {
                reveal(Seq::filter);
                assert(self.links@.take(i + 1).drop_last() =~= self.links@.take(i as int));
                assert(self.links@.take(i + 1).last() == self.links@[i as int]);
            }
            if self.links[i].destination == *destination && self.links[i].item == *item {
                r.push(self.links[i].variable);
                proof {
                    let f = self.links@.take(i as int).filter(
                        |l: Link| l.destination@ == destination@ && l.item@ == item@,
                    );
                    assert(self.links@.take(i + 1).filter(
                        |l: Link| l.destination@ == destination@ && l.item@ == item@,
                    ) =~= f.push(self.links@[i as int]));
                    assert(f.push(self.links@[i as int]).map_values(|l: Link| l.variable) =~= f.map_values(
                        |l: Link| l.variable,
                    ).push(self.links@[i as int].variable));
                    let rold = r@.drop_last();
                    assert forall|p: int| 0 <= p < r@.len() implies exists|k: int|
                        0 <= k < i + 1 && (#[trigger] r@[p]) == self.links@[k].variable by {
                        if p < r@.len() - 1 {
                            assert(r@[p] == rold[p]);
                            let k = choose|k: int|
                                0 <= k < i && rold[p] == self.links@[k].variable;
                            assert(r@[p] == self.links@[k].variable);
                        } else {
                            assert(r@[p] == self.links@[i as int].variable);
                        }
                    }
                }
            } else {
                proof {
                    assert forall|p: int| 0 <= p < r@.len() implies exists|k: int|
                        0 <= k < i + 1 && (#[trigger] r@[p]) == self.links@[k].variable by {
                        let k = choose|k: int| 0 <= k < i && r@[p] == self.links@[k].variable;
                        assert(r@[p] == self.links@[k].variable);
                    }
                }
            }
            i += 1;
        }
        proof {
            assert(self.links@.take(self.links@.len() as int) =~= self.links@);
        }
        r
    }

    /// The variables of the links out of `source` carrying `item`.
    pub fn get_outgoing_for_item(&self, source: &String, item: &String) -> (r: Vec<usize>)
        ensures
            r@ == outgoing_vars(self.links@, source@, item@),
            vars_from_prefix(r@, self.links@, self.links@.len() as int),
    {
        let mut r: Vec<usize> = Vec::new();
        let mut i: usize = 0;
        while i < self.links.len()
            invariant
                0 <= i <= self.links@.len(),
                r@ == outgoing_vars(self.links@.take(i as int), source@, item@),
                vars_from_prefix(r@, self.links@, i as int),
            decreases self.links@.len() - i,
        {
            proof {
                reveal(Seq::filter);
                assert(self.links@.take(i + 1).drop_last() =~= self.links@.take(i as int));
                assert(self.links@.take(i + 1).last() == self.links@[i as int]);
            }
            if self.links[i].source == *source && self.links[i].item == *item {
                r.push(self.links[i].variable);
                proof {
                    let f = self.links@.take(i as int).filter(
                        |l: Link| l.source@ == source@ && l.item@ == item@,
                    );
                    assert(self.links@.take(i + 1).filter(
                        |l: Link| l.source@ == source@ && l.item@ == item@,
                    ) =~= f.push(self.links@[i as int]));
                    assert(f.push(self.links@[i as int]).map_values(|l: Link| l.variable) =~= f.map_values(
                        |l: Link| l.variable,
                    ).push(self.links@[i as int].variable));
                    let rold = r@.drop_last();
                    assert forall|p: int| 0 <= p < r@.len() implies exists|k: int|
                        0 <= k < i + 1 && (#[trigger] r@[p]) == self.links@[k].variable by {
                        if p < r@.len() - 1 {
                            assert(r@[p] == rold[p]);
                            let k = choose|k: int|
                                0 <= k < i && rold[p] == self.links@[k].variable;
                            assert(r@[p] == self.links@[k].variable);
                        } else {
                            assert(r@[p] == self.links@[i as int].variable);
                        }
                    }
                }
            } else {
                proof {
                    assert forall|p: int| 0 <= p < r@.len() implies exists|k: int|
                        0 <= k < i + 1 && (#[trigger] r@[p]) == self.links@[k].variable by {
                        let k = choose|k: int| 0 <= k < i && r@[p] == self.links@[k].variable;
                        assert(r@[p] == self.links@[k].variable);
                    }
                }
            }
            i += 1;
        }
        proof {
            assert(self.links@.take(self.links@.len() as int) =~= self.links@);
        }
        r
    }
}

/// Every entry of `r` is the variable of some link among the first `n`.
pub open spec fn vars_from_prefix(r: Seq<usize>, ls: Seq<Link>, n: int) -> bool {
    forall|p: int| 0 <= p < r.len() ==> exists|k: int|
        0 <= k < n && (#[trigger] r[p]) == ls[k].variable
}

/// `post` is `pre` plus one link with the given endpoints, item and
/// variable index.
pub open spec fn link_appended(
    pre: Seq<Link>,
    post: Seq<Link>,
    source: Seq<char>,
    destination: Seq<char>,
    item: Seq<char>,
    variable: int,
) -> bool {
    &&& post.len() == pre.len() + 1
    &&& forall|j: int| 0 <= j < pre.len() ==> post[j] == pre[j]
    &&& post.last().source@ == source
    &&& post.last().destination@ == destination
    &&& post.last().item@ == item
    &&& post.last().variable == variable
}


/// Static validity of one link: its item is a listed item, its endpoints
/// are catalog identifiers, an item-node destination receives its own
/// item, and a recipe-node source is allowed.
pub open spec fn link_ok(d: GameData, dis: Set<Seq<char>>, l: Link) -> bool {
    &&& d.has_item(l.item@)
    &&& d.has_item(l.source@) || d.has_recipe(l.source@)
    &&& d.has_item(l.destination@) || d.has_recipe(l.destination@)
    &&& d.has_item(l.destination@) ==> l.item@ == l.destination@
    &&& d.has_recipe(l.source@) ==> !dis.contains(l.source@) && rec_has_product(
        d.recipe_at(l.source@),
        l.item@,
    )
    &&& d.has_recipe(l.destination@) ==> !dis.contains(l.destination@) && rec_has_ingredient(
        d.recipe_at(l.destination@),
        l.item@,
    )
}

/// Static validity of every link.
pub open spec fn links_ok(d: GameData, dis: Set<Seq<char>>, ls: Seq<Link>) -> bool {
    forall|i: int| 0 <= i < ls.len() ==> link_ok(d, dis, #[trigger] ls[i])
}

/// Every requested target names a listed item and no item is requested twice.
pub open spec fn targets_valid(d: GameData, ts: Seq<(String, i64)>) -> bool {
    &&& forall|i: int| 0 <= i < ts.len() ==> d.has_item((#[trigger] ts[i]).0@)
    &&& forall|i: int, j: int|
        #![trigger ts[i].0, ts[j].0]
        0 <= i < j < ts.len() ==> ts[i].0@ != ts[j].0@
}

/// Every allowed producer of the target item `t` already has an edge into
/// `t`'s output node carrying `t`.
pub open spec fn target_covered(
    d: GameData,
    dis: Set<Seq<char>>,
    ls: Seq<Link>,
    t: Seq<char>,
) -> bool {
    forall|j: int|
        0 <= j < d.recipes@.len() && !dis.contains((#[trigger] d.recipes@[j]).class_name@)
            && rec_has_product(d.recipes@[j], t) ==> exists|k: int|
            0 <= k < ls.len() && (#[trigger] ls[k]).source@ == d.recipes@[j].class_name@
                && ls[k].destination@ == t && ls[k].item@ == t
}

/// The stoichiometric balance of one (ingredient, product) pair at the
/// production node `src`.
pub open spec fn pair_balanced(
    d: GameData,
    ls: Seq<Link>,
    src: Seq<char>,
    ii: int,
    pi: int,
    a: Seq<i64>,
) -> bool {
    d.recipe_at(src).products@[pi].amount * in_flow(
        ls,
        src,
        d.recipe_at(src).ingredients@[ii].item@,
        a,
    ) == d.recipe_at(src).ingredients@[ii].amount * out_flow(
        ls,
        src,
        d.recipe_at(src).products@[pi].item@,
        a,
    )
}

/// All stoichiometric balances of the production node `src`.
pub open spec fn node_balanced(d: GameData, ls: Seq<Link>, src: Seq<char>, a: Seq<i64>) -> bool {
    forall|ii: int, pi: int|
        0 <= ii < d.recipe_at(src).ingredients@.len() && 0 <= pi < d.recipe_at(
            src,
        ).products@.len() ==> pair_balanced(d, ls, src, ii, pi, a)
}

/// Every production node of the graph is stoichiometrically balanced.
pub open spec fn all_balanced(d: GameData, ls: Seq<Link>, a: Seq<i64>) -> bool {
    forall|k: int|
        0 <= k < ls.len() && d.has_recipe((#[trigger] ls[k]).source@) ==> node_balanced(
            d,
            ls,
            ls[k].source@,
            a,
        )
}

/// Appending one link extends or leaves alone the incoming-variable list,
/// according to whether the link matches.
pub proof fn lemma_incoming_push(ls: Seq<Link>, l: Link, dest: Seq<char>, item: Seq<char>)
    ensures
        incoming_vars(ls.push(l), dest, item) == if l.destination@ == dest && l.item@ == item {
            incoming_vars(ls, dest, item).push(l.variable)
        } else {
            incoming_vars(ls, dest, item)
        },
{
    reveal(Seq::filter);
    let pred = |x: Link| x.destination@ == dest && x.item@ == item;
    assert(ls.push(l).drop_last() =~= ls);
    assert(ls.push(l).last() == l);
    if pred(l) {
        assert(ls.push(l).filter(pred) =~= ls.filter(pred).push(l));
        assert(ls.filter(pred).push(l).map_values(|x: Link| x.variable) =~= ls.filter(
            pred,
        ).map_values(|x: Link| x.variable).push(l.variable));
    } else {
        assert(ls.push(l).filter(pred) =~= ls.filter(pred));
    }
}

/// Links appended beyond a prefix that never target `dest` with `item`
/// leave the incoming-variable list unchanged.
pub proof fn lemma_incoming_unchanged(
    ls1: Seq<Link>,
    ls2: Seq<Link>,
    dest: Seq<char>,
    item: Seq<char>,
)
    requires
        ls1.len() <= ls2.len(),
        forall|j: int| 0 <= j < ls1.len() ==> ls2[j] == ls1[j],
        forall|k: int|
            ls1.len() <= k < ls2.len() ==> !((#[trigger] ls2[k]).destination@ == dest
                && ls2[k].item@ == item),
    ensures
        incoming_vars(ls2, dest, item) == incoming_vars(ls1, dest, item),
    decreases ls2.len() - ls1.len(),
{
    if ls2.len() == ls1.len() {
        assert(ls2 =~= ls1);
    } else {
        let ls2p = ls2.drop_last();
        lemma_incoming_unchanged(ls1, ls2p, dest, item);
        assert(ls2 =~= ls2p.push(ls2.last()));
        lemma_incoming_push(ls2p, ls2.last(), dest, item);
    }
}

/// Target coverage persists as links are appended.
pub proof fn lemma_covered_extend(
    d: GameData,
    dis: Set<Seq<char>>,
    ls1: Seq<Link>,
    ls2: Seq<Link>,
    t: Seq<char>,
)
    requires
        target_covered(d, dis, ls1, t),
        ls1.len() <= ls2.len(),
        forall|j: int| 0 <= j < ls1.len() ==> ls2[j] == ls1[j],
    ensures
        target_covered(d, dis, ls2, t),
{
    assert forall|j: int|
        0 <= j < d.recipes@.len() && !dis.contains((#[trigger] d.recipes@[j]).class_name@)
            && rec_has_product(d.recipes@[j], t) implies exists|k: int|
        0 <= k < ls2.len() && (#[trigger] ls2[k]).source@ == d.recipes@[j].class_name@
            && ls2[k].destination@ == t && ls2[k].item@ == t by {
        let k = choose|k: int|
            0 <= k < ls1.len() && (#[trigger] ls1[k]).source@ == d.recipes@[j].class_name@
                && ls1[k].destination@ == t && ls1[k].item@ == t;
        assert(ls2[k] == ls1[k]);
        assert(ls2[k].source@ == d.recipes@[j].class_name@ && ls2[k].destination@ == t
            && ls2[k].item@ == t);
    }
}

/// With pairwise-distinct link variables, the incoming-variable list has
/// pairwise-distinct entries, each the variable of some link.
pub proof fn lemma_incoming_vars_distinct(ls: Seq<Link>, dest: Seq<char>, item: Seq<char>)
    requires
        forall|i: int, j: int| 0 <= i < j < ls.len() ==> ls[i].variable != ls[j].variable,
    ensures
        forall|p: int, q: int|
            #![trigger incoming_vars(ls, dest, item)[p], incoming_vars(ls, dest, item)[q]]
            0 <= p < q < incoming_vars(ls, dest, item).len() ==> incoming_vars(ls, dest, item)[p]
                != incoming_vars(ls, dest, item)[q],
        forall|p: int|
            #![trigger incoming_vars(ls, dest, item)[p]]
            0 <= p < incoming_vars(ls, dest, item).len() ==> exists|k: int|
                0 <= k < ls.len() && incoming_vars(ls, dest, item)[p] == (#[trigger] ls[k]).variable,
    decreases ls.len(),
{
    reveal(Seq::filter);
    let pred = |l: Link| l.destination@ == dest && l.item@ == item;
    let m = incoming_vars(ls, dest, item);
    if ls.len() == 0 {
        assert(m.len() == 0);
    } else {
        let lsp = ls.drop_last();
        lemma_incoming_vars_distinct(lsp, dest, item);
        let mp = incoming_vars(lsp, dest, item);
        if pred(ls.last()) {
            assert(ls.filter(pred) =~= lsp.filter(pred).push(ls.last()));
            assert(m =~= mp.push(ls.last().variable));
            assert forall|p: int, q: int| 0 <= p < q < m.len() implies m[p] != m[q] by {
                if q < m.len() - 1 {
                    assert(mp[p] != mp[q]);
                } else {
                    let k = choose|k: int|
                        0 <= k < lsp.len() && mp[p] == (#[trigger] lsp[k]).variable;
                    assert(ls[k].variable != ls[ls.len() - 1].variable);
                }
            }
            assert forall|p: int| #![trigger m[p]] 0 <= p < m.len() implies exists|k: int|
                0 <= k < ls.len() && m[p] == (#[trigger] ls[k]).variable by {
                if p < m.len() - 1 {
                    let k = choose|k: int|
                        0 <= k < lsp.len() && mp[p] == (#[trigger] lsp[k]).variable;
                    assert(m[p] == ls[k].variable);
                } else {
                    assert(m[p] == ls[ls.len() - 1].variable);
                }
            }
        } else {
            assert(ls.filter(pred) =~= lsp.filter(pred));
            assert(m =~= mp);
            assert forall|p: int| #![trigger m[p]] 0 <= p < m.len() implies exists|k: int|
                0 <= k < ls.len() && m[p] == (#[trigger] ls[k]).variable by {
                let k = choose|k: int| 0 <= k < lsp.len() && mp[p] == (#[trigger] lsp[k]).variable;
                assert(m[p] == ls[k].variable);
            }
        }
    }
}

/// With pairwise-distinct link variables, the outgoing-variable list has
/// pairwise-distinct entries, each the variable of some link.
pub proof fn lemma_outgoing_vars_distinct(ls: Seq<Link>, source: Seq<char>, item: Seq<char>)
    requires
        forall|i: int, j: int| 0 <= i < j < ls.len() ==> ls[i].variable != ls[j].variable,
    ensures
        forall|p: int, q: int|
            #![trigger outgoing_vars(ls, source, item)[p], outgoing_vars(ls, source, item)[q]]
            0 <= p < q < outgoing_vars(ls, source, item).len() ==> outgoing_vars(
                ls,
                source,
                item,
            )[p] != outgoing_vars(ls, source, item)[q],
        forall|p: int|
            #![trigger outgoing_vars(ls, source, item)[p]]
            0 <= p < outgoing_vars(ls, source, item).len() ==> exists|k: int|
                0 <= k < ls.len() && outgoing_vars(ls, source, item)[p] == (#[trigger] ls[k]).variable,
    decreases ls.len(),
{
    reveal(Seq::filter);
    let pred = |l: Link| l.source@ == source && l.item@ == item;
    let m = outgoing_vars(ls, source, item);
    if ls.len() == 0 {
        assert(m.len() == 0);
    } else {
        let lsp = ls.drop_last();
        lemma_outgoing_vars_distinct(lsp, source, item);
        let mp = outgoing_vars(lsp, source, item);
        if pred(ls.last()) {
            assert(ls.filter(pred) =~= lsp.filter(pred).push(ls.last()));
            assert(m =~= mp.push(ls.last().variable));
            assert forall|p: int, q: int| 0 <= p < q < m.len() implies m[p] != m[q] by {
                if q < m.len() - 1 {
                    assert(mp[p] != mp[q]);
                } else {
                    let k = choose|k: int|
                        0 <= k < lsp.len() && mp[p] == (#[trigger] lsp[k]).variable;
                    assert(ls[k].variable != ls[ls.len() - 1].variable);
                }
            }
            assert forall|p: int| #![trigger m[p]] 0 <= p < m.len() implies exists|k: int|
                0 <= k < ls.len() && m[p] == (#[trigger] ls[k]).variable by {
                if p < m.len() - 1 {
                    let k = choose|k: int|
                        0 <= k < lsp.len() && mp[p] == (#[trigger] lsp[k]).variable;
                    assert(m[p] == ls[k].variable);
                } else {
                    assert(m[p] == ls[ls.len() - 1].variable);
                }
            }
        } else {
            assert(ls.filter(pred) =~= lsp.filter(pred));
            assert(m =~= mp);
            assert forall|p: int| #![trigger m[p]] 0 <= p < m.len() implies exists|k: int|
                0 <= k < ls.len() && m[p] == (#[trigger] ls[k]).variable by {
                let k = choose|k: int| 0 <= k < lsp.len() && mp[p] == (#[trigger] lsp[k]).variable;
                assert(m[p] == ls[k].variable);
            }
        }
    }
}

/// A model's constraint prefix stays satisfied.
pub proof fn lemma_satisfies_prefix(m1: Model, m2: Model, a: Seq<i64>)
    requires
        m1.constraints@.len() <= m2.constraints@.len(),
        forall|ci: int| 0 <= ci < m1.constraints@.len() ==> m2.constraints@[ci]
            == m1.constraints@[ci],
        satisfies_all(m2, a),
    ensures
        satisfies_all(m1, a),
{
    assert forall|ci: int| 0 <= ci < m1.constraints@.len() implies satisfies(
        #[trigger] m1.constraints@[ci],
        a,
    ) by {
        assert(satisfies(m2.constraints@[ci], a));
    }
}

/// Node `k` of `entries` survives, unchanged, somewhere in `cleaned`.
pub open spec fn node_kept(
    entries: Seq<(String, Node)>,
    cleaned: Seq<(String, Node)>,
    k: int,
) -> bool {
    exists|k2: int| 0 <= k2 < cleaned.len() && cleaned[k2] == entries[k]
}

/// Entry `p` of `cleaned` is one of the first `n` entries of `entries`.
pub open spec fn node_from(
    entries: Seq<(String, Node)>,
    cleaned: Seq<(String, Node)>,
    p: int,
    n: int,
) -> bool {
    exists|k: int| 0 <= k < n && cleaned[p] == entries[k]
}

/// The per-machine clock rate reported for an edge out of `node` carrying
/// `item` at `rate` (what [`Prepared::get_underclock`] computes): the raw
/// rate for an item node or a non-positive rate, else the rate divided by
/// the minimum integer machine count.
pub open spec fn underclock_spec(d: GameData, node: Seq<char>, item: Seq<char>, rate: i64) -> int {
    if !d.has_recipe(node) {
        rate as int
    } else {
        let rec = d.recipe_at(node);
        let amt = product_amount(rec, item);
        if rate > 0 && amt > 0 {
            underclock_of(rate as int, rec.time as int, amt)
        } else {
            rate as int
        }
    }
}

/// The display name of the catalog entry behind a node identifier.
pub open spec fn display_name(d: GameData, id: Seq<char>) -> Seq<char> {
    if d.has_item(id) {
        d.item_at(id).name@
    } else {
        d.recipe_at(id).name@
    }
}

/// The assignment respects every variable's declared bounds: one value per
/// variable, nonnegative, and at most the upper bound where one is set.
pub open spec fn respects_bounds(m: Model, a: Seq<i64>) -> bool {
    &&& a.len() == m.vars@.len()
    &&& forall|vi: int|
        0 <= vi < a.len() ==> 0 <= #[trigger] a[vi] && (m.vars@[vi].upper matches Some(l)
            ==> a[vi] <= l)
}

/// The formulated problem, ready for an outside linear-program engine: the
/// catalog, the requested targets, the pruned configuration, the model to
/// solve, and the edge set that maps its variables back onto the flow
/// graph.
#[derive(Debug)]
pub struct Prepared {
    pub data: GameData,
    pub targets: Vec<(String, i64)>,
    pub resources: Vec<(String, Resource)>,
    pub disallowed_recipes: IdSet,
    pub byproduct_coefficient: i64,
    pub model: Model,
    pub links: LinkSet,
}

impl Prepared {
    /// Validity of the formulated problem.
    pub open spec fn wf(self) -> bool {
        &&& self.data.wf()
        &&& links_wf(self.links.links@, self.model.vars@.len() as int)
        &&& links_ok(self.data, self.disallowed_recipes@, self.links.links@)
    }

    /// `id` is one of the requested target items.
    pub open spec fn is_target(self, id: Seq<char>) -> bool {
        exists|i: int| 0 <= i < self.targets@.len() && self.targets@[i].0@ == id
    }

    /// How the node under `id` must look: named after its catalog entry,
    /// typed `Production` for a recipe, `Output` for a requested target
    /// item and `Input` for any other item.
    pub open spec fn node_described(self, id: Seq<char>, n: Node) -> bool {
        if self.data.has_item(id) {
            n.name == self.data.item_at(id).name && n.node_type == (if self.is_target(id) {
                NodeType::Output
            } else {
                NodeType::Input
            })
        } else {
            self.data.has_recipe(id) && n.name == self.data.recipe_at(id).name && n.node_type
                == NodeType::Production
        }
    }

    /// Whether `id` is one of the requested target items.
    pub fn target_exists(&self, id: &String) -> (b: bool)
        ensures
            b == self.is_target(id@),
    {
        let mut i: usize = 0;
        while i < self.targets.len()
            invariant
                0 <= i <= self.targets@.len(),
                forall|j: int| 0 <= j < i ==> (#[trigger] self.targets@[j]).0@ != id@,
            decreases self.targets@.len() - i,
        {
            if self.targets[i].0 == *id {
                return true;
            }
            i += 1;
        }
        false
    }

    /// The derived per-machine clock rate for an edge out of `node_id`
    /// carrying `item_id` at `rate`.  For an item node the raw rate is
    /// returned; for a production node the rate is divided by the minimum
    /// integer machine count.
    pub fn get_underclock(&self, node_id: &String, item_id: &String, rate: i64) -> (u: i64)
        requires
            self.data.wf(),
        ensures
            u as int == underclock_spec(self.data, node_id@, item_id@, rate),
    {
        if !self.data.contains_recipe(node_id) {
            return rate;
        }
        let rec = self.data.get_recipe(node_id);
        let mut amount: i64 = 0;
        let mut pi: usize = 0;
        while pi < rec.products.len()
            invariant
                0 <= pi <= rec.products@.len(),
                amount as int == product_amount_seq(rec.products@.take(pi as int), item_id@),
            decreases rec.products@.len() - pi,
        {
            proof {
                assert(rec.products@.take(pi + 1).drop_last() =~= rec.products@.take(pi as int));
                assert(rec.products@.take(pi + 1).last() == rec.products@[pi as int]);
            }
            if rec.products[pi].item == *item_id {
                amount = rec.products[pi].amount;
            }
            pi += 1;
        }
        proof {
            assert(rec.products@.take(rec.products@.len() as int) =~= rec.products@);
            assert(product_amount(self.data.recipe_at(node_id@), item_id@) == amount as int);
        }
        if amount <= 0 || rate <= 0 {
            return rate;
        }
        proof {
            assert(MINUTE > 0);
            assert(0 < (rate as int) * (rec.time as int)
                < 0x4000_0000_0000_0000_0000_0000_0000_0000) by (nonlinear_arith)
                requires
                    0 < rate <= 0x7fff_ffff_ffff_ffff,
                    0 < rec.time <= 0x7fff_ffff_ffff_ffff,
            {}
            assert(0 < (MINUTE as int) * (amount as int)
                < 0x4000_0000_0000_0000_0000_0000_0000_0000) by (nonlinear_arith)
                requires
                    0 < amount <= 0x7fff_ffff_ffff_ffff,
                    0 < MINUTE <= 0x7fff_ffff,
            {}
        }
        let p: i128 = (rate as i128) * (rec.time as i128);
        let d: i128 = (MINUTE as i128) * (amount as i128);
        let m: i128 = (p + d - 1) / d;
        proof {
            assert(m as int >= 1 && m as int * (d as int) >= p as int) by (nonlinear_arith)
                requires
                    p as int > 0,
                    d as int > 0,
                    m as int == (p as int + d as int - 1) / (d as int),
            {}
        }
        let u128v: i128 = (rate as i128) / m;
        proof {
            assert(0 <= u128v as int <= rate as int) by (nonlinear_arith)
                requires
                    rate as int > 0,
                    m as int >= 1,
                    u128v as int == rate as int / (m as int),
            {}
        }
        let u: i64 = u128v as i64;
        proof {
            let rec2 = self.data.recipe_at(node_id@);
            let amt = product_amount(rec2, item_id@);
            assert(amt == amount as int);
            assert(machines_of(rate as int, rec2.time as int, amt) == m);
            assert(underclock_of(rate as int, rec2.time as int, amt) == u as int);
        }
        u
    }

    /// Rebuilds the factory graph from a solved variable assignment: one
    /// node per identifier seen among the links, named and typed by its
    /// catalog entry, each above-noise edge recorded on both endpoints
    /// with its rate and clocking, noise-level flows dropped, and nodes
    /// left with no flows removed.
    #[verifier::rlimit(60)]
    pub fn extract(&self, assignment: &Vec<i64>) -> (f: Factory)
        requires
            self.wf(),
            assignment@.len() == self.model.vars@.len(),
        ensures
            ids_unique(f.nodes@),
            forall|k: int| 0 <= k < f.nodes@.len() ==> node_cleaned((#[trigger] f.nodes@[k]).1),
            forall|k: int|
                0 <= k < f.nodes@.len() ==> self.node_described(
                    (#[trigger] f.nodes@[k]).0@,
                    f.nodes@[k].1,
                ),
            respects_bounds(self.model, assignment@) ==> forall|k: int|
                0 <= k < f.nodes@.len() ==> entries_positive((#[trigger] f.nodes@[k]).1),
            forall|j: int|
                #![trigger self.links.links@[j]]
                0 <= j < self.links.links@.len() && above_noise(
                    assignment@[self.links.links@[j].variable as int],
                ) ==> records_output(
                    f.nodes@,
                    self.links.links@[j].source@,
                    self.links.links@[j].destination@,
                    assignment@[self.links.links@[j].variable as int],
                    underclock_spec(
                        self.data,
                        self.links.links@[j].source@,
                        self.links.links@[j].item@,
                        assignment@[self.links.links@[j].variable as int],
                    ),
                    display_name(self.data, self.links.links@[j].item@),
                    display_name(self.data, self.links.links@[j].destination@),
                ) && records_input(
                    f.nodes@,
                    self.links.links@[j].destination@,
                    self.links.links@[j].source@,
                    assignment@[self.links.links@[j].variable as int],
                    0,
                    display_name(self.data, self.links.links@[j].item@),
                    display_name(self.data, self.links.links@[j].source@),
                ),
    {
        let mut f = Factory::new();
        let mut i: usize = 0;
        while i < self.links.links.len()
            invariant
                self.wf(),
                0 <= i <= self.links.links@.len(),
                ids_unique(f.nodes@),
                forall|k: int|
                    0 <= k < f.nodes@.len() ==> entries_above_noise((#[trigger] f.nodes@[k]).1)
                        && entries_positive(f.nodes@[k].1),
                forall|k: int|
                    0 <= k < f.nodes@.len() ==> self.node_described(
                        (#[trigger] f.nodes@[k]).0@,
                        f.nodes@[k].1,
                    ),
                forall|j: int|
                    0 <= j < i ==> has_node(f.nodes@, (#[trigger] self.links.links@[j]).source@),
            decreases self.links.links@.len() - i,
        {
            let src = &self.links.links[i].source;
            if !f.contains_node(src) {
                proof {
                    assert(link_ok(
                        self.data,
                        self.disallowed_recipes@,
                        self.links.links@[i as int],
                    ));
                }
                if self.data.contains_item(src) {
                    let node_type = if self.target_exists(src) {
                        NodeType::Output
                    } else {
                        NodeType::Input
                    };
                    let name = self.data.get_item_name(src);
                    f.add_node(src, &name, node_type);
                } else {
                    let name = self.data.get_recipe_name(src);
                    f.add_node(src, &name, NodeType::Production);
                }
            }
            proof {
                assert forall|j: int|
                    0 <= j < i + 1 implies has_node(
                    f.nodes@,
                    (#[trigger] self.links.links@[j]).source@,
                ) by {
                    if self.links.links@[j].source@ == self.links.links@[i as int].source@ {
                    } else {
                        let k = choose|k: int|
                            0 <= k < f.nodes@.len() && f.nodes@[k].0@
                                == self.links.links@[j].source@;
                        assert(f.nodes@[k].0@ == self.links.links@[j].source@);
                    }
                }
            }
            i += 1;
        }
        let mut i: usize = 0;
        while i < self.links.links.len()
            invariant
                self.wf(),
                assignment@.len() == self.model.vars@.len(),
                0 <= i <= self.links.links@.len(),
                ids_unique(f.nodes@),
                forall|k: int|
                    0 <= k < f.nodes@.len() ==> entries_above_noise((#[trigger] f.nodes@[k]).1),
                respects_bounds(self.model, assignment@) ==> forall|k: int|
                    0 <= k < f.nodes@.len() ==> entries_positive((#[trigger] f.nodes@[k]).1),
                forall|k: int|
                    0 <= k < f.nodes@.len() ==> self.node_described(
                        (#[trigger] f.nodes@[k]).0@,
                        f.nodes@[k].1,
                    ),
                forall|j: int|
                    0 <= j < self.links.links@.len() ==> has_node(
                    f.nodes@,
                    (#[trigger] self.links.links@[j]).source@,
                ),
                forall|j: int|
                    #![trigger self.links.links@[j]]
                    0 <= j < i && above_noise(
                        assignment@[self.links.links@[j].variable as int],
                    ) ==> records_output(
                        f.nodes@,
                        self.links.links@[j].source@,
                        self.links.links@[j].destination@,
                        assignment@[self.links.links@[j].variable as int],
                        underclock_spec(
                            self.data,
                            self.links.links@[j].source@,
                            self.links.links@[j].item@,
                            assignment@[self.links.links@[j].variable as int],
                        ),
                        display_name(self.data, self.links.links@[j].item@),
                        display_name(self.data, self.links.links@[j].destination@),
                    ) && records_input(
                        f.nodes@,
                        self.links.links@[j].destination@,
                        self.links.links@[j].source@,
                        assignment@[self.links.links@[j].variable as int],
                        0,
                        display_name(self.data, self.links.links@[j].item@),
                        display_name(self.data, self.links.links@[j].source@),
                    ),
            decreases self.links.links@.len() - i,
        {
            proof {
                assert(link_ok(self.data, self.disallowed_recipes@, self.links.links@[i as int]));
            }
            let ghost f0 = f.nodes@;
            let l = &self.links.links[i];
            let rate = assignment[l.variable];
            if rate > RATE_EPSILON || rate < -RATE_EPSILON {
                let item_name = self.data.get_item_name(&l.item);
                let dest_is_item = self.data.contains_item(&l.destination);
                let other_name = if dest_is_item {
                    self.data.get_item_name(&l.destination)
                } else {
                    self.data.get_recipe_name(&l.destination)
                };
                let this_name = if self.data.contains_item(&l.source) {
                    self.data.get_item_name(&l.source)
                } else {
                    self.data.get_recipe_name(&l.source)
                };
                let uc = self.get_underclock(&l.source, &l.item, rate);
                let out_entry = ItemRate {
                    name: item_name.clone(),
                    other_node_name: other_name,
                    rate,
                    underclock: uc,
                };
                let out_at = f.add_node_output(&l.source, &l.destination, out_entry);
                let ghost g1 = f.nodes@;
                if !f.contains_node(&l.destination) {
                    if dest_is_item {
                        let node_type = if self.target_exists(&l.destination) {
                            NodeType::Output
                        } else {
                            NodeType::Input
                        };
                        let dest_name = self.data.get_item_name(&l.destination);
                        f.add_node(&l.destination, &dest_name, node_type);
                    } else {
                        let dest_name = self.data.get_recipe_name(&l.destination);
                        f.add_node(&l.destination, &dest_name, NodeType::Production);
                    }
                }
                let ghost g2 = f.nodes@;
                let in_entry = ItemRate {
                    name: item_name,
                    other_node_name: this_name,
                    rate,
                    underclock: 0,
                };
                let in_at = f.add_node_input(&l.destination, &l.source, in_entry);
                proof {
                    assert(nodes_extend(f0, g1));
                    assert(nodes_extend(g1, g2));
                    assert(nodes_extend(g2, f.nodes@));
                    lemma_extends_trans(f0, g1, g2);
                    lemma_extends_trans(g1, g2, f.nodes@);
                    lemma_extends_trans(f0, g2, f.nodes@);
                    assert(records_output(
                        g1,
                        l.source@,
                        l.destination@,
                        rate,
                        uc as int,
                        display_name(self.data, l.item@),
                        display_name(self.data, l.destination@),
                    )) by {
                        let e = g1[out_at as int].1.outputs@.len() - 1;
                        assert(g1[out_at as int].0@ == l.source@);
                        assert(g1[out_at as int].1.outputs@[e].0@ == l.destination@);
                        assert(g1[out_at as int].1.outputs@[e].1.rate == rate);
                        assert(g1[out_at as int].1.outputs@[e].1.underclock == uc);
                        assert(g1[out_at as int].1.outputs@[e].1.name@
                            == display_name(self.data, l.item@));
                        assert(g1[out_at as int].1.outputs@[e].1.other_node_name@
                            == display_name(self.data, l.destination@));
                    }
                    lemma_records_extend(
                        g1,
                        f.nodes@,
                        l.source@,
                        l.destination@,
                        rate,
                        uc as int,
                        display_name(self.data, l.item@),
                        display_name(self.data, l.destination@),
                    );
                    assert(records_input(
                        f.nodes@,
                        l.destination@,
                        l.source@,
                        rate,
                        0,
                        display_name(self.data, l.item@),
                        display_name(self.data, l.source@),
                    )) by {
                        let e = f.nodes@[in_at as int].1.inputs@.len() - 1;
                        assert(f.nodes@[in_at as int].0@ == l.destination@);
                        assert(f.nodes@[in_at as int].1.inputs@[e].0@ == l.source@);
                        assert(f.nodes@[in_at as int].1.inputs@[e].1.rate == rate);
                        assert(f.nodes@[in_at as int].1.inputs@[e].1.underclock == 0);
                        assert(f.nodes@[in_at as int].1.inputs@[e].1.name@
                            == display_name(self.data, l.item@));
                        assert(f.nodes@[in_at as int].1.inputs@[e].1.other_node_name@
                            == display_name(self.data, l.source@));
                    }
                    assert forall|j: int|
                        0 <= j < self.links.links@.len() implies has_node(
                        f.nodes@,
                        (#[trigger] self.links.links@[j]).source@,
                    ) by {
                        let s = self.links.links@[j].source@;
                        let k = choose|k: int|
                            0 <= k < f.nodes@.len() && f.nodes@[k].0@ == s;
                        assert(f.nodes@[k].0@ == s);
                    }
                    assert forall|j: int|
                        #![trigger self.links.links@[j]]
                        0 <= j < i + 1 && above_noise(
                            assignment@[self.links.links@[j].variable as int],
                        ) implies records_output(
                        f.nodes@,
                        self.links.links@[j].source@,
                        self.links.links@[j].destination@,
                        assignment@[self.links.links@[j].variable as int],
                        underclock_spec(
                            self.data,
                            self.links.links@[j].source@,
                            self.links.links@[j].item@,
                            assignment@[self.links.links@[j].variable as int],
                        ),
                        display_name(self.data, self.links.links@[j].item@),
                        display_name(self.data, self.links.links@[j].destination@),
                    ) && records_input(
                        f.nodes@,
                        self.links.links@[j].destination@,
                        self.links.links@[j].source@,
                        assignment@[self.links.links@[j].variable as int],
                        0,
                        display_name(self.data, self.links.links@[j].item@),
                        display_name(self.data, self.links.links@[j].source@),
                    ) by {
                        let rj = assignment@[self.links.links@[j].variable as int];
                        let ucj = underclock_spec(
                            self.data,
                            self.links.links@[j].source@,
                            self.links.links@[j].item@,
                            rj,
                        );
                        let inm = display_name(self.data, self.links.links@[j].item@);
                        if j < i as int {
                            lemma_records_extend(
                                f0,
                                f.nodes@,
                                self.links.links@[j].source@,
                                self.links.links@[j].destination@,
                                rj,
                                ucj,
                                inm,
                                display_name(self.data, self.links.links@[j].destination@),
                            );
                            lemma_records_extend(
                                f0,
                                f.nodes@,
                                self.links.links@[j].destination@,
                                self.links.links@[j].source@,
                                rj,
                                0,
                                inm,
                                display_name(self.data, self.links.links@[j].source@),
                            );
                        } else {
                            assert(rj == rate);
                            assert(ucj == uc as int);
                        }
                    }
                    if respects_bounds(self.model, assignment@) {
                        assert(assignment@[l.variable as int] >= 0);
                        assert(rate > RATE_EPSILON);
                    }
                }
            }
            i += 1;
        }
        let ghost entries = f.nodes@;
        let mut remaining = f.nodes;
        let total = remaining.len();
        let mut cleaned: Vec<(String, Node)> = Vec::new();
        let mut done: usize = 0;
        while remaining.len() > 0
            invariant
                self.wf(),
                entries.len() <= usize::MAX,
                done + remaining@.len() == entries.len(),
                remaining@ == entries.skip(done as int),
                ids_unique(entries),
                forall|k: int|
                    0 <= k < entries.len() ==> entries_above_noise((#[trigger] entries[k]).1),
                respects_bounds(self.model, assignment@) ==> forall|k: int|
                    0 <= k < entries.len() ==> entries_positive((#[trigger] entries[k]).1),
                forall|k: int|
                    0 <= k < entries.len() ==> self.node_described(
                        (#[trigger] entries[k]).0@,
                        entries[k].1,
                    ),
                ids_unique(cleaned@),
                forall|k: int|
                    0 <= k < cleaned@.len() ==> node_cleaned((#[trigger] cleaned@[k]).1),
                forall|p: int|
                    0 <= p < cleaned@.len() ==> #[trigger] node_from(
                        entries,
                        cleaned@,
                        p,
                        done as int,
                    ),
                forall|k: int|
                    0 <= k < done && (#[trigger] entries[k]).1.inputs@.len()
                        + entries[k].1.outputs@.len() > 0 ==> node_kept(entries, cleaned@, k),
            decreases remaining@.len(),
        {
            proof {
                assert(remaining@[0] == entries[done as int]);
            }
            let ghost cpre = cleaned@;
            let (id, node) = remaining.remove(0);
            proof {
                assert(remaining@ =~= entries.skip(done + 1));
            }
            let keep = node.inputs.len() > 0 || node.outputs.len() > 0;
            if keep {
                proof {
                    // the identifier is new to `cleaned`: its source entry is
                    // distinct from every earlier one
                    let ghost cur = entries[done as int];
                    assert forall|p: int| 0 <= p < cpre.len() implies cpre[p].0@ != cur.0@ by {
                        assert(node_from(entries, cpre, p, done as int));
                        let k = choose|k: int| 0 <= k < done && cpre[p] == entries[k];
                        assert(entries[k].0@ != entries[done as int].0@);
                    }
                }
                cleaned.push((id, node));
            }
            proof {
                assert forall|p: int|
                    0 <= p < cleaned@.len() implies #[trigger] node_from(
                    entries,
                    cleaned@,
                    p,
                    done + 1,
                ) by {
                    if p < cpre.len() {
                        assert(node_from(entries, cpre, p, done as int));
                        let k = choose|k: int| 0 <= k < done && cpre[p] == entries[k];
                        assert(cleaned@[p] == entries[k]);
                    } else {
                        assert(cleaned@[p] == entries[done as int]);
                    }
                }
                assert forall|k: int|
                    0 <= k < done + 1 && (#[trigger] entries[k]).1.inputs@.len()
                        + entries[k].1.outputs@.len() > 0 implies node_kept(
                    entries,
                    cleaned@,
                    k,
                ) by {
                    if k < done as int {
                        assert(node_kept(entries, cpre, k));
                        let k2 = choose|k2: int|
                            0 <= k2 < cpre.len() && cpre[k2] == entries[k];
                        assert(cleaned@[k2] == entries[k]);
                    } else {
                        assert(keep);
                        assert(cleaned@[cleaned@.len() - 1] == entries[k]);
                    }
                }
            }
            done += 1;
        }
        proof {
            assert(total as int == entries.len());
            assert forall|p: int|
                0 <= p < cleaned@.len() implies self.node_described(
                (#[trigger] cleaned@[p]).0@,
                cleaned@[p].1,
            ) by {
                assert(node_from(entries, cleaned@, p, entries.len() as int));
                let k = choose|k: int| 0 <= k < entries.len() && cleaned@[p] == entries[k];
                assert(self.node_described(entries[k].0@, entries[k].1));
            }
            if respects_bounds(self.model, assignment@) {
                assert forall|p: int|
                    0 <= p < cleaned@.len() implies entries_positive(
                    (#[trigger] cleaned@[p]).1,
                ) by {
                    assert(node_from(entries, cleaned@, p, entries.len() as int));
                    let k = choose|k: int| 0 <= k < entries.len() && cleaned@[p] == entries[k];
                    assert(entries_positive(entries[k].1));
                }
            }
            assert forall|j: int|
                #![trigger self.links.links@[j]]
                0 <= j < self.links.links@.len() && above_noise(
                    assignment@[self.links.links@[j].variable as int],
                ) implies records_output(
                cleaned@,
                self.links.links@[j].source@,
                self.links.links@[j].destination@,
                assignment@[self.links.links@[j].variable as int],
                underclock_spec(
                    self.data,
                    self.links.links@[j].source@,
                    self.links.links@[j].item@,
                    assignment@[self.links.links@[j].variable as int],
                ),
                display_name(self.data, self.links.links@[j].item@),
                display_name(self.data, self.links.links@[j].destination@),
            ) && records_input(
                cleaned@,
                self.links.links@[j].destination@,
                self.links.links@[j].source@,
                assignment@[self.links.links@[j].variable as int],
                0,
                display_name(self.data, self.links.links@[j].item@),
                display_name(self.data, self.links.links@[j].source@),
            ) by {
                let rj = assignment@[self.links.links@[j].variable as int];
                let ucj = underclock_spec(
                    self.data,
                    self.links.links@[j].source@,
                    self.links.links@[j].item@,
                    rj,
                );
                let inm = display_name(self.data, self.links.links@[j].item@);
                let src = self.links.links@[j].source@;
                let dst = self.links.links@[j].destination@;
                let dnm = display_name(self.data, dst);
                let snm = display_name(self.data, src);
                assert(records_output(entries, src, dst, rj, ucj, inm, dnm));
                let k = choose|k: int|
                    0 <= k < entries.len() && (#[trigger] entries[k]).0@ == src && exists|e: int|
                        0 <= e < entries[k].1.outputs@.len() && (#[trigger] entries[k].1.outputs@[e]).0@
                            == dst && entries[k].1.outputs@[e].1.rate == rj
                            && entries[k].1.outputs@[e].1.underclock as int == ucj
                            && entries[k].1.outputs@[e].1.name@ == inm
                            && entries[k].1.outputs@[e].1.other_node_name@ == dnm;
                assert(node_kept(entries, cleaned@, k));
                let k2 = choose|k2: int| 0 <= k2 < cleaned@.len() && cleaned@[k2] == entries[k];
                assert(cleaned@[k2].0@ == src);
                assert(records_input(entries, dst, src, rj, 0, inm, snm));
                let ki = choose|ki: int|
                    0 <= ki < entries.len() && (#[trigger] entries[ki]).0@ == dst && exists|e: int|
                        0 <= e < entries[ki].1.inputs@.len() && (#[trigger] entries[ki].1.inputs@[e]).0@
                            == src && entries[ki].1.inputs@[e].1.rate == rj
                            && entries[ki].1.inputs@[e].1.underclock as int == 0
                            && entries[ki].1.inputs@[e].1.name@ == inm
                            && entries[ki].1.inputs@[e].1.other_node_name@ == snm;
                assert(node_kept(entries, cleaned@, ki));
                let ki2 = choose|ki2: int|
                    0 <= ki2 < cleaned@.len() && cleaned@[ki2] == entries[ki];
                assert(cleaned@[ki2].0@ == dst);
            }
        }
        Factory { nodes: cleaned }
    }
}


/// Link `k`'s source already appears among the first `n` links.
pub open spec fn source_among(ls: Seq<Link>, k: int, n: int) -> bool {
    exists|k2: int| 0 <= k2 < n && ls[k].source@ == (#[trigger] ls[k2]).source@
}

/// Link `k`'s source is one of the listed producer identifiers.
pub open spec fn source_in_todo(ls: Seq<Link>, todo: Seq<String>, k: int) -> bool {
    exists|k2: int| 0 <= k2 < todo.len() && ls[k].source@ == (#[trigger] todo[k2])@
}

/// Some link runs from `src` into the output node of `t` carrying `t`.
pub open spec fn creator_linked(ls: Seq<Link>, src: Seq<char>, t: Seq<char>) -> bool {
    exists|k: int|
        0 <= k < ls.len() && (#[trigger] ls[k]).source@ == src && ls[k].destination@ == t
            && ls[k].item@ == t
}

/// The link's destination is one of the first `n` requested targets.
pub open spec fn dest_among_targets(l: Link, ts: Seq<(String, i64)>, n: int) -> bool {
    exists|t2: int| 0 <= t2 < n && l.destination@ == (#[trigger] ts[t2]).0@
}

/// How many catalog recipes already act as a source node in `ls`.
pub open spec fn source_recipe_count(d: GameData, ls: Seq<Link>) -> int {
    d.recipes@.filter(|r: Recipe| has_source(ls, r.class_name@)).len() as int
}

/// A filtered list is never longer than the original.
pub proof fn lemma_filter_le(s: Seq<Recipe>, p: spec_fn(Recipe) -> bool)
    ensures
        s.filter(p).len() <= s.len(),
    decreases s.len(),
{
    reveal(Seq::filter);
    if s.len() > 0 {
        lemma_filter_le(s.drop_last(), p);
    }
}

/// A source persists as links are appended.
pub proof fn lemma_has_source_extend(ls1: Seq<Link>, ls2: Seq<Link>, id: Seq<char>)
    requires
        has_source(ls1, id),
        ls1.len() <= ls2.len(),
        forall|j: int| 0 <= j < ls1.len() ==> ls2[j] == ls1[j],
    ensures
        has_source(ls2, id),
{
    let j = choose|j: int| 0 <= j < ls1.len() && ls1[j].source@ == id;
    assert(ls2[j].source@ == id);
}

/// Appending links can only grow the set of source recipes.
pub proof fn lemma_source_count_mono(d: GameData, ls1: Seq<Link>, ls2: Seq<Link>)
    requires
        ls1.len() <= ls2.len(),
        forall|j: int| 0 <= j < ls1.len() ==> ls2[j] == ls1[j],
    ensures
        source_recipe_count(d, ls1) <= source_recipe_count(d, ls2),
{
    let p1 = |r: Recipe| has_source(ls2, r.class_name@);
    let p2 = |r: Recipe| has_source(ls1, r.class_name@);
    assert forall|x: Recipe| #[trigger] p2(x) implies p1(x) by {
        if has_source(ls1, x.class_name@) {
            let k = choose|k: int| 0 <= k < ls1.len() && ls1[k].source@ == x.class_name@;
            assert(ls2[k].source@ == x.class_name@);
        }
    }
    lemma_filter_mono(d.recipes@, p1, p2);
}

impl Solver {
    /// Checks that every requested target names a listed item and that no
    /// item is requested twice.
    fn check_targets(&self) -> (r: Option<SolveError>)
        ensures
            r is None <==> targets_valid(self.data, self.targets@),
    {
        let mut i: usize = 0;
        while i < self.targets.len()
            invariant
                0 <= i <= self.targets@.len(),
                forall|j: int| 0 <= j < i ==> self.data.has_item((#[trigger] self.targets@[j]).0@),
                forall|a: int, b: int|
                    #![trigger self.targets@[a].0, self.targets@[b].0]
                    0 <= a < b < i ==> self.targets@[a].0@ != self.targets@[b].0@,
            decreases self.targets@.len() - i,
        {
            if !self.data.contains_item(&self.targets[i].0) {
                return Some(SolveError::UnknownItem);
            }
            let mut j: usize = 0;
            while j < i
                invariant
                    0 <= j <= i < self.targets@.len(),
                    forall|b: int| 0 <= b < j ==> self.targets@[b].0@ != self.targets@[i as int].0@,
                decreases i - j,
            {
                if self.targets[j].0 == self.targets[i].0 {
                    return Some(SolveError::DuplicateTarget);
                }
                j += 1;
            }
            i += 1;
        }
        None
    }

    /// Registers the target items: one unbounded edge from every allowed
    /// producer into the target's output node, and one equality constraint
    /// per target forcing the inflow to equal the requested rate.  The
    /// constraint for target `ti` is constraint `ti` of the model.  Returns
    /// the producer recipes found, for later ingredient expansion.
    fn add_targets(&self, links: &mut LinkSet, model: &mut Model) -> (todo: Vec<String>)
        requires
            self.wf(),
            targets_valid(self.data, self.targets@),
            old(links).links@ == Seq::<Link>::empty(),
            old(model).vars@ == Seq::<VarDef>::empty(),
            old(model).constraints@ == Seq::<Constraint>::empty(),
        ensures
            links_wf(final(links).links@, final(model).vars@.len() as int),
            links_ok(self.data, self.disallowed_recipes@, final(links).links@),
            forall|ti: int|
                0 <= ti < self.targets@.len() ==> target_covered(
                    self.data,
                    self.disallowed_recipes@,
                    final(links).links@,
                    (#[trigger] self.targets@[ti]).0@,
                ),
            final(model).constraints@.len() == self.targets@.len(),
            forall|ti: int, a: Seq<i64>|
                #![trigger satisfies(final(model).constraints@[ti], a)]
                0 <= ti < self.targets@.len() ==> (satisfies(
                    final(model).constraints@[ti],
                    a,
                ) <==> in_flow(
                    final(links).links@,
                    self.targets@[ti].0@,
                    self.targets@[ti].0@,
                    a,
                ) == self.targets@[ti].1),
            forall|k: int|
                0 <= k < todo@.len() ==> self.data.has_recipe((#[trigger] todo@[k])@)
                    && !self.disallowed_recipes@.contains(todo@[k]@),
            forall|k: int| 0 <= k < todo@.len() ==> has_source(final(links).links@, (#[trigger] todo@[k])@),
            forall|k: int|
                0 <= k < final(links).links@.len() ==> #[trigger] source_in_todo(
                    final(links).links@,
                    todo@,
                    k,
                ),
            links_priced(
                self.data,
                self.resources@,
                self.targets@,
                self.byproduct_coefficient,
                final(links).links@,
                final(model).vars@,
            ),
    {
        let mut todo: Vec<String> = Vec::new();
        let mut ti: usize = 0;
        while ti < self.targets.len()
            invariant
                self.wf(),
                targets_valid(self.data, self.targets@),
                0 <= ti <= self.targets@.len(),
                links_wf(links.links@, model.vars@.len() as int),
                links_ok(self.data, self.disallowed_recipes@, links.links@),
                links_priced(
                    self.data,
                    self.resources@,
                    self.targets@,
                    self.byproduct_coefficient,
                    links.links@,
                    model.vars@,
                ),
                model.constraints@.len() == ti,
                forall|t2: int|
                    0 <= t2 < ti ==> target_covered(
                        self.data,
                        self.disallowed_recipes@,
                        links.links@,
                        (#[trigger] self.targets@[t2]).0@,
                    ),
                forall|t2: int, a: Seq<i64>|
                    #![trigger satisfies(model.constraints@[t2], a)]
                    0 <= t2 < ti ==> (satisfies(model.constraints@[t2], a) <==> in_flow(
                        links.links@,
                        self.targets@[t2].0@,
                        self.targets@[t2].0@,
                        a,
                    ) == self.targets@[t2].1),
                forall|l: int|
                    0 <= l < links.links@.len() ==> #[trigger] dest_among_targets(
                        links.links@[l],
                        self.targets@,
                        ti as int,
                    ),
                forall|k: int|
                    0 <= k < todo@.len() ==> self.data.has_recipe((#[trigger] todo@[k])@)
                        && !self.disallowed_recipes@.contains(todo@[k]@),
                forall|k: int|
                    0 <= k < todo@.len() ==> has_source(links.links@, (#[trigger] todo@[k])@),
                forall|k: int|
                    0 <= k < links.links@.len() ==> #[trigger] source_in_todo(
                        links.links@,
                        todo@,
                        k,
                    ),
            decreases self.targets@.len() - ti,
        {
            let tid = self.targets[ti].0.clone();
            let rate = self.targets[ti].1;
            let creators = self.data.get_item_creators(&tid, &self.disallowed_recipes);
            let ghost links0 = links.links@;
            let mut c: usize = 0;
            while c < creators.len()
                invariant
                    self.wf(),
                    targets_valid(self.data, self.targets@),
                    0 <= ti < self.targets@.len(),
                    tid == self.targets@[ti as int].0,
                    0 <= c <= creators@.len(),
                    creators@ == self.data.recipes@.filter(
                        |rec: Recipe| !self.disallowed_recipes@.contains(rec.class_name@)
                            && rec_has_product(rec, tid@),
                    ).map_values(|rec: Recipe| rec.class_name),
                    forall|k: int|
                        0 <= k < creators@.len() ==> crate::data::creator_witness(
                            self.data,
                            self.disallowed_recipes@,
                            tid@,
                            (#[trigger] creators@[k])@,
                        ),
                    links_wf(links.links@, model.vars@.len() as int),
                    links_ok(self.data, self.disallowed_recipes@, links.links@),
                    links_priced(
                        self.data,
                        self.resources@,
                        self.targets@,
                        self.byproduct_coefficient,
                        links.links@,
                        model.vars@,
                    ),
                    model.constraints@.len() == ti,
                    links0.len() <= links.links@.len(),
                    forall|j: int| 0 <= j < links0.len() ==> links.links@[j] == links0[j],
                    forall|j: int|
                        links0.len() <= j < links.links@.len() ==> (#[trigger] links.links@[j]).destination@
                            == tid@ && links.links@[j].item@ == tid@,
                    forall|c2: int|
                        0 <= c2 < c ==> #[trigger] creator_linked(
                            links.links@,
                            creators@[c2]@,
                            tid@,
                        ),
                    forall|t2: int|
                        0 <= t2 < ti ==> target_covered(
                            self.data,
                            self.disallowed_recipes@,
                            links.links@,
                            (#[trigger] self.targets@[t2]).0@,
                        ),
                    forall|t2: int, a: Seq<i64>|
                        #![trigger satisfies(model.constraints@[t2], a)]
                        0 <= t2 < ti ==> (satisfies(model.constraints@[t2], a)
                            <==> in_flow(
                            links.links@,
                            self.targets@[t2].0@,
                            self.targets@[t2].0@,
                            a,
                        ) == self.targets@[t2].1),
                    forall|l: int|
                        0 <= l < links0.len() ==> #[trigger] dest_among_targets(
                            links.links@[l],
                            self.targets@,
                            ti as int,
                        ),
                    forall|k: int|
                        0 <= k < todo@.len() ==> self.data.has_recipe((#[trigger] todo@[k])@)
                            && !self.disallowed_recipes@.contains(todo@[k]@),
                    forall|k: int|
                        0 <= k < todo@.len() ==> has_source(links.links@, (#[trigger] todo@[k])@),
                    forall|k: int|
                        0 <= k < links.links@.len() ==> #[trigger] source_in_todo(
                            links.links@,
                            todo@,
                            k,
                        ),
                decreases creators@.len() - c,
            {
                let ghost pre = links.links@;
                let ghost vpre = model.vars@;
                let ghost tpre = todo@;
                links.add_simple_variable(&creators[c], &tid, &tid, model);
                todo.push(creators[c].clone());
                proof {
                    let nl = links.links@.last();
                    assert(crate::data::creator_witness(
                        self.data,
                        self.disallowed_recipes@,
                        tid@,
                        creators@[c as int]@,
                    ));
                    assert(self.data.has_recipe(nl.source@) && !self.disallowed_recipes@.contains(
                        nl.source@,
                    ));
                    assert(self.data.has_item(tid@));
                    assert(rec_has_product(self.data.recipe_at(nl.source@), tid@)) by {
                        let j = choose|j: int|
                            0 <= j < self.data.recipes@.len() && (#[trigger] self.data.recipes@[j]).class_name@
                                == nl.source@ && !self.disallowed_recipes@.contains(nl.source@)
                                && rec_has_product(self.data.recipes@[j], tid@);
                        let ri = self.data.recipe_index(nl.source@);
                        assert(self.data.recipes@[ri].class_name@ == nl.source@);
                        if j != ri {
                            assert(self.data.recipes@[j].class_name@
                                != self.data.recipes@[ri].class_name@ || self.data.recipes@[ri].class_name@
                                != self.data.recipes@[j].class_name@);
                            assert(false);
                        }
                    }
                    lemma_namespaces_disjoint(self.data, nl.source@);
                    assert(link_ok(self.data, self.disallowed_recipes@, nl));
                    lemma_namespaces_disjoint(self.data, nl.source@);
                    lemma_priced_extend(
                        self.data,
                        self.resources@,
                        self.targets@,
                        self.byproduct_coefficient,
                        pre,
                        links.links@,
                        vpre,
                        model.vars@,
                    );
                    assert(target_listed(self.targets@, tid@)) by {
                        assert(self.targets@[ti as int].0@ == tid@);
                    }
                    assert(link_priced(
                        self.data,
                        self.resources@,
                        self.targets@,
                        self.byproduct_coefficient,
                        links.links@,
                        model.vars@,
                        links.links@.len() - 1,
                    ));
                    assert forall|k: int|
                        0 <= k < todo@.len() implies has_source(
                        links.links@,
                        (#[trigger] todo@[k])@,
                    ) by {
                        if k < todo@.len() - 1 {
                            assert(has_source(pre, todo@[k]@));
                            let j = choose|j: int|
                                0 <= j < pre.len() && pre[j].source@ == todo@[k]@;
                            assert(links.links@[j].source@ == todo@[k]@);
                        } else {
                            assert(links.links@.last().source@ == todo@[k]@);
                        }
                    }
                    assert forall|k: int|
                        0 <= k < links.links@.len() implies #[trigger] source_in_todo(
                        links.links@,
                        todo@,
                        k,
                    ) by {
                        if k < pre.len() {
                            assert(source_in_todo(pre, tpre, k));
                            let k2 = choose|k2: int|
                                0 <= k2 < tpre.len() && pre[k].source@ == (#[trigger] tpre[k2])@;
                            assert(todo@[k2] == tpre[k2]);
                            assert(links.links@[k].source@ == todo@[k2]@);
                        } else {
                            assert(links.links@[k].source@ == todo@[todo@.len() - 1]@);
                        }
                    }
                    assert forall|j: int|
                        0 <= j < links.links@.len() implies link_ok(
                        self.data,
                        self.disallowed_recipes@,
                        #[trigger] links.links@[j],
                    ) by {
                        if j < pre.len() {
                            assert(link_ok(self.data, self.disallowed_recipes@, pre[j]));
                        }
                    }
                    assert forall|t2: int| 0 <= t2 < ti implies target_covered(
                        self.data,
                        self.disallowed_recipes@,
                        links.links@,
                        (#[trigger] self.targets@[t2]).0@,
                    ) by {
                        lemma_covered_extend(
                            self.data,
                            self.disallowed_recipes@,
                            pre,
                            links.links@,
                            self.targets@[t2].0@,
                        );
                    }
                    assert forall|t2: int, a: Seq<i64>|
                        #![trigger satisfies(model.constraints@[t2], a)]
                        0 <= t2 < ti implies (satisfies(
                        model.constraints@[t2],
                        a,
                    ) <==> in_flow(
                        links.links@,
                        self.targets@[t2].0@,
                        self.targets@[t2].0@,
                        a,
                    ) == self.targets@[t2].1) by {
                        assert(self.targets@[t2].0@ != tid@);
                        lemma_incoming_push(
                            pre,
                            links.links@.last(),
                            self.targets@[t2].0@,
                            self.targets@[t2].0@,
                        );
                        assert(links.links@ =~= pre.push(links.links@.last()));
                    }
                    assert forall|c2: int| 0 <= c2 < c + 1 implies #[trigger] creator_linked(
                        links.links@,
                        creators@[c2]@,
                        tid@,
                    ) by {
                        if c2 < c {
                            assert(creator_linked(pre, creators@[c2]@, tid@));
                            let k = choose|k: int|
                                0 <= k < pre.len() && (#[trigger] pre[k]).source@ == creators@[c2]@
                                    && pre[k].destination@ == tid@ && pre[k].item@ == tid@;
                            assert(links.links@[k] == pre[k]);
                        } else {
                            assert(links.links@[links.links@.len() - 1].source@
                                == creators@[c2]@);
                        }
                    }
                }
                c += 1;
            }
            let in_vars = links.get_incoming_for_item(&tid, &tid);
            let terms = crate::model::scaled_terms(&in_vars, 1);
            model.add_constraint(Constraint { terms, rhs: rate });
            proof {
                // the new constraint is exactly the inflow equation of this target
                assert forall|a: Seq<i64>| satisfies(
                    model.constraints@[ti as int],
                    a,
                ) <==> in_flow(links.links@, tid@, tid@, a) == rate by {
                    assert(term_sum(terms@, a) == 1 * vars_sum(in_vars@, a));
                    assert(1 * vars_sum(in_vars@, a) == vars_sum(in_vars@, a)) by (nonlinear_arith);
                }
                // this target is now covered: every allowed producer got an edge
                assert forall|j: int|
                    0 <= j < self.data.recipes@.len() && !self.disallowed_recipes@.contains(
                        (#[trigger] self.data.recipes@[j]).class_name@,
                    ) && rec_has_product(self.data.recipes@[j], tid@) implies exists|k: int|
                    0 <= k < links.links@.len() && (#[trigger] links.links@[k]).source@
                        == self.data.recipes@[j].class_name@ && links.links@[k].destination@
                        == tid@ && links.links@[k].item@ == tid@ by {
                    let pred = |rec: Recipe| !self.disallowed_recipes@.contains(rec.class_name@)
                        && rec_has_product(rec, tid@);
                    let f = self.data.recipes@.filter(pred);
                    self.data.recipes@.lemma_filter_contains(pred, j);
                    let fi = choose|fi: int| 0 <= fi < f.len() && f[fi] == self.data.recipes@[j];
                    assert(creators@[fi] == f[fi].class_name);
                    assert(creator_linked(links.links@, creators@[fi]@, tid@));
                    let k = choose|k: int|
                        0 <= k < links.links@.len() && (#[trigger] links.links@[k]).source@
                            == creators@[fi]@ && links.links@[k].destination@ == tid@
                            && links.links@[k].item@ == tid@;
                    assert(links.links@[k].source@ == self.data.recipes@[j].class_name@);
                }
                assert(target_covered(
                    self.data,
                    self.disallowed_recipes@,
                    links.links@,
                    tid@,
                ));
                // links added for this target point at it
                assert forall|l: int|
                    0 <= l < links.links@.len() implies #[trigger] dest_among_targets(
                    links.links@[l],
                    self.targets@,
                    ti + 1,
                ) by {
                    if l < links0.len() {
                        assert(dest_among_targets(links.links@[l], self.targets@, ti as int));
                        let t2 = choose|t2: int|
                            0 <= t2 < ti && links.links@[l].destination@
                                == (#[trigger] self.targets@[t2]).0@;
                        assert(links.links@[l].destination@ == self.targets@[t2].0@);
                    } else {
                        assert(links.links@[l].destination@ == self.targets@[ti as int].0@);
                    }
                }
            }
            ti += 1;
        }
        todo
    }
}


/// A recipe identifier is never an item identifier.
pub proof fn lemma_namespaces_disjoint(d: GameData, id: Seq<char>)
    requires
        d.wf(),
        d.has_recipe(id),
    ensures
        !d.has_item(id),
{
    if d.has_item(id) {
        let i = choose|i: int| 0 <= i < d.recipes@.len() && d.recipes@[i].class_name@ == id;
        let j = choose|j: int| 0 <= j < d.items@.len() && d.items@[j].id@ == id;
        assert(d.recipes@[i].class_name@ != d.items@[j].id@);
        assert(false);
    }
}

/// `id` is one of the requested target items.
pub open spec fn target_listed(ts: Seq<(String, i64)>, id: Seq<char>) -> bool {
    exists|i: int| 0 <= i < ts.len() && (#[trigger] ts[i]).0@ == id
}

/// The variable behind link `li` is priced by its edge kind: a resource
/// edge carries the configured extraction limit and cost weight, a
/// byproduct sink (into a non-target item node) the byproduct penalty and
/// no upper bound, and every other edge unit weight and no upper bound.
pub open spec fn link_priced(
    d: GameData,
    rs: Seq<(String, Resource)>,
    ts: Seq<(String, i64)>,
    byw: i64,
    ls: Seq<Link>,
    vars: Seq<VarDef>,
    li: int,
) -> bool {
    let l = ls[li];
    let v = vars[l.variable as int];
    if d.has_item(l.source@) {
        &&& res_listed(rs, l.item@)
        &&& v.weight == res_at(rs, l.item@).weight
        &&& v.upper == res_at(rs, l.item@).limit
    } else if d.has_item(l.destination@) && !target_listed(ts, l.destination@) {
        v.weight == byw && v.upper is None
    } else {
        v.weight == SCALE && v.upper is None
    }
}

/// Every link's variable is priced by its edge kind.
pub open spec fn links_priced(
    d: GameData,
    rs: Seq<(String, Resource)>,
    ts: Seq<(String, i64)>,
    byw: i64,
    ls: Seq<Link>,
    vars: Seq<VarDef>,
) -> bool {
    forall|li: int| 0 <= li < ls.len() ==> #[trigger] link_priced(d, rs, ts, byw, ls, vars, li)
}

/// Pricing of existing links survives appended links and variables.
pub proof fn lemma_priced_extend(
    d: GameData,
    rs: Seq<(String, Resource)>,
    ts: Seq<(String, i64)>,
    byw: i64,
    ls1: Seq<Link>,
    ls2: Seq<Link>,
    v1: Seq<VarDef>,
    v2: Seq<VarDef>,
)
    requires
        links_priced(d, rs, ts, byw, ls1, v1),
        links_wf(ls1, v1.len() as int),
        ls1.len() <= ls2.len(),
        forall|j: int| 0 <= j < ls1.len() ==> ls2[j] == ls1[j],
        v1.len() <= v2.len(),
        forall|vi: int| 0 <= vi < v1.len() ==> v2[vi] == v1[vi],
    ensures
        forall|li: int| 0 <= li < ls1.len() ==> #[trigger] link_priced(d, rs, ts, byw, ls2, v2, li),
{
    assert forall|li: int| 0 <= li < ls1.len() implies #[trigger] link_priced(
        d,
        rs,
        ts,
        byw,
        ls2,
        v2,
        li,
    ) by {
        assert(link_priced(d, rs, ts, byw, ls1, v1, li));
        assert(ls2[li] == ls1[li]);
        assert(ls1[li].variable < v1.len());
        assert(v2[ls1[li].variable as int] == v1[ls1[li].variable as int]);
    }
}

/// Some link runs from `src` into `dst` carrying `item`.
pub open spec fn edge_exists(ls: Seq<Link>, src: Seq<char>, dst: Seq<char>, item: Seq<char>) -> bool {
    exists|j: int|
        0 <= j < ls.len() && (#[trigger] ls[j]).source@ == src && ls[j].destination@ == dst
            && ls[j].item@ == item
}

/// An edge persists as links are appended.
pub proof fn lemma_edge_exists_extend(
    ls1: Seq<Link>,
    ls2: Seq<Link>,
    src: Seq<char>,
    dst: Seq<char>,
    item: Seq<char>,
)
    requires
        edge_exists(ls1, src, dst, item),
        ls1.len() <= ls2.len(),
        forall|j: int| 0 <= j < ls1.len() ==> ls2[j] == ls1[j],
    ensures
        edge_exists(ls2, src, dst, item),
{
    let j = choose|j: int|
        0 <= j < ls1.len() && (#[trigger] ls1[j]).source@ == src && ls1[j].destination@ == dst
            && ls1[j].item@ == item;
    assert(ls2[j] == ls1[j]);
    assert(ls2[j].source@ == src && ls2[j].destination@ == dst && ls2[j].item@ == item);
}

/// The ingredient `ing` of node `rid` is wired: a resource edge where it
/// is a configured resource, and a supply edge from every allowed producer.
pub open spec fn ingredient_supplied(
    d: GameData,
    dis: Set<Seq<char>>,
    rs: Seq<(String, Resource)>,
    ls: Seq<Link>,
    rid: Seq<char>,
    ing: Seq<char>,
) -> bool {
    &&& (res_listed(rs, ing) ==> edge_exists(ls, ing, rid, ing))
    &&& forall|j: int|
        0 <= j < d.recipes@.len() && !dis.contains((#[trigger] d.recipes@[j]).class_name@)
            && rec_has_product(d.recipes@[j], ing) ==> edge_exists(
            ls,
            d.recipes@[j].class_name@,
            rid,
            ing,
        )
}

/// An ingredient's wiring persists as links are appended.
pub proof fn lemma_supplied_extend(
    d: GameData,
    dis: Set<Seq<char>>,
    rs: Seq<(String, Resource)>,
    ls1: Seq<Link>,
    ls2: Seq<Link>,
    rid: Seq<char>,
    ing: Seq<char>,
)
    requires
        ingredient_supplied(d, dis, rs, ls1, rid, ing),
        ls1.len() <= ls2.len(),
        forall|j: int| 0 <= j < ls1.len() ==> ls2[j] == ls1[j],
    ensures
        ingredient_supplied(d, dis, rs, ls2, rid, ing),
{
    if res_listed(rs, ing) {
        lemma_edge_exists_extend(ls1, ls2, ing, rid, ing);
    }
    assert forall|j: int|
        0 <= j < d.recipes@.len() && !dis.contains((#[trigger] d.recipes@[j]).class_name@)
            && rec_has_product(d.recipes@[j], ing) implies edge_exists(
        ls2,
        d.recipes@[j].class_name@,
        rid,
        ing,
    ) by {
        lemma_edge_exists_extend(ls1, ls2, d.recipes@[j].class_name@, rid, ing);
    }
}

/// A node's complete wiring persists as links are appended.
pub proof fn lemma_all_supplied_extend(
    d: GameData,
    dis: Set<Seq<char>>,
    rs: Seq<(String, Resource)>,
    ls1: Seq<Link>,
    ls2: Seq<Link>,
    rid: Seq<char>,
)
    requires
        ingredients_supplied(d, dis, rs, ls1, rid),
        ls1.len() <= ls2.len(),
        forall|j: int| 0 <= j < ls1.len() ==> ls2[j] == ls1[j],
    ensures
        ingredients_supplied(d, dis, rs, ls2, rid),
{
    assert forall|q: int|
        0 <= q < d.recipe_at(rid).ingredients@.len() implies ingredient_supplied(
        d,
        dis,
        rs,
        ls2,
        rid,
        (#[trigger] d.recipe_at(rid).ingredients@[q]).item@,
    ) by {
        lemma_supplied_extend(d, dis, rs, ls1, ls2, rid, d.recipe_at(rid).ingredients@[q].item@);
    }
}

/// Every ingredient of the recipe node `rid` is wired.
pub open spec fn ingredients_supplied(
    d: GameData,
    dis: Set<Seq<char>>,
    rs: Seq<(String, Resource)>,
    ls: Seq<Link>,
    rid: Seq<char>,
) -> bool {
    forall|q: int|
        0 <= q < d.recipe_at(rid).ingredients@.len() ==> ingredient_supplied(
            d,
            dis,
            rs,
            ls,
            rid,
            (#[trigger] d.recipe_at(rid).ingredients@[q]).item@,
        )
}

/// Some link leaves `src` carrying `item`.
pub open spec fn outgoing_exists(ls: Seq<Link>, src: Seq<char>, item: Seq<char>) -> bool {
    exists|j: int| 0 <= j < ls.len() && (#[trigger] ls[j]).source@ == src && ls[j].item@ == item
}

/// Every product of the production node `src` has an outgoing edge of it.
pub open spec fn source_covered(d: GameData, ls: Seq<Link>, src: Seq<char>) -> bool {
    forall|pi: int|
        0 <= pi < d.recipe_at(src).products@.len() ==> outgoing_exists(
            ls,
            src,
            (#[trigger] d.recipe_at(src).products@[pi]).item@,
        )
}

/// Every product of every production source node has an outgoing edge of
/// it: unconsumed products have received their byproduct sink.
pub open spec fn products_covered(d: GameData, ls: Seq<Link>) -> bool {
    forall|k: int|
        0 <= k < ls.len() && d.has_recipe((#[trigger] ls[k]).source@) ==> source_covered(
            d,
            ls,
            ls[k].source@,
        )
}

/// An outgoing edge persists as links are appended.
pub proof fn lemma_outgoing_extend(ls1: Seq<Link>, ls2: Seq<Link>, src: Seq<char>, item: Seq<char>)
    requires
        outgoing_exists(ls1, src, item),
        ls1.len() <= ls2.len(),
        forall|j: int| 0 <= j < ls1.len() ==> ls2[j] == ls1[j],
    ensures
        outgoing_exists(ls2, src, item),
{
    let j = choose|j: int|
        0 <= j < ls1.len() && (#[trigger] ls1[j]).source@ == src && ls1[j].item@ == item;
    assert(ls2[j] == ls1[j]);
    assert(ls2[j].source@ == src && ls2[j].item@ == item);
}

/// Coverage of a node's products persists as links are appended.
pub proof fn lemma_source_covered_extend(
    d: GameData,
    ls1: Seq<Link>,
    ls2: Seq<Link>,
    src: Seq<char>,
)
    requires
        source_covered(d, ls1, src),
        ls1.len() <= ls2.len(),
        forall|j: int| 0 <= j < ls1.len() ==> ls2[j] == ls1[j],
    ensures
        source_covered(d, ls2, src),
{
    assert forall|pi: int|
        0 <= pi < d.recipe_at(src).products@.len() implies outgoing_exists(
        ls2,
        src,
        (#[trigger] d.recipe_at(src).products@[pi]).item@,
    ) by {
        lemma_outgoing_extend(ls1, ls2, src, d.recipe_at(src).products@[pi].item@);
    }
}

/// The constraint is the (ii, pi) stoichiometric balance of the production
/// node at link `k`'s source.
pub open spec fn balance_row(
    d: GameData,
    ls: Seq<Link>,
    c: Constraint,
    k: int,
    ii: int,
    pi: int,
) -> bool {
    &&& 0 <= k < ls.len()
    &&& d.has_recipe(ls[k].source@)
    &&& 0 <= ii < d.recipe_at(ls[k].source@).ingredients@.len()
    &&& 0 <= pi < d.recipe_at(ls[k].source@).products@.len()
    &&& forall|a: Seq<i64>|
        #[trigger] satisfies(c, a) <==> pair_balanced(d, ls, ls[k].source@, ii, pi, a)
}

/// The constraint is, under every assignment, exactly some production
/// node's pair-balance equation.
pub open spec fn constraint_is_balance(d: GameData, ls: Seq<Link>, c: Constraint) -> bool {
    exists|k: int, ii: int, pi: int| #[trigger] balance_row(d, ls, c, k, ii, pi)
}

/// What the ingredient-expansion phase guarantees of the grown state:
/// structural validity, the entry links preserved as a prefix, constraints
/// untouched, and every new link pointing at a recipe node.
pub open spec fn grown_ok(
    d: GameData,
    dis: Set<Seq<char>>,
    entry_links: Seq<Link>,
    entry_vars: Seq<VarDef>,
    entry_cons: Seq<Constraint>,
    ls: Seq<Link>,
    m: Model,
) -> bool {
    &&& links_wf(ls, m.vars@.len() as int)
    &&& links_ok(d, dis, ls)
    &&& entry_links.len() <= ls.len()
    &&& forall|j: int| 0 <= j < entry_links.len() ==> ls[j] == entry_links[j]
    &&& entry_vars.len() <= m.vars@.len()
    &&& forall|vi: int| 0 <= vi < entry_vars.len() ==> m.vars@[vi] == entry_vars[vi]
    &&& m.constraints@ == entry_cons
    &&& forall|k: int|
        entry_links.len() <= k < ls.len() ==> d.has_recipe((#[trigger] ls[k]).destination@)
}

/// Looks up a configured resource by identifier.
fn get_resource(rs: &Vec<(String, Resource)>, id: &String) -> (r: Resource)
    requires
        res_listed(rs@, id@),
        forall|i: int, j: int|
            #![trigger rs@[i].0, rs@[j].0]
            0 <= i < j < rs@.len() ==> rs@[i].0@ != rs@[j].0@,
    ensures
        r == res_at(rs@, id@),
{
    let mut i: usize = 0;
    while i < rs.len()
        invariant
            0 <= i <= rs@.len(),
            forall|j: int| 0 <= j < i ==> rs@[j].0@ != id@,
            res_listed(rs@, id@),
            forall|a: int, b: int|
                #![trigger rs@[a].0, rs@[b].0]
                0 <= a < b < rs@.len() ==> rs@[a].0@ != rs@[b].0@,
        decreases rs@.len() - i,
    {
        if rs[i].0 == *id {
            proof {
                let k = res_index(rs@, id@);
                assert(rs@[k].0@ == id@);
                if k < i as int {
                    assert(rs@[k].0@ != rs@[i as int].0@);
                } else if (i as int) < k {
                    assert(rs@[i as int].0@ != rs@[k].0@);
                }
            }
            return rs[i].1;
        }
        i += 1;
    }
    proof {
        assert(false);
    }
    Resource { limit: None, weight: 0 }
}

impl Solver {
    /// Recursively expands a recipe's ingredients: a resource-bounded edge
    /// for each primitive ingredient, an unbounded edge from every allowed
    /// producer, and a recursive expansion of each producer the first time
    /// it appears as a source.  One call appends, into this node, at most
    /// one edge per (source, item) pair — with `ingredients_supplied`,
    /// exactly one resource edge per primitive ingredient and one per
    /// allowed producer — and every newly sourced recipe node comes out
    /// fully wired.
    fn add_variables(&self, recipe_id: &String, links: &mut LinkSet, model: &mut Model)
        requires
            self.wf(),
            self.data.has_recipe(recipe_id@),
            !self.disallowed_recipes@.contains(recipe_id@),
            has_source(old(links).links@, recipe_id@),
            links_wf(old(links).links@, old(model).vars@.len() as int),
            links_ok(self.data, self.disallowed_recipes@, old(links).links@),
        ensures
            grown_ok(
                self.data,
                self.disallowed_recipes@,
                old(links).links@,
                old(model).vars@,
                old(model).constraints@,
                final(links).links@,
                *final(model),
            ),
            links_priced(
                self.data,
                self.resources@,
                self.targets@,
                self.byproduct_coefficient,
                old(links).links@,
                old(model).vars@,
            ) ==> links_priced(
                self.data,
                self.resources@,
                self.targets@,
                self.byproduct_coefficient,
                final(links).links@,
                final(model).vars@,
            ),
            ingredients_supplied(
                self.data,
                self.disallowed_recipes@,
                self.resources@,
                final(links).links@,
                recipe_id@,
            ),
            forall|k: int|
                old(links).links@.len() <= k < final(links).links@.len() ==> (#[trigger] final(links).links@[k]).destination@ == recipe_id@ || !has_source(
                    old(links).links@,
                    final(links).links@[k].destination@,
                ),
            forall|k1: int, k2: int|
                #![trigger final(links).links@[k1], final(links).links@[k2]]
                old(links).links@.len() <= k1 < k2 < final(links).links@.len() && final(links).links@[k1].destination@ == recipe_id@ && final(links).links@[k2].destination@
                    == recipe_id@ ==> !(final(links).links@[k1].source@
                    == final(links).links@[k2].source@ && final(links).links@[k1].item@
                    == final(links).links@[k2].item@),
            forall|k: int|
                0 <= k < final(links).links@.len() && self.data.has_recipe(
                    (#[trigger] final(links).links@[k]).source@,
                ) && !has_source(old(links).links@, final(links).links@[k].source@)
                    ==> ingredients_supplied(
                    self.data,
                    self.disallowed_recipes@,
                    self.resources@,
                    final(links).links@,
                    final(links).links@[k].source@,
                ),
        decreases self.data.recipes@.len() - source_recipe_count(self.data, old(links).links@),
    {
        let ghost entry_links = links.links@;
        let ghost entry_vars = model.vars@;
        let ghost entry_cons = model.constraints@;
        let ghost priced0 = links_priced(
            self.data,
            self.resources@,
            self.targets@,
            self.byproduct_coefficient,
            entry_links,
            entry_vars,
        );
        let rec = self.data.get_recipe(recipe_id);
        let mut q: usize = 0;
        while q < rec.ingredients.len()
            invariant
                self.wf(),
                self.data.has_recipe(recipe_id@),
                *rec == self.data.recipe_at(recipe_id@),
                0 <= q <= rec.ingredients@.len(),
                entry_links == old(links).links@,
                entry_vars == old(model).vars@,
                entry_cons == old(model).constraints@,
                priced0 == links_priced(
                    self.data,
                    self.resources@,
                    self.targets@,
                    self.byproduct_coefficient,
                    entry_links,
                    entry_vars,
                ),
                grown_ok(
                    self.data,
                    self.disallowed_recipes@,
                    entry_links,
                    entry_vars,
                    entry_cons,
                    links.links@,
                    *model,
                ),
                priced0 ==> links_priced(
                    self.data,
                    self.resources@,
                    self.targets@,
                    self.byproduct_coefficient,
                    links.links@,
                    model.vars@,
                ),
                forall|q2: int|
                    0 <= q2 < q ==> ingredient_supplied(
                        self.data,
                        self.disallowed_recipes@,
                        self.resources@,
                        links.links@,
                        recipe_id@,
                        (#[trigger] rec.ingredients@[q2]).item@,
                    ),
                has_source(entry_links, recipe_id@),
                forall|k: int|
                    0 <= k < links.links@.len() && self.data.has_recipe(
                        (#[trigger] links.links@[k]).source@,
                    ) && !has_source(entry_links, links.links@[k].source@)
                        ==> ingredients_supplied(
                        self.data,
                        self.disallowed_recipes@,
                        self.resources@,
                        links.links@,
                        links.links@[k].source@,
                    ),
                forall|k: int|
                    entry_links.len() <= k < links.links@.len() ==> (#[trigger] links.links@[k]).destination@
                        == recipe_id@ || !has_source(entry_links, links.links@[k].destination@),
                forall|k: int|
                    entry_links.len() <= k < links.links@.len() && (#[trigger] links.links@[k]).destination@
                        == recipe_id@ ==> exists|q2: int|
                        0 <= q2 < q && links.links@[k].item@ == (#[trigger] rec.ingredients@[q2]).item@,
                forall|k1: int, k2: int|
                    #![trigger links.links@[k1], links.links@[k2]]
                    entry_links.len() <= k1 < k2 < links.links@.len()
                        && links.links@[k1].destination@ == recipe_id@
                        && links.links@[k2].destination@ == recipe_id@ ==> !(links.links@[k1].source@
                        == links.links@[k2].source@ && links.links@[k1].item@
                        == links.links@[k2].item@),
                source_recipe_count(self.data, entry_links) <= source_recipe_count(
                    self.data,
                    links.links@,
                ),
            decreases rec.ingredients@.len() - q,
        {
            proof {
                let ri = self.data.recipe_index(recipe_id@);
                assert(crate::data::quantities_ok(
                    self.data.recipes@[ri].ingredients@,
                    self.data.items@,
                ));
                assert(crate::data::quantities_distinct(self.data.recipes@[ri].ingredients@));
                assert(self.data.has_item(rec.ingredients@[q as int].item@));
                lemma_namespaces_disjoint(self.data, recipe_id@);
            }
            if resource_exists(&self.resources, &rec.ingredients[q].item) {
                let res = get_resource(&self.resources, &rec.ingredients[q].item);
                let ghost pre = links.links@;
                let ghost vpre = model.vars@;
                links.add_resource_variable(res, recipe_id, &rec.ingredients[q].item, model);
                proof {
                    assert(rec_has_ingredient(
                        self.data.recipe_at(recipe_id@),
                        links.links@.last().item@,
                    )) by {
                        assert(rec.ingredients@[q as int].item@ == links.links@.last().item@);
                    }
                    assert(link_ok(self.data, self.disallowed_recipes@, links.links@.last()));
                    assert forall|j: int|
                        0 <= j < links.links@.len() implies link_ok(
                        self.data,
                        self.disallowed_recipes@,
                        #[trigger] links.links@[j],
                    ) by {
                        if j < pre.len() {
                            assert(link_ok(self.data, self.disallowed_recipes@, pre[j]));
                        }
                    }
                    lemma_source_count_mono(self.data, pre, links.links@);
                    if priced0 {
                        lemma_priced_extend(
                            self.data,
                            self.resources@,
                            self.targets@,
                            self.byproduct_coefficient,
                            pre,
                            links.links@,
                            vpre,
                            model.vars@,
                        );
                        assert(link_priced(
                            self.data,
                            self.resources@,
                            self.targets@,
                            self.byproduct_coefficient,
                            links.links@,
                            model.vars@,
                            links.links@.len() - 1,
                        ));
                    }
                    assert forall|q2: int|
                        0 <= q2 < q implies ingredient_supplied(
                        self.data,
                        self.disallowed_recipes@,
                        self.resources@,
                        links.links@,
                        recipe_id@,
                        (#[trigger] rec.ingredients@[q2]).item@,
                    ) by {
                        lemma_supplied_extend(
                            self.data,
                            self.disallowed_recipes@,
                            self.resources@,
                            pre,
                            links.links@,
                            recipe_id@,
                            rec.ingredients@[q2].item@,
                        );
                    }
                    assert(edge_exists(
                        links.links@,
                        rec.ingredients@[q as int].item@,
                        recipe_id@,
                        rec.ingredients@[q as int].item@,
                    )) by {
                        assert(links.links@.last().source@ == rec.ingredients@[q as int].item@);
                    }
                    assert forall|k: int|
                        entry_links.len() <= k < links.links@.len() implies ((
                        #[trigger] links.links@[k]).destination@ == recipe_id@ || !has_source(
                        entry_links,
                        links.links@[k].destination@,
                    )) by {
                        if k < pre.len() {
                            assert(links.links@[k] == pre[k]);
                        } else {
                            assert(links.links@[k].destination@ == recipe_id@);
                        }
                    }
                    assert forall|k1: int, k2: int|
                        #![trigger links.links@[k1], links.links@[k2]]
                        entry_links.len() <= k1 < k2 < links.links@.len()
                            && links.links@[k1].destination@ == recipe_id@
                            && links.links@[k2].destination@ == recipe_id@
                            implies !(links.links@[k1].source@ == links.links@[k2].source@
                            && links.links@[k1].item@ == links.links@[k2].item@) by {
                        if k2 < pre.len() {
                            assert(links.links@[k1] == pre[k1] && links.links@[k2] == pre[k2]);
                        } else {
                            assert(links.links@[k1] == pre[k1]);
                            let q2 = choose|q2: int|
                                0 <= q2 < q && pre[k1].item@ == (#[trigger] rec.ingredients@[q2]).item@;
                            assert(rec.ingredients@[q2].item@
                                != rec.ingredients@[q as int].item@);
                        }
                    }
                    assert forall|k: int|
                        0 <= k < links.links@.len() && self.data.has_recipe(
                            (#[trigger] links.links@[k]).source@,
                        ) && !has_source(entry_links, links.links@[k].source@)
                            implies ingredients_supplied(
                        self.data,
                        self.disallowed_recipes@,
                        self.resources@,
                        links.links@,
                        links.links@[k].source@,
                    ) by {
                        if k < pre.len() {
                            assert(links.links@[k] == pre[k]);
                            lemma_all_supplied_extend(
                                self.data,
                                self.disallowed_recipes@,
                                self.resources@,
                                pre,
                                links.links@,
                                links.links@[k].source@,
                            );
                        } else {
                            // an item-node source is no recipe
                            lemma_namespaces_disjoint(self.data, links.links@[k].source@);
                            assert(false);
                        }
                    }
                }
            }
            let creators = self.data.get_item_creators(
                &rec.ingredients[q].item,
                &self.disallowed_recipes,
            );
            let mut c: usize = 0;
            while c < creators.len()
                invariant
                    self.wf(),
                    self.data.has_recipe(recipe_id@),
                    *rec == self.data.recipe_at(recipe_id@),
                    0 <= q < rec.ingredients@.len(),
                    self.data.has_item(rec.ingredients@[q as int].item@),
                    0 <= c <= creators@.len(),
                    forall|k: int|
                        0 <= k < creators@.len() ==> crate::data::creator_witness(
                            self.data,
                            self.disallowed_recipes@,
                            rec.ingredients@[q as int].item@,
                            (#[trigger] creators@[k])@,
                        ),
                    entry_links == old(links).links@,
                    entry_vars == old(model).vars@,
                    entry_cons == old(model).constraints@,
                    priced0 == links_priced(
                        self.data,
                        self.resources@,
                        self.targets@,
                        self.byproduct_coefficient,
                        entry_links,
                        entry_vars,
                    ),
                    grown_ok(
                        self.data,
                        self.disallowed_recipes@,
                        entry_links,
                        entry_vars,
                        entry_cons,
                        links.links@,
                        *model,
                    ),
                    priced0 ==> links_priced(
                        self.data,
                        self.resources@,
                        self.targets@,
                        self.byproduct_coefficient,
                        links.links@,
                        model.vars@,
                    ),
                    forall|q2: int|
                        0 <= q2 < q ==> ingredient_supplied(
                            self.data,
                            self.disallowed_recipes@,
                            self.resources@,
                            links.links@,
                            recipe_id@,
                            (#[trigger] rec.ingredients@[q2]).item@,
                        ),
                    res_listed(self.resources@, rec.ingredients@[q as int].item@) ==> edge_exists(
                        links.links@,
                        rec.ingredients@[q as int].item@,
                        recipe_id@,
                        rec.ingredients@[q as int].item@,
                    ),
                    forall|c2: int|
                        0 <= c2 < c ==> edge_exists(
                            links.links@,
                            (#[trigger] creators@[c2])@,
                            recipe_id@,
                            rec.ingredients@[q as int].item@,
                        ),
                    has_source(entry_links, recipe_id@),
                    forall|k: int|
                        0 <= k < links.links@.len() && self.data.has_recipe(
                            (#[trigger] links.links@[k]).source@,
                        ) && !has_source(entry_links, links.links@[k].source@)
                            ==> ingredients_supplied(
                            self.data,
                            self.disallowed_recipes@,
                            self.resources@,
                            links.links@,
                            links.links@[k].source@,
                        ),
                    crate::data::quantities_distinct(rec.ingredients@),
                    forall|p2: int, q2: int|
                        #![trigger creators@[p2], creators@[q2]]
                        0 <= p2 < q2 < creators@.len() ==> creators@[p2]@ != creators@[q2]@,
                    forall|k: int|
                        entry_links.len() <= k < links.links@.len() ==> (#[trigger] links.links@[k]).destination@
                            == recipe_id@ || !has_source(
                            entry_links,
                            links.links@[k].destination@,
                        ),
                    forall|k: int|
                        entry_links.len() <= k < links.links@.len() && (#[trigger] links.links@[k]).destination@
                            == recipe_id@ ==> (exists|q2: int|
                            0 <= q2 < q && links.links@[k].item@ == (#[trigger] rec.ingredients@[q2]).item@)
                            || (links.links@[k].item@ == rec.ingredients@[q as int].item@ && (
                            links.links@[k].source@ == rec.ingredients@[q as int].item@
                                || exists|c2: int|
                                0 <= c2 < c && links.links@[k].source@
                                    == (#[trigger] creators@[c2])@)),
                    forall|k1: int, k2: int|
                        #![trigger links.links@[k1], links.links@[k2]]
                        entry_links.len() <= k1 < k2 < links.links@.len()
                            && links.links@[k1].destination@ == recipe_id@
                            && links.links@[k2].destination@ == recipe_id@
                            ==> !(links.links@[k1].source@ == links.links@[k2].source@
                            && links.links@[k1].item@ == links.links@[k2].item@),
                    source_recipe_count(self.data, entry_links) <= source_recipe_count(
                        self.data,
                        links.links@,
                    ),
                decreases creators@.len() - c,
            {
                let exists_src = links.contains_source(&creators[c]);
                let ghost pre = links.links@;
                let ghost vpre = model.vars@;
                links.add_simple_variable(&creators[c], recipe_id, &rec.ingredients[q].item, model);
                proof {
                    assert(crate::data::creator_witness(
                        self.data,
                        self.disallowed_recipes@,
                        rec.ingredients@[q as int].item@,
                        creators@[c as int]@,
                    ));
                    assert(self.data.has_recipe(links.links@.last().source@)
                        && !self.disallowed_recipes@.contains(links.links@.last().source@));
                    assert(rec_has_product(
                        self.data.recipe_at(links.links@.last().source@),
                        links.links@.last().item@,
                    )) by {
                        let src2 = links.links@.last().source@;
                        let j = choose|j: int|
                            0 <= j < self.data.recipes@.len() && (#[trigger] self.data.recipes@[j]).class_name@
                                == src2 && !self.disallowed_recipes@.contains(src2)
                                && rec_has_product(
                                self.data.recipes@[j],
                                rec.ingredients@[q as int].item@,
                            );
                        let ri = self.data.recipe_index(src2);
                        assert(self.data.recipes@[ri].class_name@ == src2);
                        if j != ri {
                            assert(self.data.recipes@[j].class_name@
                                != self.data.recipes@[ri].class_name@ || self.data.recipes@[ri].class_name@
                                != self.data.recipes@[j].class_name@);
                            assert(false);
                        }
                    }
                    assert(rec_has_ingredient(
                        self.data.recipe_at(recipe_id@),
                        links.links@.last().item@,
                    )) by {
                        assert(rec.ingredients@[q as int].item@ == links.links@.last().item@);
                    }
                    assert(link_ok(self.data, self.disallowed_recipes@, links.links@.last()));
                    assert forall|j: int|
                        0 <= j < links.links@.len() implies link_ok(
                        self.data,
                        self.disallowed_recipes@,
                        #[trigger] links.links@[j],
                    ) by {
                        if j < pre.len() {
                            assert(link_ok(self.data, self.disallowed_recipes@, pre[j]));
                        }
                    }
                    lemma_source_count_mono(self.data, pre, links.links@);
                    lemma_namespaces_disjoint(self.data, links.links@.last().source@);
                    assert forall|q2: int|
                        0 <= q2 < q implies ingredient_supplied(
                        self.data,
                        self.disallowed_recipes@,
                        self.resources@,
                        links.links@,
                        recipe_id@,
                        (#[trigger] rec.ingredients@[q2]).item@,
                    ) by {
                        lemma_supplied_extend(
                            self.data,
                            self.disallowed_recipes@,
                            self.resources@,
                            pre,
                            links.links@,
                            recipe_id@,
                            rec.ingredients@[q2].item@,
                        );
                    }
                    if res_listed(self.resources@, rec.ingredients@[q as int].item@) {
                        lemma_edge_exists_extend(
                            pre,
                            links.links@,
                            rec.ingredients@[q as int].item@,
                            recipe_id@,
                            rec.ingredients@[q as int].item@,
                        );
                    }
                    assert forall|c2: int|
                        0 <= c2 < c + 1 implies edge_exists(
                        links.links@,
                        (#[trigger] creators@[c2])@,
                        recipe_id@,
                        rec.ingredients@[q as int].item@,
                    ) by {
                        if c2 < c as int {
                            lemma_edge_exists_extend(
                                pre,
                                links.links@,
                                creators@[c2]@,
                                recipe_id@,
                                rec.ingredients@[q as int].item@,
                            );
                        } else {
                            assert(links.links@.last().source@ == creators@[c2]@);
                        }
                    }
                    assert forall|k: int|
                        entry_links.len() <= k < links.links@.len() implies ((
                        #[trigger] links.links@[k]).destination@ == recipe_id@ || !has_source(
                        entry_links,
                        links.links@[k].destination@,
                    )) by {
                        if k < pre.len() {
                            assert(links.links@[k] == pre[k]);
                        } else {
                            assert(links.links@[k].destination@ == recipe_id@);
                        }
                    }
                    assert forall|k1: int, k2: int|
                        #![trigger links.links@[k1], links.links@[k2]]
                        entry_links.len() <= k1 < k2 < links.links@.len()
                            && links.links@[k1].destination@ == recipe_id@
                            && links.links@[k2].destination@ == recipe_id@
                            implies !(links.links@[k1].source@ == links.links@[k2].source@
                            && links.links@[k1].item@ == links.links@[k2].item@) by {
                        if k2 < pre.len() {
                            assert(links.links@[k1] == pre[k1] && links.links@[k2] == pre[k2]);
                        } else {
                            assert(links.links@[k1] == pre[k1]);
                            assert(links.links@[k2].source@ == creators@[c as int]@);
                            if pre[k1].item@ == rec.ingredients@[q as int].item@ {
                                if pre[k1].source@ == rec.ingredients@[q as int].item@ {
                                    // an item-node source can never be a recipe id
                                    assert(crate::data::creator_witness(
                                        self.data,
                                        self.disallowed_recipes@,
                                        rec.ingredients@[q as int].item@,
                                        creators@[c as int]@,
                                    ));
                                    assert(self.data.has_recipe(creators@[c as int]@));
                                    lemma_namespaces_disjoint(self.data, creators@[c as int]@);
                                } else {
                                    let c2 = choose|c2: int|
                                        0 <= c2 < c && pre[k1].source@
                                            == (#[trigger] creators@[c2])@;
                                    assert(creators@[c2]@ != creators@[c as int]@);
                                }
                            } else {
                                let q2 = choose|q2: int|
                                    0 <= q2 < q && pre[k1].item@
                                        == (#[trigger] rec.ingredients@[q2]).item@;
                                assert(rec.ingredients@[q2].item@
                                    != rec.ingredients@[q as int].item@);
                            }
                        }
                    }
                    if exists_src {
                    assert forall|k: int|
                        0 <= k < links.links@.len() && self.data.has_recipe(
                            (#[trigger] links.links@[k]).source@,
                        ) && !has_source(entry_links, links.links@[k].source@)
                            implies ingredients_supplied(
                        self.data,
                        self.disallowed_recipes@,
                        self.resources@,
                        links.links@,
                        links.links@[k].source@,
                    ) by {
                            if k < pre.len() {
                                assert(links.links@[k] == pre[k]);
                                lemma_all_supplied_extend(
                                    self.data,
                                    self.disallowed_recipes@,
                                    self.resources@,
                                    pre,
                                    links.links@,
                                    links.links@[k].source@,
                                );
                            } else {
                                // the producer was already a source, so it was
                                // wired when it first appeared
                                let kp = choose|kp: int|
                                    0 <= kp < pre.len() && pre[kp].source@
                                        == creators@[c as int]@;
                                assert(ingredients_supplied(
                                    self.data,
                                    self.disallowed_recipes@,
                                    self.resources@,
                                    pre,
                                    pre[kp].source@,
                                ));
                                lemma_all_supplied_extend(
                                    self.data,
                                    self.disallowed_recipes@,
                                    self.resources@,
                                    pre,
                                    links.links@,
                                    links.links@[k].source@,
                                );
                            }
                        }
                    }
                    if priced0 {
                        lemma_priced_extend(
                            self.data,
                            self.resources@,
                            self.targets@,
                            self.byproduct_coefficient,
                            pre,
                            links.links@,
                            vpre,
                            model.vars@,
                        );
                        assert(link_priced(
                            self.data,
                            self.resources@,
                            self.targets@,
                            self.byproduct_coefficient,
                            links.links@,
                            model.vars@,
                            links.links@.len() - 1,
                        ));
                    }
                }
                if !exists_src {
                    let ghost pre2 = links.links@;
                    let ghost vpre2 = model.vars@;
                    proof {
                        // the newly linked producer was not yet a source, so
                        // the count of source recipes strictly grew
                        let p1 = |r: Recipe| has_source(links.links@, r.class_name@);
                        let p2 = |r: Recipe| has_source(pre, r.class_name@);
                        assert forall|x: Recipe| #[trigger] p2(x) implies p1(x) by {
                            if has_source(pre, x.class_name@) {
                                let k = choose|k: int|
                                    0 <= k < pre.len() && pre[k].source@ == x.class_name@;
                                assert(links.links@[k].source@ == x.class_name@);
                            }
                        }
                        let cj = self.data.recipe_index(creators@[c as int]@);
                        assert(links.links@.last().source@
                            == self.data.recipes@[cj].class_name@);
                        assert(p1(self.data.recipes@[cj]));
                        assert(!p2(self.data.recipes@[cj]));
                        lemma_filter_strict(self.data.recipes@, p1, p2, cj);
                        lemma_filter_le(
                            self.data.recipes@,
                            |r: Recipe| has_source(links.links@, r.class_name@),
                        );
                        assert(source_recipe_count(self.data, links.links@)
                            > source_recipe_count(self.data, entry_links));
                        assert(has_source(links.links@, creators@[c as int]@)) by {
                            assert(links.links@.last().source@ == creators@[c as int]@);
                        }
                        // the producer was no source at this call's entry
                        assert(!has_source(entry_links, creators@[c as int]@)) by {
                            if has_source(entry_links, creators@[c as int]@) {
                                lemma_has_source_extend(entry_links, pre, creators@[c as int]@);
                            }
                        }
                    }
                    self.add_variables(&creators[c], links, model);
                    proof {
                        if priced0 {
                            assert(links_priced(
                                self.data,
                                self.resources@,
                                self.targets@,
                                self.byproduct_coefficient,
                                pre2,
                                vpre2,
                            ));
                            assert(links_priced(
                                self.data,
                                self.resources@,
                                self.targets@,
                                self.byproduct_coefficient,
                                links.links@,
                                model.vars@,
                            ));
                        }
                        assert forall|j: int|
                            0 <= j < entry_links.len() implies links.links@[j] == entry_links[j]
                            by {
                            assert(links.links@[j] == pre2[j]);
                        }
                        assert forall|vi: int|
                            0 <= vi < entry_vars.len() implies model.vars@[vi] == entry_vars[vi]
                            by {
                            assert(model.vars@[vi] == vpre2[vi]);
                        }
                        assert forall|q2: int|
                            0 <= q2 < q implies ingredient_supplied(
                            self.data,
                            self.disallowed_recipes@,
                            self.resources@,
                            links.links@,
                            recipe_id@,
                            (#[trigger] rec.ingredients@[q2]).item@,
                        ) by {
                            lemma_supplied_extend(
                                self.data,
                                self.disallowed_recipes@,
                                self.resources@,
                                pre2,
                                links.links@,
                                recipe_id@,
                                rec.ingredients@[q2].item@,
                            );
                        }
                        if res_listed(self.resources@, rec.ingredients@[q as int].item@) {
                            lemma_edge_exists_extend(
                                pre2,
                                links.links@,
                                rec.ingredients@[q as int].item@,
                                recipe_id@,
                                rec.ingredients@[q as int].item@,
                            );
                        }
                        assert forall|c2: int|
                            0 <= c2 < c + 1 implies edge_exists(
                            links.links@,
                            (#[trigger] creators@[c2])@,
                            recipe_id@,
                            rec.ingredients@[q as int].item@,
                        ) by {
                            lemma_edge_exists_extend(
                                pre2,
                                links.links@,
                                creators@[c2]@,
                                recipe_id@,
                                rec.ingredients@[q as int].item@,
                            );
                        }
                        // the recursion touches no edge into this node: its
                        // additions point at recipes with no source yet
                        assert forall|k: int|
                            pre2.len() <= k < links.links@.len() implies !((
                            #[trigger] links.links@[k]).destination@ == recipe_id@) && (
                        links.links@[k].destination@ == recipe_id@ || !has_source(
                            entry_links,
                            links.links@[k].destination@,
                        )) by {
                            assert(links.links@[k].destination@ == creators@[c as int]@
                                || !has_source(pre2, links.links@[k].destination@));
                            if links.links@[k].destination@ == creators@[c as int]@ {
                                assert(!has_source(entry_links, creators@[c as int]@));
                                assert(has_source(entry_links, recipe_id@));
                                assert(links.links@[k].destination@ != recipe_id@);
                            } else {
                                if has_source(entry_links, links.links@[k].destination@) {
                                    lemma_has_source_extend(
                                        entry_links,
                                        pre2,
                                        links.links@[k].destination@,
                                    );
                                }
                                assert(has_source(pre2, recipe_id@)) by {
                                    lemma_has_source_extend(entry_links, pre2, recipe_id@);
                                }
                                assert(links.links@[k].destination@ != recipe_id@);
                            }
                        }
                        assert forall|k: int|
                            entry_links.len() <= k < links.links@.len() implies ((
                            #[trigger] links.links@[k]).destination@ == recipe_id@
                            || !has_source(entry_links, links.links@[k].destination@)) by {
                            if k < pre2.len() {
                                assert(links.links@[k] == pre2[k]);
                            }
                        }
                        assert forall|k1: int, k2: int|
                            #![trigger links.links@[k1], links.links@[k2]]
                            entry_links.len() <= k1 < k2 < links.links@.len()
                                && links.links@[k1].destination@ == recipe_id@
                                && links.links@[k2].destination@ == recipe_id@
                                implies !(links.links@[k1].source@ == links.links@[k2].source@
                                && links.links@[k1].item@ == links.links@[k2].item@) by {
                            assert(k2 < pre2.len());
                            assert(links.links@[k1] == pre2[k1]
                                && links.links@[k2] == pre2[k2]);
                        }
                        assert forall|k: int|
                            0 <= k < links.links@.len() && self.data.has_recipe(
                                (#[trigger] links.links@[k]).source@,
                            ) && !has_source(entry_links, links.links@[k].source@)
                                implies ingredients_supplied(
                            self.data,
                            self.disallowed_recipes@,
                            self.resources@,
                            links.links@,
                            links.links@[k].source@,
                        ) by {
                            if links.links@[k].source@ == creators@[c as int]@ {
                                // the newly expanded producer is fully wired
                                assert(ingredients_supplied(
                                    self.data,
                                    self.disallowed_recipes@,
                                    self.resources@,
                                    links.links@,
                                    creators@[c as int]@,
                                ));
                            } else if k < pre.len() {
                                assert(links.links@[k] == pre[k]);
                                lemma_all_supplied_extend(
                                    self.data,
                                    self.disallowed_recipes@,
                                    self.resources@,
                                    pre,
                                    links.links@,
                                    links.links@[k].source@,
                                );
                            } else if k < pre2.len() {
                                assert(links.links@[k] == pre2[k]);
                                assert(links.links@[k].source@ == creators@[c as int]@);
                                assert(false);
                            } else {
                                // a node first sourced inside the recursion was
                                // wired there; one sourced earlier was wired before
                                if has_source(pre2, links.links@[k].source@) {
                                    let kp = choose|kp: int|
                                        0 <= kp < pre2.len() && pre2[kp].source@
                                            == links.links@[k].source@;
                                    if kp < pre.len() {
                                        assert(pre[kp].source@ == links.links@[k].source@);
                                        assert(ingredients_supplied(
                                            self.data,
                                            self.disallowed_recipes@,
                                            self.resources@,
                                            pre,
                                            pre[kp].source@,
                                        ));
                                        lemma_all_supplied_extend(
                                            self.data,
                                            self.disallowed_recipes@,
                                            self.resources@,
                                            pre,
                                            links.links@,
                                            links.links@[k].source@,
                                        );
                                    } else {
                                        assert(pre2[kp].source@ == creators@[c as int]@);
                                        assert(false);
                                    }
                                } else {
                                    assert(ingredients_supplied(
                                        self.data,
                                        self.disallowed_recipes@,
                                        self.resources@,
                                        links.links@,
                                        links.links@[k].source@,
                                    ));
                                }
                            }
                        }
                        assert forall|k: int|
                            entry_links.len() <= k < links.links@.len() implies self.data.has_recipe(
                            (#[trigger] links.links@[k]).destination@,
                        ) by {
                            if k < pre2.len() {
                                assert(links.links@[k] == pre2[k]);
                            }
                        }
                        lemma_source_count_mono(self.data, pre2, links.links@);
                    }
                }
                c += 1;
            }
            proof {
                // every allowed producer of this ingredient is among the
                // creators, so each now has its supply edge
                let ing = rec.ingredients@[q as int].item@;
                assert forall|j: int|
                    0 <= j < self.data.recipes@.len() && !self.disallowed_recipes@.contains(
                        (#[trigger] self.data.recipes@[j]).class_name@,
                    ) && rec_has_product(self.data.recipes@[j], ing) implies edge_exists(
                    links.links@,
                    self.data.recipes@[j].class_name@,
                    recipe_id@,
                    ing,
                ) by {
                    let pred = |r2: Recipe| !self.disallowed_recipes@.contains(r2.class_name@)
                        && rec_has_product(r2, ing);
                    let f = self.data.recipes@.filter(pred);
                    self.data.recipes@.lemma_filter_contains(pred, j);
                    let fi = choose|fi: int| 0 <= fi < f.len() && f[fi] == self.data.recipes@[j];
                    assert(creators@[fi] == f[fi].class_name);
                    assert(edge_exists(links.links@, creators@[fi]@, recipe_id@, ing));
                }
                assert(ingredient_supplied(
                    self.data,
                    self.disallowed_recipes@,
                    self.resources@,
                    links.links@,
                    recipe_id@,
                    ing,
                ));
                assert forall|k: int|
                    entry_links.len() <= k < links.links@.len() && (#[trigger] links.links@[k]).destination@
                        == recipe_id@ implies exists|q2: int|
                    0 <= q2 < q + 1 && links.links@[k].item@
                        == (#[trigger] rec.ingredients@[q2]).item@ by {
                    if exists|q2: int|
                        0 <= q2 < q && links.links@[k].item@
                            == (#[trigger] rec.ingredients@[q2]).item@ {
                        let q2 = choose|q2: int|
                            0 <= q2 < q && links.links@[k].item@
                                == (#[trigger] rec.ingredients@[q2]).item@;
                        assert(links.links@[k].item@ == rec.ingredients@[q2].item@);
                    } else {
                        assert(links.links@[k].item@ == rec.ingredients@[q as int].item@);
                    }
                }
            }
            q += 1;
        }
        proof {
            assert forall|q2: int|
                0 <= q2 < self.data.recipe_at(recipe_id@).ingredients@.len()
                    implies ingredient_supplied(
                self.data,
                self.disallowed_recipes@,
                self.resources@,
                links.links@,
                recipe_id@,
                (#[trigger] self.data.recipe_at(recipe_id@).ingredients@[q2]).item@,
            ) by {
                assert(ingredient_supplied(
                    self.data,
                    self.disallowed_recipes@,
                    self.resources@,
                    links.links@,
                    recipe_id@,
                    rec.ingredients@[q2].item@,
                ));
            }
        }
    }

    /// Adds a heavily weighted byproduct-sink edge for every product of an
    /// active production node that no downstream consumer claimed.  Leaves
    /// the inflow of every requested target untouched.
    fn add_byproducts(&self, links: &mut LinkSet, model: &mut Model)
        requires
            self.wf(),
            targets_valid(self.data, self.targets@),
            links_wf(old(links).links@, old(model).vars@.len() as int),
            links_ok(self.data, self.disallowed_recipes@, old(links).links@),
            forall|ti: int|
                0 <= ti < self.targets@.len() ==> target_covered(
                    self.data,
                    self.disallowed_recipes@,
                    old(links).links@,
                    (#[trigger] self.targets@[ti]).0@,
                ),
            links_priced(
                self.data,
                self.resources@,
                self.targets@,
                self.byproduct_coefficient,
                old(links).links@,
                old(model).vars@,
            ),
        ensures
            links_wf(final(links).links@, final(model).vars@.len() as int),
            links_ok(self.data, self.disallowed_recipes@, final(links).links@),
            old(links).links@.len() <= final(links).links@.len(),
            forall|j: int|
                0 <= j < old(links).links@.len() ==> final(links).links@[j]
                    == old(links).links@[j],
            old(model).vars@.len() <= final(model).vars@.len(),
            forall|vi: int|
                0 <= vi < old(model).vars@.len() ==> final(model).vars@[vi]
                    == old(model).vars@[vi],
            links_priced(
                self.data,
                self.resources@,
                self.targets@,
                self.byproduct_coefficient,
                final(links).links@,
                final(model).vars@,
            ),
            products_covered(self.data, final(links).links@),
            forall|k: int|
                old(links).links@.len() <= k < final(links).links@.len() ==> #[trigger] source_among(
                    final(links).links@,
                    k,
                    old(links).links@.len() as int,
                ),
            final(model).constraints@ == old(model).constraints@,
            forall|ti: int|
                0 <= ti < self.targets@.len() ==> incoming_vars(
                    final(links).links@,
                    (#[trigger] self.targets@[ti]).0@,
                    self.targets@[ti].0@,
                ) == incoming_vars(
                    old(links).links@,
                    self.targets@[ti].0@,
                    self.targets@[ti].0@,
                ),
    {
        let n0 = links.links.len();
        let mut i: usize = 0;
        while i < n0
            invariant
                self.wf(),
                targets_valid(self.data, self.targets@),
                n0 == old(links).links@.len(),
                0 <= i <= n0,
                links_wf(links.links@, model.vars@.len() as int),
                links_ok(self.data, self.disallowed_recipes@, links.links@),
                n0 <= links.links@.len(),
                forall|j: int| 0 <= j < n0 ==> links.links@[j] == old(links).links@[j],
                old(model).vars@.len() <= model.vars@.len(),
                forall|vi: int|
                    0 <= vi < old(model).vars@.len() ==> model.vars@[vi] == old(model).vars@[vi],
                links_priced(
                    self.data,
                    self.resources@,
                    self.targets@,
                    self.byproduct_coefficient,
                    links.links@,
                    model.vars@,
                ),
                model.constraints@ == old(model).constraints@,
                forall|ti: int|
                    0 <= ti < self.targets@.len() ==> target_covered(
                        self.data,
                        self.disallowed_recipes@,
                        links.links@,
                        (#[trigger] self.targets@[ti]).0@,
                    ),
                forall|ti: int|
                    0 <= ti < self.targets@.len() ==> incoming_vars(
                        links.links@,
                        (#[trigger] self.targets@[ti]).0@,
                        self.targets@[ti].0@,
                    ) == incoming_vars(
                        old(links).links@,
                        self.targets@[ti].0@,
                        self.targets@[ti].0@,
                    ),
                forall|k: int|
                    0 <= k < i && self.data.has_recipe((#[trigger] links.links@[k]).source@)
                        ==> source_covered(self.data, links.links@, links.links@[k].source@),
                forall|k: int|
                    n0 <= k < links.links@.len() ==> exists|k2: int|
                        0 <= k2 < i && (#[trigger] links.links@[k]).source@
                            == links.links@[k2].source@,
            decreases n0 - i,
        {
            let src = links.links[i].source.clone();
            let is_item = self.data.contains_item(&src);
            let mut dup = false;
            let mut j: usize = 0;
            while j < i
                invariant
                    0 <= j <= i <= links.links@.len(),
                    src == links.links@[i as int].source,
                    dup ==> exists|j2: int|
                        0 <= j2 < i && (#[trigger] links.links@[j2]).source@ == src@,
                decreases i - j,
            {
                if links.links[j].source == src {
                    dup = true;
                }
                j += 1;
            }
            if !is_item && !dup {
                proof {
                    assert(link_ok(
                        self.data,
                        self.disallowed_recipes@,
                        links.links@[i as int],
                    ));
                    assert(self.data.has_recipe(src@));
                    assert(!self.disallowed_recipes@.contains(src@));
                }
                let products = self.data.get_products(&src);
                let mut pi: usize = 0;
                while pi < products.len()
                    invariant
                        self.wf(),
                        targets_valid(self.data, self.targets@),
                        self.data.has_recipe(src@),
                        !self.disallowed_recipes@.contains(src@),
                        products@ == self.data.recipe_at(src@).products@.map_values(
                            |iq: ItemQuantity| iq.item,
                        ),
                        0 <= pi <= products@.len(),
                        n0 == old(links).links@.len(),
                        links_wf(links.links@, model.vars@.len() as int),
                        links_ok(self.data, self.disallowed_recipes@, links.links@),
                        n0 <= links.links@.len(),
                        forall|j2: int| 0 <= j2 < n0 ==> links.links@[j2] == old(links).links@[j2],
                        0 <= i < n0,
                        src == links.links@[i as int].source,
                        old(model).vars@.len() <= model.vars@.len(),
                        forall|vi: int|
                            0 <= vi < old(model).vars@.len() ==> model.vars@[vi] == old(
                                model,
                            ).vars@[vi],
                        links_priced(
                            self.data,
                            self.resources@,
                            self.targets@,
                            self.byproduct_coefficient,
                            links.links@,
                            model.vars@,
                        ),
                        model.constraints@ == old(model).constraints@,
                        forall|k: int|
                            0 <= k < i && self.data.has_recipe(
                                (#[trigger] links.links@[k]).source@,
                            ) ==> source_covered(self.data, links.links@, links.links@[k].source@),
                        forall|k: int|
                            n0 <= k < links.links@.len() ==> exists|k2: int|
                                0 <= k2 <= i && (#[trigger] links.links@[k]).source@
                                    == links.links@[k2].source@,
                        forall|p2: int|
                            0 <= p2 < pi ==> outgoing_exists(
                                links.links@,
                                src@,
                                (#[trigger] products@[p2])@,
                            ),
                        forall|ti: int|
                            0 <= ti < self.targets@.len() ==> target_covered(
                                self.data,
                                self.disallowed_recipes@,
                                links.links@,
                                (#[trigger] self.targets@[ti]).0@,
                            ),
                        forall|ti: int|
                            0 <= ti < self.targets@.len() ==> incoming_vars(
                                links.links@,
                                (#[trigger] self.targets@[ti]).0@,
                                self.targets@[ti].0@,
                            ) == incoming_vars(
                                old(links).links@,
                                self.targets@[ti].0@,
                                self.targets@[ti].0@,
                            ),
                    decreases products@.len() - pi,
                {
                    proof {
                        let ri = self.data.recipe_index(src@);
                        assert(crate::data::quantities_ok(
                            self.data.recipes@[ri].products@,
                            self.data.items@,
                        ));
                        assert(products@[pi as int] == self.data.recipes@[ri].products@[pi as int].item);
                        assert(self.data.has_item(products@[pi as int]@));
                        assert(rec_has_product(self.data.recipes@[ri], products@[pi as int]@));
                    }
                    let consumed = links.has_outgoing_item(&src, &products[pi]);
                    if !consumed {
                        proof {
                            // an unconsumed product is never a requested
                            // target: every allowed producer of a target
                            // already has an outgoing edge of it
                            assert forall|ti: int|
                                0 <= ti < self.targets@.len() implies products@[pi as int]@
                                != (#[trigger] self.targets@[ti]).0@ by {
                                if products@[pi as int]@ == self.targets@[ti].0@ {
                                    let t = self.targets@[ti].0@;
                                    let ri = self.data.recipe_index(src@);
                                    assert(target_covered(
                                        self.data,
                                        self.disallowed_recipes@,
                                        links.links@,
                                        t,
                                    ));
                                    assert(rec_has_product(self.data.recipes@[ri], t));
                                    let k = choose|k: int|
                                        0 <= k < links.links@.len()
                                            && (#[trigger] links.links@[k]).source@
                                            == self.data.recipes@[ri].class_name@
                                            && links.links@[k].destination@ == t
                                            && links.links@[k].item@ == t;
                                    assert(links.links@[k].source@ == src@
                                        && links.links@[k].item@ == products@[pi as int]@);
                                    assert(false);
                                }
                            }
                        }
                        let ghost pre = links.links@;
                        let ghost vpre = model.vars@;
                        links.add_weighted_variable(
                            &src,
                            &products[pi],
                            &products[pi],
                            self.byproduct_coefficient,
                            model,
                        );
                        proof {
                            assert(rec_has_product(
                                self.data.recipe_at(src@),
                                links.links@.last().item@,
                            )) by {
                                let ri = self.data.recipe_index(src@);
                                assert(rec_has_product(
                                    self.data.recipes@[ri],
                                    products@[pi as int]@,
                                ));
                            }
                            assert(link_ok(
                                self.data,
                                self.disallowed_recipes@,
                                links.links@.last(),
                            ));
                            lemma_priced_extend(
                                self.data,
                                self.resources@,
                                self.targets@,
                                self.byproduct_coefficient,
                                pre,
                                links.links@,
                                vpre,
                                model.vars@,
                            );
                            lemma_namespaces_disjoint(self.data, src@);
                            assert(!target_listed(self.targets@, products@[pi as int]@)) by {
                                if target_listed(self.targets@, products@[pi as int]@) {
                                    let ti = choose|ti: int|
                                        0 <= ti < self.targets@.len()
                                            && (#[trigger] self.targets@[ti]).0@
                                            == products@[pi as int]@;
                                    assert(products@[pi as int]@ != self.targets@[ti].0@);
                                }
                            }
                            assert(link_priced(
                                self.data,
                                self.resources@,
                                self.targets@,
                                self.byproduct_coefficient,
                                links.links@,
                                model.vars@,
                                links.links@.len() - 1,
                            ));
                            assert forall|k: int|
                                0 <= k < i && self.data.has_recipe(
                                    (#[trigger] links.links@[k]).source@,
                                ) implies source_covered(
                                self.data,
                                links.links@,
                                links.links@[k].source@,
                            ) by {
                                lemma_source_covered_extend(
                                    self.data,
                                    pre,
                                    links.links@,
                                    links.links@[k].source@,
                                );
                            }
                            assert forall|p2: int|
                                0 <= p2 < pi + 1 implies outgoing_exists(
                                links.links@,
                                src@,
                                (#[trigger] products@[p2])@,
                            ) by {
                                if p2 < pi as int {
                                    lemma_outgoing_extend(pre, links.links@, src@, products@[p2]@);
                                } else {
                                    assert(links.links@[links.links@.len() - 1].source@ == src@
                                        && links.links@[links.links@.len() - 1].item@
                                        == products@[p2]@);
                                }
                            }
                            assert forall|k: int|
                                n0 <= k < links.links@.len() implies exists|k2: int|
                                0 <= k2 <= i && (#[trigger] links.links@[k]).source@
                                    == links.links@[k2].source@ by {
                                if k < pre.len() {
                                    let k2 = choose|k2: int|
                                        0 <= k2 <= i && (#[trigger] pre[k]).source@
                                            == pre[k2].source@;
                                    assert(links.links@[k].source@ == links.links@[k2].source@);
                                } else {
                                    assert(links.links@[k].source@
                                        == links.links@[i as int].source@);
                                }
                            }
                            assert forall|j2: int|
                                0 <= j2 < links.links@.len() implies link_ok(
                                self.data,
                                self.disallowed_recipes@,
                                #[trigger] links.links@[j2],
                            ) by {
                                if j2 < pre.len() {
                                    assert(link_ok(self.data, self.disallowed_recipes@, pre[j2]));
                                }
                            }
                            assert forall|ti: int|
                                0 <= ti < self.targets@.len() implies target_covered(
                                self.data,
                                self.disallowed_recipes@,
                                links.links@,
                                (#[trigger] self.targets@[ti]).0@,
                            ) by {
                                lemma_covered_extend(
                                    self.data,
                                    self.disallowed_recipes@,
                                    pre,
                                    links.links@,
                                    self.targets@[ti].0@,
                                );
                            }
                            assert forall|ti: int|
                                0 <= ti < self.targets@.len() implies incoming_vars(
                                links.links@,
                                (#[trigger] self.targets@[ti]).0@,
                                self.targets@[ti].0@,
                            ) == incoming_vars(
                                old(links).links@,
                                self.targets@[ti].0@,
                                self.targets@[ti].0@,
                            ) by {
                                lemma_incoming_push(
                                    pre,
                                    links.links@.last(),
                                    self.targets@[ti].0@,
                                    self.targets@[ti].0@,
                                );
                                assert(links.links@ =~= pre.push(links.links@.last()));
                            }
                        }
                    }
                    pi += 1;
                }
                proof {
                    assert(source_covered(self.data, links.links@, src@)) by {
                        let rps = self.data.recipe_at(src@).products@;
                        assert forall|pp: int|
                            0 <= pp < rps.len() implies outgoing_exists(
                            links.links@,
                            src@,
                            (#[trigger] rps[pp]).item@,
                        ) by {
                            assert(products@[pp] == rps[pp].item);
                            assert(outgoing_exists(links.links@, src@, products@[pp]@));
                        }
                    }
                }
            }
            proof {
                assert forall|k: int|
                    0 <= k < i + 1 && self.data.has_recipe(
                        (#[trigger] links.links@[k]).source@,
                    ) implies source_covered(
                    self.data,
                    links.links@,
                    links.links@[k].source@,
                ) by {
                    if k == i as int {
                        assert(links.links@[i as int].source@ == src@);
                        if is_item {
                            lemma_namespaces_disjoint(self.data, src@);
                            assert(false);
                        } else if dup {
                            let j2 = choose|j2: int|
                                0 <= j2 < i && (#[trigger] links.links@[j2]).source@ == src@;
                            assert(source_covered(
                                self.data,
                                links.links@,
                                links.links@[j2].source@,
                            ));
                        }
                    }
                }
                assert forall|k: int|
                    n0 <= k < links.links@.len() implies exists|k2: int|
                    0 <= k2 < i + 1 && (#[trigger] links.links@[k]).source@
                        == links.links@[k2].source@ by {
                    if is_item || dup {
                        let k2 = choose|k2: int|
                            0 <= k2 < i && (#[trigger] links.links@[k]).source@
                                == links.links@[k2].source@;
                        assert(links.links@[k].source@ == links.links@[k2].source@);
                    } else {
                        let k2 = choose|k2: int|
                            0 <= k2 <= i && (#[trigger] links.links@[k]).source@
                                == links.links@[k2].source@;
                        assert(links.links@[k].source@ == links.links@[k2].source@);
                    }
                }
            }
            i += 1;
        }
        proof {
            assert forall|k: int|
                0 <= k < links.links@.len() && self.data.has_recipe(
                    (#[trigger] links.links@[k]).source@,
                ) implies source_covered(
                self.data,
                links.links@,
                links.links@[k].source@,
            ) by {
                if k >= n0 as int {
                    let k2 = choose|k2: int|
                        0 <= k2 < n0 && (#[trigger] links.links@[k]).source@
                            == links.links@[k2].source@;
                    assert(source_covered(self.data, links.links@, links.links@[k2].source@));
                }
            }
            assert forall|k: int|
                n0 <= k < links.links@.len() implies #[trigger] source_among(
                links.links@,
                k,
                n0 as int,
            ) by {
                let k2 = choose|k2: int|
                    0 <= k2 < i && (#[trigger] links.links@[k]).source@
                        == links.links@[k2].source@;
                assert(links.links@[k].source@ == links.links@[k2].source@);
            }
        }
    }

    /// Emits, for every production node and every (ingredient, product)
    /// pair of its recipe, the equality constraint enforcing the recipe's
    /// stoichiometry over the node's incoming and outgoing edges.
    fn assemble(&self, links: &LinkSet, model: &mut Model)
        requires
            self.wf(),
            links_wf(links.links@, old(model).vars@.len() as int),
            links_ok(self.data, self.disallowed_recipes@, links.links@),
        ensures
            final(model).vars@ == old(model).vars@,
            old(model).constraints@.len() <= final(model).constraints@.len(),
            forall|ci: int|
                0 <= ci < old(model).constraints@.len() ==> final(model).constraints@[ci] == old(
                    model,
                ).constraints@[ci],
            forall|a: Seq<i64>|
                #[trigger] satisfies_all(*final(model), a) ==> all_balanced(
                    self.data,
                    links.links@,
                    a,
                ),
            forall|ci: int|
                old(model).constraints@.len() <= ci < final(model).constraints@.len()
                    ==> constraint_is_balance(
                    self.data,
                    links.links@,
                    #[trigger] final(model).constraints@[ci],
                ),
    {
        let mut i: usize = 0;
        while i < links.links.len()
            invariant
                self.wf(),
                links_wf(links.links@, model.vars@.len() as int),
                links_ok(self.data, self.disallowed_recipes@, links.links@),
                0 <= i <= links.links@.len(),
                model.vars@ == old(model).vars@,
                old(model).constraints@.len() <= model.constraints@.len(),
                forall|ci: int|
                    0 <= ci < old(model).constraints@.len() ==> model.constraints@[ci] == old(
                        model,
                    ).constraints@[ci],
                forall|ci: int|
                    old(model).constraints@.len() <= ci < model.constraints@.len()
                        ==> constraint_is_balance(
                        self.data,
                        links.links@,
                        #[trigger] model.constraints@[ci],
                    ),
                forall|a: Seq<i64>|
                    #![trigger satisfies_all(*model, a)]
                    satisfies_all(*model, a) ==> (forall|k: int|
                        0 <= k < i && self.data.has_recipe((#[trigger] links.links@[k]).source@)
                            ==> node_balanced(self.data, links.links@, links.links@[k].source@, a)),
            decreases links.links@.len() - i,
        {
            let src = links.links[i].source.clone();
            let is_item = self.data.contains_item(&src);
            let mut dup = false;
            let mut j: usize = 0;
            while j < i
                invariant
                    0 <= j <= i <= links.links@.len(),
                    src == links.links@[i as int].source,
                    dup == exists|j2: int|
                        0 <= j2 < j && (#[trigger] links.links@[j2]).source@ == src@,
                decreases i - j,
            {
                if links.links[j].source == src {
                    dup = true;
                }
                j += 1;
            }
            if !is_item && !dup {
                proof {
                    assert(link_ok(
                        self.data,
                        self.disallowed_recipes@,
                        links.links@[i as int],
                    ));
                    assert(self.data.has_recipe(src@));
                }
                let rec = self.data.get_recipe(&src);
                let mut ii: usize = 0;
                while ii < rec.ingredients.len()
                    invariant
                        self.wf(),
                        self.data.has_recipe(src@),
                        0 <= i < links.links@.len(),
                        src == links.links@[i as int].source,
                        *rec == self.data.recipe_at(src@),
                        0 <= ii <= rec.ingredients@.len(),
                        links_wf(links.links@, model.vars@.len() as int),
                        links_ok(self.data, self.disallowed_recipes@, links.links@),
                        model.vars@ == old(model).vars@,
                        old(model).constraints@.len() <= model.constraints@.len(),
                        forall|ci: int|
                            0 <= ci < old(model).constraints@.len() ==> model.constraints@[ci]
                                == old(model).constraints@[ci],
                        forall|ci: int|
                            old(model).constraints@.len() <= ci < model.constraints@.len()
                                ==> constraint_is_balance(
                                self.data,
                                links.links@,
                                #[trigger] model.constraints@[ci],
                            ),
                        forall|a: Seq<i64>|
                            #![trigger satisfies_all(*model, a)]
                            satisfies_all(*model, a) ==> (forall|i2: int, p2: int|
                                0 <= i2 < ii && 0 <= p2 < rec.products@.len() ==> pair_balanced(
                                    self.data,
                                    links.links@,
                                    src@,
                                    i2,
                                    p2,
                                    a,
                                )),
                        forall|a: Seq<i64>|
                            #![trigger satisfies_all(*model, a)]
                            satisfies_all(*model, a) ==> (forall|k: int|
                                0 <= k < i && self.data.has_recipe(
                                    (#[trigger] links.links@[k]).source@,
                                ) ==> node_balanced(
                                    self.data,
                                    links.links@,
                                    links.links@[k].source@,
                                    a,
                                )),
                    decreases rec.ingredients@.len() - ii,
                {
                    let mut pi: usize = 0;
                    while pi < rec.products.len()
                        invariant
                            self.wf(),
                            self.data.has_recipe(src@),
                            0 <= i < links.links@.len(),
                            src == links.links@[i as int].source,
                            *rec == self.data.recipe_at(src@),
                            0 <= ii < rec.ingredients@.len(),
                            0 <= pi <= rec.products@.len(),
                            links_wf(links.links@, model.vars@.len() as int),
                            links_ok(self.data, self.disallowed_recipes@, links.links@),
                            model.vars@ == old(model).vars@,
                            old(model).constraints@.len() <= model.constraints@.len(),
                            forall|ci: int|
                                0 <= ci < old(model).constraints@.len() ==> model.constraints@[ci]
                                    == old(model).constraints@[ci],
                            forall|ci: int|
                                old(model).constraints@.len() <= ci < model.constraints@.len()
                                    ==> constraint_is_balance(
                                    self.data,
                                    links.links@,
                                    #[trigger] model.constraints@[ci],
                                ),
                            forall|a: Seq<i64>|
                                #![trigger satisfies_all(*model, a)]
                                satisfies_all(*model, a) ==> (forall|i2: int, p2: int|
                                    0 <= i2 < ii && 0 <= p2 < rec.products@.len()
                                        ==> pair_balanced(
                                        self.data,
                                        links.links@,
                                        src@,
                                        i2,
                                        p2,
                                        a,
                                    )),
                            forall|a: Seq<i64>|
                                #![trigger satisfies_all(*model, a)]
                                satisfies_all(*model, a) ==> (forall|p2: int|
                                    0 <= p2 < pi ==> pair_balanced(
                                        self.data,
                                        links.links@,
                                        src@,
                                        ii as int,
                                        p2,
                                        a,
                                    )),
                            forall|a: Seq<i64>|
                                #![trigger satisfies_all(*model, a)]
                                satisfies_all(*model, a) ==> (forall|k: int|
                                    0 <= k < i && self.data.has_recipe(
                                        (#[trigger] links.links@[k]).source@,
                                    ) ==> node_balanced(
                                        self.data,
                                        links.links@,
                                        links.links@[k].source@,
                                        a,
                                    )),
                        decreases rec.products@.len() - pi,
                    {
                        proof {
                            let ri = self.data.recipe_index(src@);
                            assert(crate::data::quantities_ok(
                                self.data.recipes@[ri].ingredients@,
                                self.data.items@,
                            ));
                            assert(crate::data::quantities_ok(
                                self.data.recipes@[ri].products@,
                                self.data.items@,
                            ));
                            assert(0 < rec.ingredients@[ii as int].amount <= AMOUNT_MAX);
                            assert(0 < rec.products@[pi as int].amount <= AMOUNT_MAX);
                        }
                        let in_vars = links.get_incoming_for_item(&src, &rec.ingredients[ii].item);
                        let out_vars = links.get_outgoing_for_item(&src, &rec.products[pi].item);
                        let pamt = rec.products[pi].amount;
                        let iamt = rec.ingredients[ii].amount;
                        let neg: i64 = -iamt;
                        let mut terms = crate::model::scaled_terms(&in_vars, pamt);
                        let mut out_terms = crate::model::scaled_terms(&out_vars, neg);
                        let ghost in_seq = terms@;
                        let ghost out_seq = out_terms@;
                        terms.append(&mut out_terms);
                        proof {
                            assert(terms@ == in_seq + out_seq);
                            lemma_incoming_vars_distinct(
                                links.links@,
                                src@,
                                rec.ingredients@[ii as int].item@,
                            );
                            lemma_outgoing_vars_distinct(
                                links.links@,
                                src@,
                                rec.products@[pi as int].item@,
                            );
                            assert(forall|p: int, q2: int|
                                0 <= p < q2 < in_seq.len() ==> in_seq[p].0 != in_seq[q2].0);
                            assert(forall|p: int, q2: int|
                                0 <= p < q2 < out_seq.len() ==> out_seq[p].0 != out_seq[q2].0);
                            assert forall|v: usize| occ(terms@, v) <= 2 by {
                                crate::model::lemma_occ_concat(in_seq, out_seq, v);
                                crate::model::lemma_occ_distinct(in_seq, v);
                                crate::model::lemma_occ_distinct(out_seq, v);
                            }
                            assert forall|k: int|
                                0 <= k < terms@.len() implies -AMOUNT_MAX <= (#[trigger] terms@[k]).1
                                <= AMOUNT_MAX by {
                                if k < in_seq.len() {
                                    assert(terms@[k] == in_seq[k]);
                                } else {
                                    assert(terms@[k] == out_seq[k - in_seq.len()]);
                                }
                            }
                        }
                        let merged = crate::model::merge_terms(&terms);
                        let ghost mprev = *model;
                        let ghost cidx = model.constraints@.len() as int;
                        model.add_constraint(Constraint { terms: merged, rhs: 0 });
                        proof {
                            assert forall|a: Seq<i64>| satisfies(
                                model.constraints@[cidx],
                                a,
                            ) <==> pair_balanced(
                                self.data,
                                links.links@,
                                src@,
                                ii as int,
                                pi as int,
                                a,
                            ) by {
                                crate::model::lemma_term_sum_concat(in_seq, out_seq, a);
                                let inflow = vars_sum(in_vars@, a);
                                let outflow = vars_sum(out_vars@, a);
                                assert(term_sum(merged@, a) == term_sum(terms@, a));
                                assert(term_sum(in_seq, a) == pamt * inflow);
                                assert(term_sum(out_seq, a) == neg * outflow);
                                assert(neg as int * outflow == -((iamt as int) * outflow))
                                    by (nonlinear_arith)
                                    requires
                                        neg == -iamt,
                                {}
                            }
                            assert(balance_row(
                                self.data,
                                links.links@,
                                model.constraints@[cidx],
                                i as int,
                                ii as int,
                                pi as int,
                            ));
                            assert(constraint_is_balance(
                                self.data,
                                links.links@,
                                model.constraints@[cidx],
                            ));
                            assert forall|a: Seq<i64>|
                                #![trigger satisfies_all(*model, a)]
                                satisfies_all(*model, a) implies ((forall|i2: int, p2: int|
                                0 <= i2 < ii && 0 <= p2 < rec.products@.len() ==> pair_balanced(
                                    self.data,
                                    links.links@,
                                    src@,
                                    i2,
                                    p2,
                                    a,
                                )) && (forall|p2: int|
                                0 <= p2 < pi + 1 ==> pair_balanced(
                                    self.data,
                                    links.links@,
                                    src@,
                                    ii as int,
                                    p2,
                                    a,
                                )) && (forall|k: int|
                                0 <= k < i && self.data.has_recipe(
                                    (#[trigger] links.links@[k]).source@,
                                ) ==> node_balanced(
                                    self.data,
                                    links.links@,
                                    links.links@[k].source@,
                                    a,
                                ))) by {
                                lemma_satisfies_prefix(mprev, *model, a);
                                assert(satisfies_all(mprev, a));
                                assert(satisfies(model.constraints@[cidx], a));
                                assert(pair_balanced(
                                    self.data,
                                    links.links@,
                                    src@,
                                    ii as int,
                                    pi as int,
                                    a,
                                ));
                            }
                        }
                        pi += 1;
                    }
                    ii += 1;
                }
                proof {
                    assert forall|a: Seq<i64>|
                        #![trigger satisfies_all(*model, a)]
                        satisfies_all(*model, a) implies (forall|k: int|
                        0 <= k < i + 1 && self.data.has_recipe(
                            (#[trigger] links.links@[k]).source@,
                        ) ==> node_balanced(
                            self.data,
                            links.links@,
                            links.links@[k].source@,
                            a,
                        )) by {
                        assert forall|k: int|
                            0 <= k < i + 1 && self.data.has_recipe(
                                (#[trigger] links.links@[k]).source@,
                            ) implies node_balanced(
                            self.data,
                            links.links@,
                            links.links@[k].source@,
                            a,
                        ) by {
                            if k == i as int {
                                assert(node_balanced(self.data, links.links@, src@, a));
                            }
                        }
                    }
                }
            } else {
                proof {
                    assert forall|a: Seq<i64>|
                        #![trigger satisfies_all(*model, a)]
                        satisfies_all(*model, a) implies (forall|k: int|
                        0 <= k < i + 1 && self.data.has_recipe(
                            (#[trigger] links.links@[k]).source@,
                        ) ==> node_balanced(
                            self.data,
                            links.links@,
                            links.links@[k].source@,
                            a,
                        )) by {
                        assert forall|k: int|
                            0 <= k < i + 1 && self.data.has_recipe(
                                (#[trigger] links.links@[k]).source@,
                            ) implies node_balanced(
                            self.data,
                            links.links@,
                            links.links@[k].source@,
                            a,
                        ) by {
                            if k == i as int {
                                if is_item {
                                    lemma_namespaces_disjoint(self.data, src@);
                                    assert(false);
                                } else {
                                    let j2 = choose|j2: int|
                                        0 <= j2 < i && (#[trigger] links.links@[j2]).source@
                                            == src@;
                                    assert(node_balanced(
                                        self.data,
                                        links.links@,
                                        links.links@[j2].source@,
                                        a,
                                    ));
                                }
                            }
                        }
                    }
                }
            }
            i += 1;
        }
    }

    /// Prunes the catalog, registers the targets, expands the required
    /// recipes, injects byproduct sinks and assembles the stoichiometric
    /// constraints: everything up to the linear-program call itself, whose
    /// solved assignment [`Prepared::extract`] then maps back onto a graph.
    ///
    /// On success, every assignment satisfying the model's constraints
    /// routes exactly the requested rate into each target's output node and
    /// balances every production node.
    pub fn prepare(self) -> (r: Result<Prepared, SolveError>)
        requires
            self.wf(),
        ensures
            r is Ok <==> targets_valid(self.data, self.targets@),
            r matches Ok(p) ==> ({
                &&& p.data == self.data
                &&& p.targets@ == self.targets@
                &&& p.resources@ == self.resources@
                &&& p.byproduct_coefficient == self.byproduct_coefficient
                &&& p.wf()
                // the disallowed set grew to the least fixed point: every
                // recipe left outside it is feasible under it
                &&& forall|s2: Seq<char>|
                    self.disallowed_recipes@.contains(s2) ==> p.disallowed_recipes@.contains(s2)
                &&& forall|j: int|
                    0 <= j < p.data.recipes@.len() && !p.disallowed_recipes@.contains(
                        (#[trigger] p.data.recipes@[j]).class_name@,
                    ) ==> recipe_feasible(
                        p.data,
                        res_ids(p.resources@),
                        p.disallowed_recipes@,
                        p.data.recipes@[j],
                    )
                &&& forall|e: Set<Seq<char>>|
                    self.disallowed_recipes@.subset_of(e) && #[trigger] dis_closed(
                        self.data,
                        res_ids(self.resources@),
                        e,
                    ) ==> p.disallowed_recipes@.subset_of(e)
                // every allowed producer of each target got an output edge
                &&& forall|ti: int|
                    0 <= ti < p.targets@.len() ==> target_covered(
                        p.data,
                        p.disallowed_recipes@,
                        p.links.links@,
                        (#[trigger] p.targets@[ti]).0@,
                    )
                // each variable is priced and bounded by its edge kind
                &&& links_priced(
                    p.data,
                    p.resources@,
                    p.targets@,
                    p.byproduct_coefficient,
                    p.links.links@,
                    p.model.vars@,
                )
                // every product of every production node has an outgoing
                // edge: unconsumed products received their byproduct sink
                &&& products_covered(p.data, p.links.links@)
                // every production node's ingredients are fully wired: a
                // resource edge per primitive ingredient and a supply edge
                // from every allowed producer
                &&& forall|k: int|
                    0 <= k < p.links.links@.len() && p.data.has_recipe(
                        (#[trigger] p.links.links@[k]).source@,
                    ) ==> ingredients_supplied(
                        p.data,
                        p.disallowed_recipes@,
                        p.resources@,
                        p.links.links@,
                        p.links.links@[k].source@,
                    )
                // constraint `ti` is exactly target `ti`'s inflow equation,
                // and every later constraint exactly some pair balance
                &&& p.model.constraints@.len() >= p.targets@.len()
                &&& forall|ti: int, a: Seq<i64>|
                    #![trigger satisfies(p.model.constraints@[ti], a)]
                    0 <= ti < p.targets@.len() ==> (satisfies(p.model.constraints@[ti], a)
                        <==> in_flow(
                        p.links.links@,
                        p.targets@[ti].0@,
                        p.targets@[ti].0@,
                        a,
                    ) == p.targets@[ti].1)
                &&& forall|ci: int|
                    p.targets@.len() <= ci < p.model.constraints@.len()
                        ==> constraint_is_balance(
                        p.data,
                        p.links.links@,
                        #[trigger] p.model.constraints@[ci],
                    )
                &&& forall|ti: int, a: Seq<i64>|
                    #![trigger satisfies_all(p.model, a), p.targets@[ti]]
                    0 <= ti < p.targets@.len() && satisfies_all(p.model, a) ==> in_flow(
                        p.links.links@,
                        p.targets@[ti].0@,
                        p.targets@[ti].0@,
                        a,
                    ) == p.targets@[ti].1
                &&& forall|a: Seq<i64>|
                    #[trigger] satisfies_all(p.model, a) ==> all_balanced(
                        p.data,
                        p.links.links@,
                        a,
                    )
            }),
    {
        let ghost orig = self;
        let mut s = self;
        s.prune();
        match s.check_targets() {
            Some(e) => {
                return Err(e);
            },
            None => {},
        }
        let mut links = LinkSet::new();
        let mut model = Model::new();
        let todo = s.add_targets(&mut links, &mut model);
        let ghost links_t = links.links@;
        let ghost model_t = *(&model);
        let mut k: usize = 0;
        while k < todo.len()
            invariant
                s.wf(),
                targets_valid(s.data, s.targets@),
                0 <= k <= todo@.len(),
                forall|k2: int|
                    0 <= k2 < todo@.len() ==> s.data.has_recipe((#[trigger] todo@[k2])@)
                        && !s.disallowed_recipes@.contains(todo@[k2]@),
                forall|k2: int|
                    0 <= k2 < todo@.len() ==> has_source(links.links@, (#[trigger] todo@[k2])@),
                forall|k2: int|
                    0 <= k2 < k ==> ingredients_supplied(
                        s.data,
                        s.disallowed_recipes@,
                        s.resources@,
                        links.links@,
                        (#[trigger] todo@[k2])@,
                    ),
                forall|k2: int|
                    0 <= k2 < links.links@.len() && s.data.has_recipe(
                        (#[trigger] links.links@[k2]).source@,
                    ) && !has_source(links_t, links.links@[k2].source@)
                        ==> ingredients_supplied(
                        s.data,
                        s.disallowed_recipes@,
                        s.resources@,
                        links.links@,
                        links.links@[k2].source@,
                    ),
                links_wf(links.links@, model.vars@.len() as int),
                links_ok(s.data, s.disallowed_recipes@, links.links@),
                links_priced(
                    s.data,
                    s.resources@,
                    s.targets@,
                    s.byproduct_coefficient,
                    links.links@,
                    model.vars@,
                ),
                model.constraints@ == model_t.constraints@,
                links_t.len() <= links.links@.len(),
                forall|j: int| 0 <= j < links_t.len() ==> links.links@[j] == links_t[j],
                forall|k2: int|
                    links_t.len() <= k2 < links.links@.len() ==> s.data.has_recipe(
                        (#[trigger] links.links@[k2]).destination@,
                    ),
            decreases todo@.len() - k,
        {
            let ghost pre = links.links@;
            let ghost vpre = model.vars@;
            s.add_variables(&todo[k], &mut links, &mut model);
            proof {
                assert(links_priced(
                    s.data,
                    s.resources@,
                    s.targets@,
                    s.byproduct_coefficient,
                    pre,
                    vpre,
                ));
                assert(links_priced(
                    s.data,
                    s.resources@,
                    s.targets@,
                    s.byproduct_coefficient,
                    links.links@,
                    model.vars@,
                ));
                assert forall|j: int| 0 <= j < links_t.len() implies links.links@[j] == links_t[j]
                    by {
                    assert(links.links@[j] == pre[j]);
                }
                assert forall|k2: int|
                    links_t.len() <= k2 < links.links@.len() implies s.data.has_recipe(
                    (#[trigger] links.links@[k2]).destination@,
                ) by {
                    if k2 < pre.len() {
                        assert(links.links@[k2] == pre[k2]);
                    }
                }
                assert forall|k2: int|
                    0 <= k2 < todo@.len() implies has_source(
                    links.links@,
                    (#[trigger] todo@[k2])@,
                ) by {
                    lemma_has_source_extend(pre, links.links@, todo@[k2]@);
                }
                assert forall|k2: int|
                    0 <= k2 < k + 1 implies ingredients_supplied(
                    s.data,
                    s.disallowed_recipes@,
                    s.resources@,
                    links.links@,
                    (#[trigger] todo@[k2])@,
                ) by {
                    if k2 < k as int {
                        lemma_all_supplied_extend(
                            s.data,
                            s.disallowed_recipes@,
                            s.resources@,
                            pre,
                            links.links@,
                            todo@[k2]@,
                        );
                    }
                }
                assert forall|k2: int|
                    0 <= k2 < links.links@.len() && s.data.has_recipe(
                        (#[trigger] links.links@[k2]).source@,
                    ) && !has_source(links_t, links.links@[k2].source@)
                        implies ingredients_supplied(
                    s.data,
                    s.disallowed_recipes@,
                    s.resources@,
                    links.links@,
                    links.links@[k2].source@,
                ) by {
                    if has_source(pre, links.links@[k2].source@) {
                        let kp = choose|kp: int|
                            0 <= kp < pre.len() && pre[kp].source@
                                == links.links@[k2].source@;
                        if kp < links_t.len() {
                            assert(links_t[kp].source@ == links.links@[k2].source@);
                            assert(false);
                        }
                        assert(ingredients_supplied(
                            s.data,
                            s.disallowed_recipes@,
                            s.resources@,
                            pre,
                            pre[kp].source@,
                        ));
                        lemma_all_supplied_extend(
                            s.data,
                            s.disallowed_recipes@,
                            s.resources@,
                            pre,
                            links.links@,
                            links.links@[k2].source@,
                        );
                    } else {
                        assert(ingredients_supplied(
                            s.data,
                            s.disallowed_recipes@,
                            s.resources@,
                            links.links@,
                            links.links@[k2].source@,
                        ));
                    }
                }
            }
            k += 1;
        }
        proof {
            // the expansion adds only recipe-node destinations, so every
            // target's inflow list is untouched
            assert forall|ti: int|
                0 <= ti < s.targets@.len() implies incoming_vars(
                links.links@,
                (#[trigger] s.targets@[ti]).0@,
                s.targets@[ti].0@,
            ) == incoming_vars(links_t, s.targets@[ti].0@, s.targets@[ti].0@) by {
                let t = s.targets@[ti].0@;
                assert forall|k2: int|
                    links_t.len() <= k2 < links.links@.len() implies !((
                    #[trigger] links.links@[k2]).destination@ == t
                    && links.links@[k2].item@ == t) by {
                    if links.links@[k2].destination@ == t {
                        lemma_namespaces_disjoint(s.data, t);
                        assert(false);
                    }
                }
                lemma_incoming_unchanged(links_t, links.links@, t, t);
            }
            assert forall|ti: int|
                0 <= ti < s.targets@.len() implies target_covered(
                s.data,
                s.disallowed_recipes@,
                links.links@,
                (#[trigger] s.targets@[ti]).0@,
            ) by {
                lemma_covered_extend(
                    s.data,
                    s.disallowed_recipes@,
                    links_t,
                    links.links@,
                    s.targets@[ti].0@,
                );
            }
        }
        let ghost links_e = links.links@;
        s.add_byproducts(&mut links, &mut model);
        let ghost links_b = links.links@;
        let ghost model_b = *(&model);
        s.assemble(&links, &mut model);
        proof {
            // every target's inflow list survived expansion and byproducts
            assert forall|ti: int|
                0 <= ti < s.targets@.len() implies incoming_vars(
                links.links@,
                (#[trigger] s.targets@[ti]).0@,
                s.targets@[ti].0@,
            ) == incoming_vars(links_t, s.targets@[ti].0@, s.targets@[ti].0@) by {
                let t = s.targets@[ti].0@;
                assert(incoming_vars(links_b, t, t) == incoming_vars(links_e, t, t));
                assert(incoming_vars(links_e, t, t) == incoming_vars(links_t, t, t));
            }
            // per-row: constraint `ti` is target `ti`'s inflow equation
            assert forall|ti: int, a: Seq<i64>|
                #![trigger satisfies(model.constraints@[ti], a)]
                0 <= ti < s.targets@.len() implies (satisfies(model.constraints@[ti], a)
                <==> in_flow(
                links.links@,
                s.targets@[ti].0@,
                s.targets@[ti].0@,
                a,
            ) == s.targets@[ti].1) by {
                let t = s.targets@[ti].0@;
                assert(model_b.constraints@[ti] == model_t.constraints@[ti]);
                assert(model.constraints@[ti] == model_b.constraints@[ti]);
                assert(satisfies(model_t.constraints@[ti], a) <==> in_flow(links_t, t, t, a)
                    == s.targets@[ti].1);
                assert(incoming_vars(links.links@, t, t) == incoming_vars(links_t, t, t));
            }
            // and hence any satisfying assignment meets every target rate
            assert forall|ti: int, a: Seq<i64>|
                #![trigger satisfies_all(model, a), s.targets@[ti]]
                0 <= ti < s.targets@.len() && satisfies_all(model, a) implies in_flow(
                links.links@,
                s.targets@[ti].0@,
                s.targets@[ti].0@,
                a,
            ) == s.targets@[ti].1 by {
                assert(satisfies(model.constraints@[ti], a));
            }
            // later constraints are exactly the balance equations
            assert forall|ci: int|
                s.targets@.len() <= ci < model.constraints@.len()
                    implies constraint_is_balance(
                    s.data,
                    links.links@,
                    #[trigger] model.constraints@[ci],
                ) by {
                assert(model_b.constraints@.len() == s.targets@.len());
            }
            // coverage of every target persisted to the final edge set
            assert forall|ti: int|
                0 <= ti < s.targets@.len() implies target_covered(
                s.data,
                s.disallowed_recipes@,
                links.links@,
                (#[trigger] s.targets@[ti]).0@,
            ) by {
                lemma_covered_extend(
                    s.data,
                    s.disallowed_recipes@,
                    links_e,
                    links.links@,
                    s.targets@[ti].0@,
                );
            }
            // every production node's ingredient wiring reached the final
            // edge set: target producers were expanded from the work list,
            // deeper nodes when first sourced, and byproduct edges only
            // repeat existing sources
            assert forall|k: int|
                0 <= k < links.links@.len() && s.data.has_recipe(
                    (#[trigger] links.links@[k]).source@,
                ) implies ingredients_supplied(
                s.data,
                s.disallowed_recipes@,
                s.resources@,
                links.links@,
                links.links@[k].source@,
            ) by {
                let src = if k < links_e.len() {
                    links.links@[k].source@
                } else {
                    let k2 = choose|k2: int|
                        0 <= k2 < links_e.len() && links_b[k].source@
                            == (#[trigger] links_b[k2]).source@;
                    links.links@[k2].source@
                };
                if k >= links_e.len() {
                    assert(source_among(links_b, k, links_e.len() as int));
                }
                assert(src == links.links@[k].source@);
                let ke = choose|ke: int|
                    0 <= ke < links_e.len() && links.links@[ke].source@ == src;
                assert(links_e[ke] == links.links@[ke]);
                if has_source(links_t, src) {
                    let kt = choose|kt: int|
                        0 <= kt < links_t.len() && links_t[kt].source@ == src;
                    assert(source_in_todo(links_t, todo@, kt));
                    let k2 = choose|k2: int|
                        0 <= k2 < todo@.len() && links_t[kt].source@
                            == (#[trigger] todo@[k2])@;
                    assert(ingredients_supplied(
                        s.data,
                        s.disallowed_recipes@,
                        s.resources@,
                        links_e,
                        todo@[k2]@,
                    ));
                    lemma_all_supplied_extend(
                        s.data,
                        s.disallowed_recipes@,
                        s.resources@,
                        links_e,
                        links.links@,
                        src,
                    );
                } else {
                    assert(ingredients_supplied(
                        s.data,
                        s.disallowed_recipes@,
                        s.resources@,
                        links_e,
                        links_e[ke].source@,
                    ));
                    lemma_all_supplied_extend(
                        s.data,
                        s.disallowed_recipes@,
                        s.resources@,
                        links_e,
                        links.links@,
                        src,
                    );
                }
            }
        }
        proof {
            // the pruning facts, restated over the returned configuration
            assert forall|j: int|
                0 <= j < s.data.recipes@.len() && !s.disallowed_recipes@.contains(
                    (#[trigger] s.data.recipes@[j]).class_name@,
                ) implies recipe_feasible(
                s.data,
                res_ids(s.resources@),
                s.disallowed_recipes@,
                s.data.recipes@[j],
            ) by {
                assert(s.feasible_spec(s.data.recipes@[j]));
            }
            assert forall|e: Set<Seq<char>>|
                orig.disallowed_recipes@.subset_of(e) && #[trigger] dis_closed(
                    orig.data,
                    res_ids(orig.resources@),
                    e,
                ) implies s.disallowed_recipes@.subset_of(e) by {
                assert(dis_closed(orig.data, orig.res_set(), e));
            }
        }
        Ok(
            Prepared {
                data: s.data,
                targets: s.targets,
                resources: s.resources,
                disallowed_recipes: s.disallowed_recipes,
                byproduct_coefficient: s.byproduct_coefficient,
                model,
                links,
            },
        )
    }
}

/// Whether a resource with identifier `id` is configured.
fn resource_exists(rs: &Vec<(String, Resource)>, id: &String) -> (b: bool)
    ensures
        b == res_listed(rs@, id@),
{
    let mut i: usize = 0;
    while i < rs.len()
        invariant
            0 <= i <= rs@.len(),
            forall|j: int| 0 <= j < i ==> rs@[j].0@ != id@,
        decreases rs@.len() - i,
    {
        if rs[i].0 == *id {
            return true;
        }
        i += 1;
    }
    false
}

} // verus!
