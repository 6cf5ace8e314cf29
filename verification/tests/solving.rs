use factory_solver::data::{GameData, Item, ItemQuantity, Recipe};
use factory_solver::factory::{Factory, NodeType};
use factory_solver::solver::{Prepared, SolveError, Solver};
use factory_solver::units::{BYPRODUCT_WEIGHT, SCALE};

fn item(id: &str, name: &str) -> Item {
    Item { id: id.to_string(), name: name.to_string() }
}

fn quantity(id: &str, whole: i64) -> ItemQuantity {
    ItemQuantity { item: id.to_string(), amount: whole * SCALE }
}

fn recipe(id: &str, name: &str, time_s: i64, ins: Vec<ItemQuantity>, outs: Vec<ItemQuantity>) -> Recipe {
    Recipe {
        name: name.to_string(),
        class_name: id.to_string(),
        alternate: false,
        time: time_s * SCALE,
        for_building: false,
        ingredients: ins,
        products: outs,
    }
}

/// Runs the formulated model through the `minilp` engine and hands the
/// rounded fixed-point assignment back, or `None` when the model is
/// infeasible or unbounded.
fn run_lp(prepared: &Prepared) -> Option<Vec<i64>> {
    let mut problem = minilp::Problem::new(minilp::OptimizationDirection::Minimize);
    let mut handles = Vec::new();
    for var in prepared.model.vars.iter() {
        let upper = match var.upper {
            Some(limit) => limit as f64,
            None => f64::MAX,
        };
        handles.push(problem.add_var(var.weight as f64, (0.0, upper)));
    }
    for constraint in prepared.model.constraints.iter() {
        let mut lhs = minilp::LinearExpr::empty();
        for (v, coeff) in constraint.terms.iter() {
            lhs.add(handles[*v], *coeff as f64);
        }
        problem.add_constraint(lhs, minilp::ComparisonOp::Eq, constraint.rhs as f64);
    }
    let solution = problem.solve().ok()?;
    let mut assignment = Vec::new();
    for h in handles.iter() {
        assignment.push(solution[*h].round() as i64);
    }
    assert_eq!(assignment.len(), prepared.model.vars.len());
    Some(assignment)
}

fn solve(solver: Solver) -> Result<Option<Factory>, SolveError> {
    let prepared = solver.prepare()?;
    match run_lp(&prepared) {
        Some(assignment) => Ok(Some(prepared.extract(&assignment))),
        None => Ok(None),
    }
}

fn node_ids(f: &Factory) -> Vec<String> {
    f.nodes.iter().map(|(id, _)| id.clone()).collect()
}

#[test]
fn infeasible_recipe_and_its_consumers_are_pruned() {
    // "weave" needs an item nothing produces; "sew" consumes only weave's
    // product, so pruning must disallow both; "smelt" survives.
    let items = vec![
        item("ore", "Ore"),
        item("plate", "Plate"),
        item("silk", "Silk"),
        item("cloth", "Cloth"),
        item("dress", "Dress"),
    ];
    let recipes = vec![
        recipe("smelt", "Smelt", 2, vec![quantity("ore", 1)], vec![quantity("plate", 1)]),
        recipe("weave", "Weave", 2, vec![quantity("silk", 1)], vec![quantity("cloth", 1)]),
        recipe("sew", "Sew", 2, vec![quantity("cloth", 2)], vec![quantity("dress", 1)]),
    ];
    let data = GameData::new(recipes, items, vec![]).unwrap();
    let mut solver = Solver::new(data, vec![]);
    solver.add_resource(&"ore".to_string(), 1000 * SCALE);
    assert!(!solver.is_feasible(&"weave".to_string()));
    assert!(solver.is_feasible(&"sew".to_string()));
    solver.prune();
    assert!(solver.disallowed_recipes.contains(&"weave".to_string()));
    assert!(solver.disallowed_recipes.contains(&"sew".to_string()));
    assert!(!solver.disallowed_recipes.contains(&"smelt".to_string()));
}

#[test]
fn remove_alternates_spares_preserved_recipes() {
    let items = vec![item("ore", "Ore"), item("plate", "Plate")];
    let mut alt_a = recipe("alt_a", "Alt A", 2, vec![quantity("ore", 1)], vec![quantity("plate", 2)]);
    alt_a.alternate = true;
    let mut alt_b = recipe("alt_b", "Alt B", 2, vec![quantity("ore", 1)], vec![quantity("plate", 3)]);
    alt_b.alternate = true;
    let base = recipe("smelt", "Smelt", 2, vec![quantity("ore", 1)], vec![quantity("plate", 1)]);
    let data = GameData::new(vec![alt_a, alt_b, base], items, vec![]).unwrap();
    let mut solver = Solver::new(data, vec![]);
    solver.preserve_recipe(&"alt_b".to_string());
    solver.remove_alternates();
    assert!(solver.disallowed_recipes.contains(&"alt_a".to_string()));
    assert!(!solver.disallowed_recipes.contains(&"alt_b".to_string()));
    assert!(!solver.disallowed_recipes.contains(&"smelt".to_string()));
}

#[test]
fn unknown_target_item_aborts_the_solve() {
    let items = vec![item("ore", "Ore"), item("plate", "Plate")];
    let recipes = vec![recipe("smelt", "Smelt", 2, vec![quantity("ore", 1)], vec![quantity("plate", 1)])];
    let data = GameData::new(recipes, items, vec![]).unwrap();
    let mut solver = Solver::new(data, vec![("nonsense".to_string(), 10 * SCALE)]);
    solver.add_resource(&"ore".to_string(), 1000 * SCALE);
    assert_eq!(solver.prepare().unwrap_err(), SolveError::UnknownItem);
}

#[test]
fn duplicate_target_item_aborts_the_solve() {
    let items = vec![item("ore", "Ore"), item("plate", "Plate")];
    let recipes = vec![recipe("smelt", "Smelt", 2, vec![quantity("ore", 1)], vec![quantity("plate", 1)])];
    let data = GameData::new(recipes, items, vec![]).unwrap();
    let mut solver = Solver::new(
        data,
        vec![("plate".to_string(), 10 * SCALE), ("plate".to_string(), 20 * SCALE)],
    );
    solver.add_resource(&"ore".to_string(), 1000 * SCALE);
    assert_eq!(solver.prepare().unwrap_err(), SolveError::DuplicateTarget);
}

#[test]
fn single_chain_solve_meets_the_requested_rate() {
    // One target, one feasible producer over one primitive resource within
    // its limit: the plan has exactly one production node and one output
    // node, and the output's inflow equals the requested rate.
    let items = vec![item("ore", "Ore"), item("plate", "Plate")];
    let recipes = vec![recipe("smelt", "Smelt", 2, vec![quantity("ore", 1)], vec![quantity("plate", 1)])];
    let data = GameData::new(recipes, items, vec![]).unwrap();
    let mut solver = Solver::new(data, vec![("plate".to_string(), 10 * SCALE)]);
    solver.add_resource(&"ore".to_string(), 1000 * SCALE);
    let factory = solve(solver).unwrap().expect("the model is feasible");
    let mut production = 0;
    let mut outputs = 0;
    for (id, node) in factory.nodes.iter() {
        match node.node_type {
            NodeType::Production => {
                production += 1;
                assert_eq!(id, "smelt");
            },
            NodeType::Output => {
                outputs += 1;
                assert_eq!(id, "plate");
                let inflow: i64 = node.inputs.iter().map(|(_, r)| r.rate).sum();
                assert!((inflow - 10 * SCALE).abs() <= 10, "inflow {} off target", inflow);
            },
            NodeType::Input => {
                assert_eq!(id, "ore");
            },
        }
    }
    assert_eq!(production, 1);
    assert_eq!(outputs, 1);
}

#[test]
fn machine_clocking_follows_the_minimum_machine_count() {
    // 1 plate per 2 s cycle sustains 30 per minute per machine; 45 per
    // minute therefore needs 2 machines at 22.5 per minute each.
    let items = vec![item("ore", "Ore"), item("plate", "Plate")];
    let recipes = vec![recipe("smelt", "Smelt", 2, vec![quantity("ore", 1)], vec![quantity("plate", 1)])];
    let data = GameData::new(recipes, items, vec![]).unwrap();
    let mut solver = Solver::new(data, vec![("plate".to_string(), 45 * SCALE)]);
    solver.add_resource(&"ore".to_string(), 1000 * SCALE);
    let prepared = solver.prepare().unwrap();
    let u = prepared.get_underclock(&"smelt".to_string(), &"plate".to_string(), 45 * SCALE);
    assert_eq!(u, 22_500_000);
    // item nodes have no machine concept: the raw rate comes back
    let r = prepared.get_underclock(&"ore".to_string(), &"ore".to_string(), 45 * SCALE);
    assert_eq!(r, 45 * SCALE);
    let factory = solve_prepared(prepared).expect("feasible");
    let smelt = factory.nodes.iter().find(|(id, _)| id == "smelt").unwrap();
    let (_, plate_out) = smelt.1.outputs.iter().find(|(d, _)| d == "plate").unwrap();
    assert_eq!(plate_out.underclock, 22_500_000);
}

fn solve_prepared(prepared: Prepared) -> Option<Factory> {
    let assignment = run_lp(&prepared)?;
    Some(prepared.extract(&assignment))
}

#[test]
fn exceeding_resource_limits_reports_infeasible() {
    // The only supply chain is capped at 5 ore per minute; asking for 10
    // plate per minute must fail without a partial plan.
    let items = vec![item("ore", "Ore"), item("plate", "Plate")];
    let recipes = vec![recipe("smelt", "Smelt", 2, vec![quantity("ore", 1)], vec![quantity("plate", 1)])];
    let data = GameData::new(recipes, items, vec![]).unwrap();
    let mut solver = Solver::new(data, vec![("plate".to_string(), 10 * SCALE)]);
    solver.add_resource(&"ore".to_string(), 5 * SCALE);
    assert!(solve(solver).unwrap().is_none());
}

#[test]
fn unconsumed_byproduct_gets_a_sink_and_is_avoided() {
    // "refine" also yields slag, which nothing consumes; "smelt" makes
    // plate cleanly.  The byproduct sink must exist with the configured
    // weight, and the optimizer must route production through "smelt".
    let items = vec![
        item("ore", "Ore"),
        item("plate", "Plate"),
        item("slag", "Slag"),
    ];
    let recipes = vec![
        recipe("smelt", "Smelt", 2, vec![quantity("ore", 1)], vec![quantity("plate", 1)]),
        recipe(
            "refine",
            "Refine",
            2,
            vec![quantity("ore", 1)],
            vec![quantity("plate", 1), quantity("slag", 1)],
        ),
    ];
    let data = GameData::new(recipes, items, vec![]).unwrap();
    let mut solver = Solver::new(data, vec![("plate".to_string(), 10 * SCALE)]);
    solver.add_resource(&"ore".to_string(), 1000 * SCALE);
    let prepared = solver.prepare().unwrap();
    let sink = prepared
        .links
        .links
        .iter()
        .find(|l| l.item == "slag" && l.destination == "slag")
        .expect("the unconsumed product acquires a sink edge");
    assert_eq!(prepared.model.vars[sink.variable].weight, BYPRODUCT_WEIGHT);
    let factory = solve_prepared(prepared).expect("feasible");
    let ids = node_ids(&factory);
    assert!(ids.contains(&"smelt".to_string()));
    assert!(!ids.contains(&"refine".to_string()), "the costly byproduct route is avoided");
    assert!(!ids.contains(&"slag".to_string()));
}

#[test]
fn chained_production_balances_every_node() {
    // rod is rolled from plate, plate smelted from ore: 20 rod per minute
    // needs 10 plate per minute needs 10 ore per minute (1 plate -> 2 rod).
    let items = vec![item("ore", "Ore"), item("plate", "Plate"), item("rod", "Rod")];
    let recipes = vec![
        recipe("smelt", "Smelt", 2, vec![quantity("ore", 1)], vec![quantity("plate", 1)]),
        recipe("roll", "Roll", 4, vec![quantity("plate", 1)], vec![quantity("rod", 2)]),
    ];
    let data = GameData::new(recipes, items, vec![]).unwrap();
    let mut solver = Solver::new(data, vec![("rod".to_string(), 20 * SCALE)]);
    solver.add_resource(&"ore".to_string(), 1000 * SCALE);
    let factory = solve(solver).unwrap().expect("feasible");
    let tol = 10i64;
    let get = |id: &str| factory.nodes.iter().find(|(n, _)| n == id).map(|(_, n)| n).unwrap();
    let rod = get("rod");
    let rod_in: i64 = rod.inputs.iter().map(|(_, r)| r.rate).sum();
    assert!((rod_in - 20 * SCALE).abs() <= tol);
    // stoichiometric balance at the roll node: 1 plate in per 2 rod out
    let roll = get("roll");
    let plate_in: i64 = roll.inputs.iter().map(|(_, r)| r.rate).sum();
    let rod_out: i64 = roll.outputs.iter().map(|(_, r)| r.rate).sum();
    assert!((2 * plate_in - rod_out).abs() <= 2 * tol, "2*{} != {}", plate_in, rod_out);
    assert!((plate_in - 10 * SCALE).abs() <= tol);
    // and at the smelt node: 1 ore in per 1 plate out
    let smelt = get("smelt");
    let ore_in: i64 = smelt.inputs.iter().map(|(_, r)| r.rate).sum();
    let plate_out: i64 = smelt.outputs.iter().map(|(_, r)| r.rate).sum();
    assert!((ore_in - plate_out).abs() <= tol);
}

#[test]
fn unbounded_resources_allow_any_rate() {
    let items = vec![item("water", "Water"), item("steam", "Steam")];
    let recipes = vec![recipe("boil", "Boil", 1, vec![quantity("water", 2)], vec![quantity("steam", 2)])];
    let data = GameData::new(recipes, items, vec![]).unwrap();
    let mut solver = Solver::new(data, vec![("steam".to_string(), 100000 * SCALE)]);
    solver.configure_resource(&"water".to_string(), None, 1 * SCALE);
    let factory = solve(solver).unwrap().expect("an unbounded supply feeds any rate");
    let steam = factory.nodes.iter().find(|(id, _)| id == "steam").unwrap();
    let inflow: i64 = steam.1.inputs.iter().map(|(_, r)| r.rate).sum();
    assert!((inflow - 100000 * SCALE).abs() <= 100);
}

#[test]
fn noise_rates_are_dropped_and_empty_nodes_removed() {
    let items = vec![item("ore", "Ore"), item("plate", "Plate")];
    let recipes = vec![recipe("smelt", "Smelt", 2, vec![quantity("ore", 1)], vec![quantity("plate", 1)])];
    let data = GameData::new(recipes, items, vec![]).unwrap();
    let mut solver = Solver::new(data, vec![("plate".to_string(), 10 * SCALE)]);
    solver.add_resource(&"ore".to_string(), 1000 * SCALE);
    let prepared = solver.prepare().unwrap();
    // an all-noise assignment leaves nothing: every node is dropped
    let assignment = vec![3i64; prepared.model.vars.len()];
    let factory = prepared.extract(&assignment);
    assert!(factory.nodes.is_empty());
}
