use factory_solver::data::{DataError, GameData, Item, ItemQuantity, Recipe, Resource};
use factory_solver::sets::IdSet;
use factory_solver::units::SCALE;

fn item(id: &str, name: &str) -> Item {
    Item { id: id.to_string(), name: name.to_string() }
}

fn quantity(id: &str, whole: i64) -> ItemQuantity {
    ItemQuantity { item: id.to_string(), amount: whole * SCALE }
}

fn recipe(id: &str, name: &str, time_s: i64, ins: Vec<ItemQuantity>, outs: Vec<ItemQuantity>) -> Recipe {
    Recipe {
        name: name.to_string(),
        class_name: id.to_string(),
        alternate: false,
        time: time_s * SCALE,
        for_building: false,
        ingredients: ins,
        products: outs,
    }
}

fn small_catalog() -> GameData {
    let items = vec![item("ore", "Ore"), item("plate", "Plate"), item("rod", "Rod")];
    let recipes = vec![
        recipe("smelt", "Smelt", 2, vec![quantity("ore", 1)], vec![quantity("plate", 1)]),
        recipe("roll", "Roll", 4, vec![quantity("plate", 1)], vec![quantity("rod", 2)]),
    ];
    GameData::new(recipes, items, vec![Resource { name: "ore".to_string() }]).unwrap()
}

#[test]
fn lookups_find_items_and_recipes() {
    let d = small_catalog();
    assert!(d.contains_item(&"ore".to_string()));
    assert!(!d.contains_item(&"smelt".to_string()));
    assert!(d.contains_recipe(&"roll".to_string()));
    assert_eq!(d.get_item_name(&"plate".to_string()), "Plate");
    assert_eq!(d.get_recipe_name(&"smelt".to_string()), "Smelt");
    assert_eq!(d.get_ingredients(&"roll".to_string()), vec!["plate".to_string()]);
    assert_eq!(d.get_products(&"roll".to_string()), vec!["rod".to_string()]);
}

#[test]
fn creators_and_users_respect_disallowed_set() {
    let d = small_catalog();
    let mut disallowed = IdSet::new();
    assert_eq!(
        d.get_item_creators(&"plate".to_string(), &disallowed),
        vec!["smelt".to_string()]
    );
    assert_eq!(
        d.get_item_users(&"plate".to_string(), &disallowed),
        vec!["roll".to_string()]
    );
    disallowed.insert(&"smelt".to_string());
    assert!(d.get_item_creators(&"plate".to_string(), &disallowed).is_empty());
}

#[test]
fn building_recipes_are_discarded() {
    let items = vec![item("ore", "Ore"), item("plate", "Plate")];
    let mut b = recipe("build", "Build", 1, vec![quantity("ore", 1)], vec![quantity("plate", 1)]);
    b.for_building = true;
    let keep = recipe("smelt", "Smelt", 2, vec![quantity("ore", 1)], vec![quantity("plate", 1)]);
    let d = GameData::new(vec![b, keep], items, vec![]).unwrap();
    assert!(!d.contains_recipe(&"build".to_string()));
    assert!(d.contains_recipe(&"smelt".to_string()));
}

#[test]
fn packaging_recipes_are_discarded() {
    let items = vec![item("ore", "Ore"), item("plate", "Plate")];
    let pack = recipe(
        "Recipe_PackagedPlate_C",
        "Package plate",
        1,
        vec![quantity("plate", 1)],
        vec![quantity("plate", 1)],
    );
    let keep = recipe("smelt", "Smelt", 2, vec![quantity("ore", 1)], vec![quantity("plate", 1)]);
    let d = GameData::new(vec![pack, keep], items, vec![]).unwrap();
    assert!(!d.contains_recipe(&"Recipe_PackagedPlate_C".to_string()));
    assert!(d.contains_recipe(&"smelt".to_string()));
}

#[test]
fn duplicate_recipe_id_is_rejected() {
    let items = vec![item("ore", "Ore"), item("plate", "Plate")];
    let a = recipe("smelt", "Smelt", 2, vec![quantity("ore", 1)], vec![quantity("plate", 1)]);
    let b = recipe("smelt", "Smelt again", 3, vec![quantity("ore", 1)], vec![quantity("plate", 1)]);
    assert_eq!(GameData::new(vec![a, b], items, vec![]).unwrap_err(), DataError::DuplicateRecipe);
}

#[test]
fn duplicate_item_id_is_rejected() {
    let items = vec![item("ore", "Ore"), item("ore", "Ore again")];
    assert_eq!(GameData::new(vec![], items, vec![]).unwrap_err(), DataError::DuplicateItem);
}

#[test]
fn recipe_item_id_clash_is_rejected() {
    let items = vec![item("ore", "Ore"), item("smelt", "Odd item")];
    let a = recipe("smelt", "Smelt", 2, vec![quantity("ore", 1)], vec![quantity("ore", 1)]);
    assert_eq!(GameData::new(vec![a], items, vec![]).unwrap_err(), DataError::IdClash);
}

#[test]
fn nonpositive_cycle_time_is_rejected() {
    let items = vec![item("ore", "Ore"), item("plate", "Plate")];
    let mut a = recipe("smelt", "Smelt", 2, vec![quantity("ore", 1)], vec![quantity("plate", 1)]);
    a.time = 0;
    assert_eq!(GameData::new(vec![a], items, vec![]).unwrap_err(), DataError::BadTime);
}

#[test]
fn nonpositive_amount_is_rejected() {
    let items = vec![item("ore", "Ore"), item("plate", "Plate")];
    let a = recipe("smelt", "Smelt", 2, vec![quantity("ore", 0)], vec![quantity("plate", 1)]);
    assert_eq!(GameData::new(vec![a], items, vec![]).unwrap_err(), DataError::BadQuantity);
}

#[test]
fn repeated_quantity_item_is_rejected() {
    let items = vec![item("ore", "Ore"), item("plate", "Plate")];
    let a = recipe(
        "smelt",
        "Smelt",
        2,
        vec![quantity("ore", 1), quantity("ore", 2)],
        vec![quantity("plate", 1)],
    );
    assert_eq!(
        GameData::new(vec![a], items, vec![]).unwrap_err(),
        DataError::RepeatedQuantityItem
    );
}

#[test]
fn unknown_quantity_item_is_rejected() {
    let items = vec![item("ore", "Ore")];
    let a = recipe("smelt", "Smelt", 2, vec![quantity("ore", 1)], vec![quantity("plate", 1)]);
    assert_eq!(
        GameData::new(vec![a], items, vec![]).unwrap_err(),
        DataError::UnknownQuantityItem
    );
}
