use osrs_gph::data_types::PriceDatum;
use osrs_gph::item_search::{Item, ItemSearch};
use osrs_gph::pareto_sort::{compute_weights, ConfigError, ScoreWeights};
use osrs_gph::price_handle::{name_less, DisplaySettings, Exclusion, HandleError, PriceHandle, RecipeOutcome};
use osrs_gph::recipes::{Recipe, RecipeBook, RecipeTime};

fn price(buy: u64, sell: u64) -> PriceDatum {
    PriceDatum::new(Some(buy), Some(1), Some(sell), Some(2))
}

fn item(name: &str, id: &str, p: PriceDatum) -> Item {
    Item::new(name.to_string(), id.to_string(), p)
}

fn recipe(name: &str, inputs: &[(&str, u64)], outputs: &[(&str, u64)], time: RecipeTime) -> Recipe {
    Recipe::new(
        name.to_string(),
        inputs.iter().map(|(n, q)| (n.to_string(), *q)).collect(),
        outputs.iter().map(|(n, q)| (n.to_string(), *q)).collect(),
        time,
    )
}

fn weights(coins: i64) -> ScoreWeights {
    compute_weights(coins, [0, 0, 1]).unwrap()
}

fn plain() -> DisplaySettings {
    DisplaySettings { profiting_only: false, show_hidden: false, reverse: false }
}

fn handle(items: Vec<Item>, recipes: Vec<Recipe>, coins: u64, margin: u64) -> PriceHandle {
    PriceHandle::new(ItemSearch::new(items), RecipeBook::new(recipes), coins, margin).unwrap()
}

fn names(v: &[RecipeOutcome]) -> Vec<String> {
    v.iter().map(|o| o.name.clone()).collect()
}

#[test]
fn half_hour_recipe_figures() {
    let h = handle(
        vec![item("A", "1", price(100, 90)), item("B", "2", price(160, 150))],
        vec![recipe("Make B", &[("A", 1)], &[("B", 1)], RecipeTime::Time(1800))],
        1000,
        0,
    );
    let out = h.all_recipe_overview(&weights(1000), plain());
    assert_eq!(out.len(), 1);
    let o = &out[0];
    assert_eq!(o.name, "Make B");
    assert_eq!(o.cost, 100);
    assert_eq!(o.revenue, 150);
    assert_eq!(o.loss_gain, 50);
    assert_eq!(o.total_loss_gain, 500);
    assert_eq!(o.time, 1800);
    assert_eq!(o.gp_per_hour, 1000);
    // score = 0 * rate + 0 * time + 1 * 1000 / 1000
    assert_eq!(o.score, 1);
    assert!(!o.hidden);
}

#[test]
fn margin_raises_cost_and_lowers_revenue() {
    let h = handle(
        vec![item("A", "1", price(100, 90)), item("B", "2", price(160, 150))],
        vec![recipe("Make B", &[("A", 1)], &[("B", 1)], RecipeTime::Time(3600))],
        1000,
        100,
    );
    let o = h.recipe_outcome(&h.recipe_book.recipes[0], &weights(1000), false).unwrap();
    assert_eq!(o.cost, 101);
    assert_eq!(o.revenue, 148);
    assert_eq!(o.loss_gain, 47);
    assert_eq!(o.total_loss_gain, 47 * 9);
    assert_eq!(o.gp_per_hour, 47 * 9);
}

#[test]
fn score_combines_weights() {
    let h = handle(
        vec![item("A", "1", price(100, 90)), item("B", "2", price(160, 150))],
        vec![recipe("Make B", &[("A", 1)], &[("B", 1)], RecipeTime::Time(1800))],
        1000,
        0,
    );
    let w = compute_weights(1000, [2, -1, 3]).unwrap();
    let o = h.recipe_outcome(&h.recipe_book.recipes[0], &w, false).unwrap();
    // rate = 50 * 3600 / 1800 = 100; 2 * 100 - 1800 + 3 * 1000 / 1000
    assert_eq!(o.score, 200 - 1800 + 3);
}

#[test]
fn missing_time_decodes_invalid_and_is_excluded() {
    assert_eq!(RecipeTime::decode(None), RecipeTime::Invalid);
    assert_eq!(RecipeTime::decode(Some(-5)), RecipeTime::Invalid);
    assert_eq!(RecipeTime::decode(Some(0)), RecipeTime::Time(0));
    assert_eq!(RecipeTime::decode(Some(90)), RecipeTime::Time(90));
    assert_eq!(RecipeTime::from(-1i64), RecipeTime::Invalid);
    let r = recipe("No time", &[("A", 1)], &[("B", 1)], RecipeTime::decode(None));
    assert!(!r.isvalid());
    let h = handle(
        vec![item("A", "1", price(100, 90)), item("B", "2", price(160, 150))],
        vec![r, recipe("Timed", &[("A", 1)], &[("B", 1)], RecipeTime::Time(60))],
        1000,
        0,
    );
    let flags = [false, true];
    for profiting_only in flags {
        for show_hidden in flags {
            for reverse in flags {
                let d = DisplaySettings { profiting_only, show_hidden, reverse };
                let out = h.all_recipe_overview(&weights(1000), d);
                assert_eq!(names(&out), vec!["Timed".to_string()]);
            }
        }
    }
    let bad = h.recipe_book.get_recipe(&"No time".to_string()).unwrap();
    assert_eq!(h.recipe_outcome(bad, &weights(1000), true).unwrap_err(), Exclusion::InvalidTime);
}

#[test]
fn sell_only_item_leaves_catalog_and_recipe() {
    let sell_only = PriceDatum::new(None, None, Some(50), Some(3));
    assert!(sell_only.invalid_data());
    let catalog = ItemSearch::new(vec![
        item("A", "1", price(100, 90)),
        item("B", "2", price(160, 150)),
        item("C", "3", sell_only),
    ]);
    assert_eq!(catalog.len(), 2);
    assert!(catalog.lookup_price(&"C".to_string()).is_none());
    assert!(catalog.lookup_id(&"C".to_string()).is_none());
    assert!(catalog.lookup_name(&"3".to_string()).is_none());
    let h = PriceHandle::new(
        catalog,
        RecipeBook::new(vec![
            recipe("Uses C", &[("C", 1)], &[("B", 1)], RecipeTime::Time(60)),
            recipe("Uses A", &[("A", 1)], &[("B", 1)], RecipeTime::Time(60)),
        ]),
        1000,
        0,
    )
    .unwrap();
    let uses_c = h.recipe_book.get_recipe(&"Uses C".to_string()).unwrap();
    assert_eq!(h.recipe_outcome(uses_c, &weights(1000), false).unwrap_err(), Exclusion::UnknownItem);
    let out = h.all_recipe_overview(&weights(1000), plain());
    assert_eq!(names(&out), vec!["Uses A".to_string()]);
}

#[test]
fn unknown_output_is_excluded() {
    let h = handle(
        vec![item("A", "1", price(100, 90))],
        vec![recipe("Makes nothing known", &[("A", 1)], &[("Z", 1)], RecipeTime::Time(60))],
        1000,
        0,
    );
    assert!(h.all_recipe_overview(&weights(1000), plain()).is_empty());
}

#[test]
fn zero_time_is_excluded() {
    let h = handle(
        vec![item("A", "1", price(100, 90)), item("B", "2", price(160, 150))],
        vec![recipe("Instant", &[("A", 1)], &[("B", 1)], RecipeTime::Time(0))],
        1000,
        0,
    );
    let r = &h.recipe_book.recipes[0];
    assert_eq!(h.recipe_outcome(r, &weights(1000), false).unwrap_err(), Exclusion::ZeroTime);
    assert!(h.all_recipe_overview(&weights(1000), plain()).is_empty());
}

#[test]
fn huge_figures_are_excluded_as_overflow() {
    let h = handle(
        vec![item("A", "1", price(u64::MAX, 1)), item("B", "2", price(160, 150))],
        vec![
            recipe("Huge", &[("A", u64::MAX)], &[("B", 1)], RecipeTime::Time(60)),
            recipe("Small", &[("B", 1)], &[("B", 2)], RecipeTime::Time(60)),
        ],
        1000,
        0,
    );
    let huge = h.recipe_book.get_recipe(&"Huge".to_string()).unwrap();
    assert_eq!(h.recipe_outcome(huge, &weights(1000), false).unwrap_err(), Exclusion::Overflow);
    assert_eq!(names(&h.all_recipe_overview(&weights(1000), plain())), vec!["Small".to_string()]);
}

#[test]
fn free_inputs_count_one_coin_per_batch() {
    let h = handle(
        vec![item("B", "2", price(160, 150))],
        vec![recipe("Gather", &[], &[("B", 1)], RecipeTime::Time(3600))],
        1000,
        0,
    );
    let o = h.recipe_outcome(&h.recipe_book.recipes[0], &weights(1000), false).unwrap();
    assert_eq!(o.cost, 0);
    assert_eq!(o.total_loss_gain, 150 * 1000);
}

fn ranking_handle() -> PriceHandle {
    handle(
        vec![item("A", "1", price(100, 90)), item("B", "2", price(160, 150)), item("C", "3", price(300, 200))],
        vec![
            recipe("b-low", &[("A", 1)], &[("B", 1)], RecipeTime::Time(3600)),
            recipe("z-high", &[("A", 1)], &[("C", 1)], RecipeTime::Time(3600)),
            recipe("a-low", &[("A", 1)], &[("B", 1)], RecipeTime::Time(3600)),
            recipe("loss", &[("C", 1)], &[("A", 1)], RecipeTime::Time(3600)),
        ],
        10000,
        0,
    )
}

#[test]
fn descending_scores_ties_by_name() {
    let h = ranking_handle();
    let w = compute_weights(10000, [0, 0, 10000]).unwrap();
    let out = h.all_recipe_overview(&w, plain());
    assert_eq!(names(&out), vec!["z-high", "a-low", "b-low", "loss"]);
    for k in 1..out.len() {
        assert!(out[k - 1].score >= out[k].score);
    }
}

#[test]
fn reverse_lists_lowest_score_first() {
    let h = ranking_handle();
    let w = compute_weights(10000, [0, 0, 10000]).unwrap();
    let d = DisplaySettings { profiting_only: false, show_hidden: false, reverse: true };
    assert_eq!(names(&h.all_recipe_overview(&w, d)), vec!["loss", "a-low", "b-low", "z-high"]);
}

#[test]
fn profiting_only_drops_losses() {
    let h = ranking_handle();
    let w = compute_weights(10000, [0, 0, 10000]).unwrap();
    let d = DisplaySettings { profiting_only: true, show_hidden: false, reverse: false };
    assert_eq!(names(&h.all_recipe_overview(&w, d)), vec!["z-high", "a-low", "b-low"]);
}

#[test]
fn ranking_twice_gives_the_same_report() {
    let h = ranking_handle();
    let w = compute_weights(10000, [1, -2, 3]).unwrap();
    let a = h.all_recipe_overview(&w, plain());
    let b = h.all_recipe_overview(&w, plain());
    assert_eq!(format!("{:?}", a), format!("{:?}", b));
}

#[test]
fn show_hidden_prices_ignored_items() {
    let mut catalog = ItemSearch::new(vec![item("A", "1", price(100, 90)), item("B", "2", price(160, 150))]);
    catalog.ignore_items(&vec!["B".to_string()]);
    let h = PriceHandle::new(
        catalog,
        RecipeBook::new(vec![recipe("Make B", &[("A", 1)], &[("B", 1)], RecipeTime::Time(1800))]),
        1000,
        0,
    )
    .unwrap();
    assert!(h.all_recipe_overview(&weights(1000), plain()).is_empty());
    let d = DisplaySettings { profiting_only: false, show_hidden: true, reverse: false };
    let out = h.all_recipe_overview(&weights(1000), d);
    assert_eq!(out.len(), 1);
    assert!(out[0].hidden);
    assert_eq!(out[0].total_loss_gain, 500);
}

#[test]
fn add_then_get_and_replace() {
    let mut book = RecipeBook::new(vec![]);
    assert!(book.add_recipe(recipe("R", &[("A", 1)], &[("B", 1)], RecipeTime::Time(10))).is_none());
    assert_eq!(book.len(), 1);
    assert_eq!(book.get_recipe(&"R".to_string()).unwrap().time, RecipeTime::Time(10));
    let prev = book.add_recipe(recipe("R", &[("A", 2)], &[("B", 1)], RecipeTime::Time(20))).unwrap();
    assert_eq!(prev.time, RecipeTime::Time(10));
    assert_eq!(book.len(), 1);
    let now = book.get_recipe(&"R".to_string()).unwrap();
    assert_eq!(now.time, RecipeTime::Time(20));
    assert_eq!(now.inputs, vec![("A".to_string(), 2)]);
    assert!(book.get_recipe(&"S".to_string()).is_none());
}

#[test]
fn remove_recipe_takes_it_out() {
    let mut book = RecipeBook::new(vec![
        recipe("R", &[], &[], RecipeTime::Time(1)),
        recipe("S", &[], &[], RecipeTime::Time(2)),
    ]);
    assert_eq!(book.remove_recipe(&"R".to_string()).unwrap().time, RecipeTime::Time(1));
    assert!(book.remove_recipe(&"R".to_string()).is_none());
    assert_eq!(book.len(), 1);
    assert!(book.get_recipe(&"S".to_string()).is_some());
}

#[test]
fn duplicate_names_in_list_keep_last() {
    let mut book = RecipeBook::new(vec![]);
    book.add_from_list(vec![
        recipe("R", &[], &[], RecipeTime::Time(1)),
        recipe("R", &[], &[], RecipeTime::Time(2)),
    ]);
    assert_eq!(book.len(), 1);
    assert_eq!(book.get_recipe(&"R".to_string()).unwrap().time, RecipeTime::Time(2));
}

fn catalog_names(c: &ItemSearch) -> Vec<String> {
    c.items.iter().map(|i| i.name.clone()).collect()
}

#[test]
fn ignore_items_twice_is_idempotent() {
    let mut c = ItemSearch::new(vec![
        item("A", "1", price(100, 90)),
        item("B", "2", price(160, 150)),
        item("C", "3", price(300, 200)),
    ]);
    c.ignore_items(&vec!["A".to_string(), "B".to_string(), "Unknown".to_string()]);
    let once = (catalog_names(&c), c.ignored.len());
    c.ignore_items(&vec!["B".to_string(), "A".to_string()]);
    assert_eq!((catalog_names(&c), c.ignored.len()), once);
    assert_eq!(once.0, vec!["C".to_string()]);
    assert!(c.lookup_price(&"A".to_string()).is_none());
    assert!(c.lookup_id(&"B".to_string()).is_none());
    assert!(c.lookup_name(&"1".to_string()).is_none());
    assert_eq!(c.lookup_any_price(&"A".to_string()), Some(price(100, 90)));
}

#[test]
fn catalog_lookups_and_duplicates() {
    let c = ItemSearch::new(vec![
        item("A", "1", price(100, 90)),
        item("A", "9", price(5, 4)),
        item("D", "1", price(5, 4)),
        item("Z", "4", PriceDatum::new(Some(0), None, Some(3), None)),
    ]);
    assert_eq!(c.len(), 1);
    assert_eq!(c.lookup_price(&"A".to_string()), Some(price(100, 90)));
    assert_eq!(c.lookup_id(&"A".to_string()), Some("1".to_string()));
    assert_eq!(c.lookup_name(&"1".to_string()), Some("A".to_string()));
    assert!(item("Z", "4", PriceDatum::new(Some(0), None, Some(3), None)).invalid_data());
}

#[test]
fn initialize_joins_prices_and_names() {
    let prices = vec![
        ("1".to_string(), price(100, 90)),
        ("2".to_string(), PriceDatum::new(None, None, Some(150), None)),
        ("7".to_string(), price(10, 9)),
    ];
    let table = vec![("1".to_string(), "A".to_string()), ("2".to_string(), "B".to_string())];
    let c = ItemSearch::initialize(&prices, &table);
    assert_eq!(catalog_names(&c), vec!["A".to_string()]);
    assert_eq!(c.lookup_id(&"A".to_string()), Some("1".to_string()));
}

#[test]
fn weights_need_a_positive_budget() {
    assert_eq!(compute_weights(0, [1, 2, 3]), Err(ConfigError::NonPositiveBudget));
    assert_eq!(compute_weights(-5, [1, 2, 3]), Err(ConfigError::NonPositiveBudget));
    let w = compute_weights(500, [1, 2, 3]).unwrap();
    assert_eq!(w, ScoreWeights { margin_to_time: 1, time: 2, gp_per_hour: 3, budget: 500 });
}

#[test]
fn margin_over_one_hundred_percent_is_refused() {
    let r = PriceHandle::new(ItemSearch::new(vec![]), RecipeBook::new(vec![]), 10, 10001);
    assert_eq!(r.err(), Some(HandleError::MarginOutOfRange));
}

#[test]
fn names_order_by_bytes() {
    assert!(name_less(&"a".to_string(), &"b".to_string()));
    assert!(name_less(&"a".to_string(), &"ab".to_string()));
    assert!(!name_less(&"b".to_string(), &"a".to_string()));
    assert!(!name_less(&"a".to_string(), &"a".to_string()));
    assert!(name_less(&"".to_string(), &"a".to_string()));
}
