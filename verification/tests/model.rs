use panier::db::{Day, Db, ProductOverview, Purchase};
use panier::money::{clean_quantity_input, format_cents, parse_price_to_cents};
use panier::plan::plan_groups;
use panier::text::{fold_key, normalize, product_key};
use panier::units::{InputUnit, Trend, Unit};

// The library never reads a quantity; the float arithmetic on it below is the
// caller's, written out the way the application does it.

fn date(day: u32) -> Day {
    Day { year: 2026, month: 1, day }
}

fn purchase(id: u64, product: &str, store: &str, cents: i64, qty: f64, day: u32) -> Purchase<f64> {
    Purchase {
        id,
        product: product.to_owned(),
        store: store.to_owned(),
        price_cents: cents,
        quantity: qty,
        unit: Unit::Kg,
        date: date(day),
        note: None,
    }
}

fn unit_price(p: &Purchase<f64>) -> f64 {
    if p.quantity > 0.0 {
        p.price_cents as f64 / p.quantity
    } else {
        p.price_cents as f64
    }
}

fn to_canonical(unit: InputUnit, quantity: f64) -> (Unit, f64) {
    (unit.canonical_unit(), quantity / unit.per_canonical_unit() as f64)
}

fn parse_quantity(input: &str) -> Option<f64> {
    let quantity: f64 = clean_quantity_input(input).parse().ok()?;
    (quantity.is_finite() && quantity > 0.0).then_some(quantity)
}

fn format_unit_price(cents_per_unit: f64, unit: Unit) -> String {
    if cents_per_unit.abs() < 10.0 {
        let amount = format!("{:.3}", cents_per_unit / 100.0).replace('.', ",");
        format!("{amount} €{}", unit.suffix())
    } else {
        format!("{}{}", format_cents(cents_per_unit.round() as i64), unit.suffix())
    }
}

/// Latest against previous unit price, with the 1% dead band.
fn trend(o: &ProductOverview<f64>) -> Trend {
    let Some(previous) = o.previous.as_ref().map(unit_price) else {
        return Trend::Unknown;
    };
    let latest = unit_price(&o.latest);
    if previous <= 0.0 {
        return Trend::Unknown;
    }
    let ratio = (latest - previous) / previous;
    if ratio > 0.01 {
        Trend::Up
    } else if ratio < -0.01 {
        Trend::Down
    } else {
        Trend::Flat
    }
}

/// Stores of an overview with their mean unit price, cheapest first.
fn ranked_stores(o: &ProductOverview<f64>) -> Vec<(String, f64)> {
    let mut stores: Vec<(String, f64)> = o
        .stores
        .iter()
        .map(|visits| {
            let mut avg = 0.0;
            for (count, p) in visits.purchases.iter().enumerate() {
                avg = (avg * count as f64 + unit_price(p)) / (count + 1) as f64;
            }
            (visits.store.clone(), avg)
        })
        .collect();
    stores.sort_by(|a, b| {
        a.1.partial_cmp(&b.1)
            .unwrap_or(std::cmp::Ordering::Equal)
            .then_with(|| fold_key(&a.0).cmp(&fold_key(&b.0)))
    });
    stores
}

fn best_store(o: &ProductOverview<f64>) -> Option<String> {
    ranked_stores(o).first().map(|s| s.0.clone())
}

fn savings_per_unit(o: &ProductOverview<f64>) -> Option<f64> {
    let ranked = ranked_stores(o);
    Some(ranked.get(1)?.1 - ranked.first()?.1)
}

#[test]
fn parses_both_decimal_separators_and_a_stray_currency_symbol() {
    assert_eq!(parse_price_to_cents("2,45"), Some(245));
    assert_eq!(parse_price_to_cents("2.45"), Some(245));
    assert_eq!(parse_price_to_cents("2"), Some(200));
    assert_eq!(parse_price_to_cents(" 2,45 € "), Some(245));
    assert_eq!(parse_price_to_cents("0,05"), Some(5));
}

#[test]
fn refuses_prices_and_quantities_that_would_corrupt_a_comparison() {
    assert_eq!(parse_price_to_cents(""), None);
    assert_eq!(parse_price_to_cents("gratuit"), None);
    assert_eq!(parse_price_to_cents("-1"), None);
    assert_eq!(parse_quantity("0"), None);
    assert_eq!(parse_quantity("-2"), None);
    assert_eq!(parse_quantity("abc"), None);
    assert_eq!(parse_quantity("1,5"), Some(1.5));
}

#[test]
fn formats_money_with_two_decimals_and_thin_unit_prices_with_three() {
    assert_eq!(format_cents(1234), "12,34 €");
    assert_eq!(format_cents(5), "0,05 €");
    assert_eq!(format_cents(-250), "-2,50 €");
    assert_eq!(format_unit_price(245.0, Unit::Kg), "2,45 €/kg");
    // Comma here too — a screen mixing 2,45 € with 0.040 € reads as two apps.
    assert_eq!(format_unit_price(4.0, Unit::Piece), "0,040 €/u");
}

#[test]
fn grams_and_millilitres_are_converted_on_entry_not_stored() {
    // A 250 g packet and a 1 kg block have to end up comparable.
    assert_eq!(to_canonical(InputUnit::Gram, 250.0), (Unit::Kg, 0.25));
    assert_eq!(to_canonical(InputUnit::Kg, 1.0), (Unit::Kg, 1.0));
    assert_eq!(to_canonical(InputUnit::Milliliter, 500.0), (Unit::Liter, 0.5));
    assert_eq!(to_canonical(InputUnit::Piece, 6.0), (Unit::Piece, 6.0));

    let mut db = Db::default();
    let (unit, quantity) = to_canonical(InputUnit::Gram, 250.0);
    let mut packet = purchase(1, "Beurre", "Lidl", 245, quantity, 1);
    packet.unit = unit;
    db.insert(packet);
    // 2,45 € for 250 g is 9,80 € a kilo, and that is the number to compare.
    assert_eq!(unit_price(&db.summaries(None)[0].latest), 980.0);
}

#[test]
fn one_product_is_one_row_whatever_its_spelling() {
    let mut db = Db::default();
    db.insert(purchase(1, "Lait  demi", "Lidl", 100, 1.0, 1));
    db.insert(purchase(2, "lait demi", "LIDL", 110, 1.0, 2));
    let summaries = db.summaries(None);
    assert_eq!(summaries.len(), 1);
    assert_eq!(summaries[0].purchase_count, 2);
    assert_eq!(summaries[0].stores.len(), 1);
    // Display keeps the most recent spelling, not the first one.
    assert_eq!(summaries[0].product, "lait demi");
}

#[test]
fn cheapest_store_ranks_on_the_average_not_a_single_promotion() {
    let mut db = Db::default();
    // Aldi: one 1,00 € promotion then 3,00 € twice -> mean 2,33.
    db.insert(purchase(1, "Beurre", "Aldi", 100, 1.0, 1));
    db.insert(purchase(2, "Beurre", "Aldi", 300, 1.0, 2));
    db.insert(purchase(3, "Beurre", "Aldi", 300, 1.0, 3));
    // Lidl: steady 2,00 €.
    db.insert(purchase(4, "Beurre", "Lidl", 200, 1.0, 4));
    let summary = &db.summaries(None)[0];
    assert_eq!(best_store(summary).unwrap(), "Lidl");
    assert!((savings_per_unit(summary).unwrap() - 33.333).abs() < 0.01);
}

#[test]
fn mixing_units_never_averages_kilos_with_items() {
    let mut db = Db::default();
    db.insert(purchase(1, "Tomates", "Lidl", 400, 1.0, 1));
    let mut by_piece = purchase(2, "Tomates", "Aldi", 50, 1.0, 2);
    by_piece.unit = Unit::Piece;
    db.insert(by_piece);
    let summary = &db.summaries(None)[0];
    // Latest purchase is the per-item one, so only per-item lines are compared.
    assert_eq!(summary.unit, Unit::Piece);
    assert_eq!(summary.stores.len(), 1);
    assert_eq!(summary.stores[0].store, "Aldi");
    // The kilo line is still in the history, just not in the comparison.
    assert_eq!(summary.purchase_count, 2);
}

#[test]
fn trend_ignores_a_rounding_sized_difference() {
    let mut db = Db::default();
    db.insert(purchase(1, "Pain", "Lidl", 100, 1.0, 1));
    db.insert(purchase(2, "Pain", "Lidl", 200, 1.0, 2));
    assert_eq!(trend(&db.summaries(None)[0]), Trend::Up);

    let mut db = Db::default();
    db.insert(purchase(1, "Pain", "Lidl", 200, 1.0, 1));
    db.insert(purchase(2, "Pain", "Lidl", 100, 1.0, 2));
    assert_eq!(trend(&db.summaries(None)[0]), Trend::Down);

    let mut db = Db::default();
    db.insert(purchase(1, "Pain", "Lidl", 200, 1.0, 1));
    db.insert(purchase(2, "Pain", "Lidl", 201, 1.0, 2));
    assert_eq!(trend(&db.summaries(None)[0]), Trend::Flat);

    let mut db = Db::default();
    db.insert(purchase(1, "Pain", "Lidl", 200, 1.0, 1));
    assert_eq!(trend(&db.summaries(None)[0]), Trend::Unknown);
}

#[test]
fn a_filtered_row_keeps_the_most_recent_spelling() {
    let mut db = Db::default();
    db.insert(purchase(1, "beurre", "Aldi", 150, 1.0, 1));
    db.insert(purchase(2, "Beurre", "Lidl", 200, 1.0, 2));
    let aldi = db.summaries(Some("Aldi"));
    assert_eq!(aldi.len(), 1);
    // Spelled as entered last, anywhere...
    assert_eq!(aldi[0].product, "Beurre");
    // ... while the latest purchase is still the one made at Aldi.
    assert_eq!(aldi[0].latest.price_cents, 150);
    assert_eq!(aldi[0].latest.product, "beurre");
    let all = db.summaries(None);
    assert_eq!(all[0].product, "Beurre");
    assert_eq!(all[0].purchase_count, aldi[0].purchase_count);
}

#[test]
fn store_filter_narrows_the_rows_but_not_the_comparison() {
    let mut db = Db::default();
    db.insert(purchase(1, "Beurre", "Aldi", 150, 1.0, 1));
    db.insert(purchase(2, "Beurre", "Lidl", 200, 1.0, 2));
    db.insert(purchase(3, "Cafe", "Lidl", 500, 1.0, 3));

    let lidl = db.summaries(Some("lidl"));
    assert_eq!(lidl.len(), 2);
    let beurre = lidl.iter().find(|s| s.product == "Beurre").unwrap();
    // Latest *at Lidl*, ...
    assert_eq!(beurre.latest.price_cents, 200);
    // ... but Aldi is still named as the cheaper option.
    assert_eq!(best_store(beurre).unwrap(), "Aldi");

    let aldi = db.summaries(Some("Aldi"));
    assert_eq!(aldi.len(), 1);
    assert_eq!(aldi[0].product, "Beurre");
}

#[test]
fn the_plan_groups_products_under_their_cheapest_store() {
    let mut db = Db::default();
    db.insert(purchase(1, "Beurre", "Aldi", 150, 1.0, 1));
    db.insert(purchase(2, "Beurre", "Lidl", 200, 1.0, 2));
    db.insert(purchase(3, "Cafe", "Lidl", 500, 1.0, 3));
    db.insert(purchase(4, "Cafe", "Aldi", 900, 1.0, 4));

    let summaries = db.summaries(None);
    let best: Vec<Option<String>> = summaries.iter().map(best_store).collect();
    let mut plan: Vec<(String, Vec<&ProductOverview<f64>>)> = plan_groups(&best)
        .into_iter()
        .map(|(store, members)| (store, members.into_iter().map(|i| &summaries[i]).collect()))
        .collect();
    let savings = |products: &Vec<&ProductOverview<f64>>| {
        products.iter().filter_map(|o| savings_per_unit(o)).sum::<f64>()
    };
    plan.sort_by(|a, b| savings(&b.1).partial_cmp(&savings(&a.1)).unwrap_or(std::cmp::Ordering::Equal));
    assert_eq!(plan.len(), 2);
    // Coffee saves 4,00 € a kilo at Lidl, butter only 0,50 € at Aldi.
    assert_eq!(plan[0].0, "Lidl");
    assert_eq!(plan[0].1[0].product, "Cafe");
    assert_eq!(plan[1].0, "Aldi");
    assert_eq!(plan[1].1[0].product, "Beurre");
}

#[test]
fn suggestions_put_the_most_recently_used_names_first() {
    let mut db = Db::default();
    db.insert(purchase(1, "Beurre", "Aldi", 150, 1.0, 1));
    db.insert(purchase(2, "Cafe", "Lidl", 500, 1.0, 5));
    assert_eq!(db.stores(), vec!["Lidl", "Aldi"]);
    assert_eq!(db.product_names(), vec!["Cafe", "Beurre"]);
}

#[test]
fn ids_stay_unique_among_the_rows_that_still_exist() {
    let mut db = Db::default();
    db.insert(purchase(1, "Beurre", "Aldi", 150, 1.0, 1));
    db.insert(purchase(2, "Cafe", "Lidl", 500, 1.0, 2));
    assert_eq!(db.next_id(), 3);

    // Deleting the highest id frees it for reuse.
    db.remove(2);
    assert_eq!(db.next_id(), 2);
}

#[test]
fn product_key_ignores_spelling_and_survives_slashes() {
    assert_eq!(product_key("Lait demi"), product_key("  lait   DEMI "));
    assert_ne!(product_key("Lait"), product_key("Pain"));

    let mut db = Db::default();
    db.insert(purchase(1, "Lait 1/2 écrémé", "Lidl", 100, 1.0, 1));
    let key = product_key("Lait 1/2 écrémé");
    assert_eq!(db.product_by_key(key).as_deref(), Some("Lait 1/2 écrémé"));
    assert_eq!(db.product_by_key(product_key("Absent")), None);
}

#[test]
fn normalize_collapses_every_run_of_whitespace() {
    assert_eq!(normalize("  Lait   demi "), "Lait demi");
    assert_eq!(normalize("\tpain\u{a0}de\nmie\u{3000}"), "pain de mie");
    assert_eq!(normalize("   "), "");
    assert_eq!(normalize(""), "");
    assert_eq!(normalize(&normalize(" a  b ")), normalize(" a  b "));
}

#[test]
fn fold_key_is_collapsed_and_lowercased() {
    assert_eq!(fold_key("  LIDL  Express "), "lidl express");
    assert_eq!(fold_key("Écrémé"), "écrémé");
    assert_eq!(fold_key("lidl"), fold_key("Lidl"));
}

#[test]
fn product_key_is_fnv1a_of_the_folded_name() {
    // FNV-1a of the empty string is its offset basis.
    assert_eq!(product_key("   "), 0xcbf2_9ce4_8422_2325);
    // FNV-1a("a") is a published test vector.
    assert_eq!(product_key("A"), 0xaf63_dc4c_8601_ec8c);
}

#[test]
fn unit_keys_and_suffixes_round_trip() {
    for unit in InputUnit::ALL {
        assert_eq!(InputUnit::from_key(unit.key()), Some(unit));
    }
    assert_eq!(InputUnit::from_key("kilo"), None);
    assert_eq!(InputUnit::from_key(""), None);
    assert_eq!(Unit::Kg.suffix(), "/kg");
    assert_eq!(Unit::Liter.suffix(), "/L");
    assert_eq!(Unit::Piece.suffix(), "/u");
    assert_eq!(InputUnit::Gram.canonical_unit(), Unit::Kg);
    assert_eq!(InputUnit::Milliliter.per_canonical_unit(), 1000);
    assert_eq!(InputUnit::Liter.per_canonical_unit(), 1);
    assert_eq!(InputUnit::default(), InputUnit::Piece);
    assert_eq!(Unit::default(), Unit::Piece);
}

#[test]
fn format_cents_edges() {
    assert_eq!(format_cents(0), "0,00 €");
    assert_eq!(format_cents(-5), "-0,05 €");
    assert_eq!(format_cents(100), "1,00 €");
    assert_eq!(format_cents(i64::MAX), "92233720368547758,07 €");
}

#[test]
fn price_parsing_follows_the_float_grammar_exactly() {
    assert_eq!(parse_price_to_cents("1e2"), Some(10000));
    assert_eq!(parse_price_to_cents("2.5E-1"), Some(25));
    assert_eq!(parse_price_to_cents(".5"), Some(50));
    assert_eq!(parse_price_to_cents("5."), Some(500));
    assert_eq!(parse_price_to_cents("+3"), Some(300));
    assert_eq!(parse_price_to_cents("-0"), Some(0));
    assert_eq!(parse_price_to_cents("0,004"), Some(0));
    assert_eq!(parse_price_to_cents("0,005"), Some(1));
    assert_eq!(parse_price_to_cents("0,125"), Some(13));
    assert_eq!(parse_price_to_cents("1e30"), Some(i64::MAX));
    assert_eq!(parse_price_to_cents("1e-99999999999999999999999"), Some(0));
    assert_eq!(parse_price_to_cents("00012,30"), Some(1230));
    assert_eq!(parse_price_to_cents("1,2,3"), None);
    assert_eq!(parse_price_to_cents("."), None);
    assert_eq!(parse_price_to_cents("1e"), None);
    assert_eq!(parse_price_to_cents("e5"), None);
    assert_eq!(parse_price_to_cents("1e+"), None);
    assert_eq!(parse_price_to_cents("inf"), None);
    assert_eq!(parse_price_to_cents("NaN"), None);
    assert_eq!(parse_price_to_cents("-0,01"), None);
}

#[test]
fn amounts_beyond_double_range_follow_the_double_reading() {
    // At or above 2^1024 - 2^970 a double-precision read is infinite: refused.
    assert_eq!(parse_price_to_cents("1e309"), None);
    assert_eq!(parse_price_to_cents("179769313486231580793728971405303415079934132710037826936173778980444968292764750946649017977587207096330286416692887910946555547851940402630657488671505820681908902000708383676273854845817711531764475730270069855571366959622842914819860834936475292719074168444365510704342711559699508093042880177904174497792"), None);
    assert_eq!(parse_price_to_cents("1,797693134862315808e308"), None);
    assert_eq!(parse_price_to_cents("-1e309"), None);
    // Just below it the read is finite, and the cents saturate.
    assert_eq!(parse_price_to_cents("1e308"), Some(i64::MAX));
    assert_eq!(parse_price_to_cents("1,797693134862315807e308"), Some(i64::MAX));
    assert_eq!(parse_price_to_cents("179769313486231580793728971405303415079934132710037826936173778980444968292764750946649017977587207096330286416692887910946555547851940402630657488671505820681908902000708383676273854845817711531764475730270069855571366959622842914819860834936475292719074168444365510704342711559699508093042880177904174497791"), Some(i64::MAX));
    // A negative amount no larger than 2^-1075 reads as negative zero.
    assert_eq!(parse_price_to_cents("-1e-400"), Some(0));
    assert_eq!(parse_price_to_cents("-2,4703282292062327e-324"), Some(0));
    assert_eq!(parse_price_to_cents("-2.4703282292062327208828439643411068618252990130716238221279284125033775363510437593264991818081799618989828234772285886546332835517796989819938739800539093906315035659515570226392290858392449105184435931802849936536152500319370457678249219365623669863658480757001585769269903706311928279558551332927834338409351978015531246597263579574622766465272827220056374006485499977096599470454020828166226237857393450736339007967761930577506740176324673600968951340535537458516661134223766678604162159680461914467291840300530057530849048765391711386591646239524912623653881879636239373280423891018672348497668235089863388587925628302755995657524455507255189313690836254779186948667994968324049705821028513185451396213837722826145437693412532098591327667236328125e-324"), Some(0));
    // Above it, it is a negative amount.
    assert_eq!(parse_price_to_cents("-2,4703282292062328e-324"), None);
    assert_eq!(parse_price_to_cents("-1e-300"), None);
}

#[test]
fn price_rounding_follows_double_precision() {
    // 2,445 is 2.44499999999999984... as a double, and 244.49999999999997
    // once multiplied by 100.
    assert_eq!(parse_price_to_cents("2,445"), Some(244));
    assert_eq!(parse_price_to_cents("1,005"), Some(100));
    assert_eq!(parse_price_to_cents("8,345"), Some(835));
    assert_eq!(parse_price_to_cents("10,075"), Some(1007));
    // The product lands on 267.5 exactly, which rounds away from zero.
    assert_eq!(parse_price_to_cents("2,675"), Some(268));
    // Past 2^53 a double no longer holds every whole number.
    assert_eq!(parse_price_to_cents("4503599627370497"), Some(450359962737049728));
    assert_eq!(parse_price_to_cents("0,124999999999999999"), Some(13));
    assert_eq!(parse_price_to_cents("92233720368547758,07"), Some(i64::MAX));
}

#[test]
fn formatted_amounts_parse_back() {
    for cents in [0, 5, 99, 100, 245, 1234, 987654321] {
        assert_eq!(parse_price_to_cents(&format_cents(cents)), Some(cents));
    }
}

#[test]
fn history_and_removal() {
    let mut db = Db::default();
    db.insert(purchase(1, "Pain", "Lidl", 100, 1.0, 3));
    db.insert(purchase(2, "pain", "Aldi", 110, 1.0, 1));
    db.insert(purchase(3, "Cafe", "Aldi", 500, 1.0, 2));
    db.insert(purchase(4, "PAIN ", "Aldi", 120, 1.0, 3));
    let history: Vec<u64> = db.history("pain").iter().map(|p| p.id).collect();
    // Newest first, the same-day pair ordered by id.
    assert_eq!(history, vec![4, 1, 2]);
    let recent: Vec<u64> = db.sorted_recent_first().iter().map(|p| p.id).collect();
    assert_eq!(recent, vec![4, 1, 3, 2]);
    db.remove(1);
    assert_eq!(db.purchases.len(), 3);
    assert!(db.purchases.iter().all(|p| p.id != 1));
    assert_eq!(db.next_id(), 5);
}

#[test]
fn summaries_are_sorted_by_folded_name_and_track_the_previous_price() {
    let mut db = Db::default();
    db.insert(purchase(1, "pain", "Lidl", 100, 1.0, 1));
    db.insert(purchase(2, "Beurre", "Lidl", 200, 1.0, 2));
    db.insert(purchase(3, "Pain", "Aldi", 120, 1.0, 3));
    let summaries = db.summaries(None);
    let names: Vec<&str> = summaries.iter().map(|s| s.product.as_str()).collect();
    assert_eq!(names, vec!["Beurre", "Pain"]);
    assert_eq!(summaries[1].latest.id, 3);
    assert_eq!(summaries[1].previous.as_ref().map(|p| p.id), Some(1));
    assert_eq!(summaries[0].previous, None);
    assert_eq!(summaries[1].stores.len(), 2);
    assert_eq!(summaries[1].stores[0].store, "Aldi");
    assert_eq!(summaries[1].stores[0].last_date, date(3));
    assert!(db.summaries(Some("Carrefour")).is_empty());
}

#[test]
fn plan_groups_file_positions_under_each_store() {
    let best = vec![Some("Lidl".to_owned()), None, Some("aldi".to_owned()), Some("LIDL".to_owned())];
    let groups = plan_groups(&best);
    assert_eq!(groups, vec![("Lidl".to_owned(), vec![0, 3]), ("aldi".to_owned(), vec![2])]);
}
