use panier::entry::{EntryError, check_entry};
use panier::text::name_matches;

#[test]
fn an_entry_is_checked_product_first_then_store_then_price() {
    assert_eq!(check_entry("  ", "", "abc").err(), Some(EntryError::Product));
    assert_eq!(check_entry("Lait", " \t", "abc").err(), Some(EntryError::Store));
    assert_eq!(check_entry("Lait", "Lidl", "abc").err(), Some(EntryError::Price));
    assert_eq!(check_entry("Lait", "Lidl", "-1").err(), Some(EntryError::Price));
}

#[test]
fn an_accepted_entry_holds_collapsed_names_and_cents() {
    let entry = check_entry("  Beurre   doux ", " Lidl ", "2,49 €").ok().unwrap();
    assert_eq!(entry.product, "Beurre doux");
    assert_eq!(entry.store, "Lidl");
    assert_eq!(entry.price_cents, 249);
}

#[test]
fn the_search_ignores_case_and_spacing() {
    assert!(name_matches("Beurre  Doux", "beurre d"));
    assert!(name_matches("Lait", "AI"));
    assert!(name_matches("Lait", ""));
    assert!(name_matches("Lait", "   "));
    assert!(!name_matches("Lait", "laits"));
    assert!(!name_matches("Lait", "pain"));
    assert!(!name_matches("", "a"));
}
