//! The entry form's checks on a receipt line, in the order it makes them.
use vstd::prelude::*;
use crate::money::{parse_price_to_cents, price_cents_of};
use crate::text::{chars_of, normalize, normalized};

verus! {

/// Why the entry form refuses a line: the first field found wrong.
#[derive(Clone, Copy, Debug, PartialEq, Eq, Structural)]
pub enum EntryError {
    /// No product name once whitespace is collapsed.
    Product,
    /// No store name once whitespace is collapsed.
    Store,
    /// The price is not a non-negative amount.
    Price,
}

/// A line that passed the checks: names collapsed, price in cents.
pub struct Entry {
    pub product: String,
    pub store: String,
    pub price_cents: i64,
}

/// What the form makes of a line: the product is checked first, then the store,
/// then the price.
pub open spec fn entry_of(product: Seq<char>, store: Seq<char>, price: Seq<char>) -> Result<
    (Seq<char>, Seq<char>, i64),
    EntryError,
> {
    if normalized(product).len() == 0 {
        Err(EntryError::Product)
    } else if normalized(store).len() == 0 {
        Err(EntryError::Store)
    } else {
        match price_cents_of(price) {
            None => Err(EntryError::Price),
            Some(c) => Ok((normalized(product), normalized(store), c)),
        }
    }
}

/// Checks a receipt line's product, store and price, in that order.
pub fn check_entry(product: &str, store: &str, price: &str) -> (r: Result<Entry, EntryError>)
    requires
        price@.len() <= isize::MAX,
    ensures
        match r {
            Ok(e) => entry_of(product@, store@, price@) == Ok::<_, EntryError>(
                (e.product@, e.store@, e.price_cents),
            ),
            Err(k) => entry_of(product@, store@, price@) == Err::<(Seq<char>, Seq<char>, i64), _>(
                k,
            ),
        },
        r matches Ok(e) ==> e.product@.len() > 0 && e.store@.len() > 0 && e.product@ == normalized(
            product@,
        ) && e.store@ == normalized(store@) && price_cents_of(price@) == Some(e.price_cents),
        normalized(product@).len() == 0 ==> r matches Err(EntryError::Product),
        normalized(product@).len() > 0 && normalized(store@).len() == 0 ==> r matches Err(
            EntryError::Store,
        ),
{
    let product_name = normalize(product);
    if chars_of(product_name.as_str()).len() == 0 {
        return Err(EntryError::Product);
    }
    let store_name = normalize(store);
    if chars_of(store_name.as_str()).len() == 0 {
        return Err(EntryError::Store);
    }
    match parse_price_to_cents(price) {
        None => Err(EntryError::Price),
        Some(c) => Ok(Entry { product: product_name, store: store_name, price_cents: c }),
    }
}

/// A line is accepted only with a product and a store, both non-empty once
/// whitespace is collapsed, and a price that reads; the fields are checked in form
/// order, so an empty product is reported before anything else, and an empty store
/// before the price. An accepted line holds the collapsed names and the price's
/// cents.
pub proof fn lemma_entry_refuses_missing_fields(product: Seq<char>, store: Seq<char>, price: Seq<char>)
    ensures
        normalized(product).len() == 0 ==> entry_of(product, store, price) == Err::<
            (Seq<char>, Seq<char>, i64),
            EntryError,
        >(EntryError::Product),
        normalized(product).len() > 0 && normalized(store).len() == 0 ==> entry_of(
            product,
            store,
            price,
        ) == Err::<(Seq<char>, Seq<char>, i64), EntryError>(EntryError::Store),
        normalized(product).len() > 0 && normalized(store).len() > 0 && price_cents_of(price) is None
            ==> entry_of(product, store, price) == Err::<(Seq<char>, Seq<char>, i64), EntryError>(
            EntryError::Price,
        ),
        entry_of(product, store, price) matches Ok((p, s, c)) ==> p.len() > 0 && s.len() > 0 && p
            == normalized(product) && s == normalized(store) && price_cents_of(price) == Some(c),
{
}

} // verus!
