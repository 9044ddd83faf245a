# Panier

A grocery price notebook: every line of every receipt goes in, and the app
answers two questions from them — what does this cost here compared with
elsewhere, and where should each thing be bought.

`src/` is the library, verified with Verus:

- `text` — whitespace collapsing, case folding, the product search and the
  FNV-1a product key.
- `units` — storage and entry units.
- `decimal` — decimal numbers as typed, kept exact, and digit-string arithmetic.
- `double` — rounding to double precision, held in integers.
- `money` — cents formatted as euros, and the lenient reading of a typed price.
- `entry` — the entry form's checks on a receipt line.
- `order` — the stable insertion sort the history is ordered with.
- `db` — the purchase list: insertion, removal, suggestions, history and the
  per-product overview.
- `plan` — filing products under the store that sells them cheapest.
- `theme` — the colours and font rules the first paint needs.
- `laws` — properties that span several of the functions above.

`app/` is the Dioxus application around it: storage, the pages, and the
floating-point pricing (unit prices, store averages, trends) that the library
leaves to its caller. `tests/` exercises the library from outside.
