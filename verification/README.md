# card_ledger

Bookkeeping for a small card print shop: orders, expenses, price lists and
period reports, dated in the Jalali calendar.

- `src/` is the verified library (Verus):
  - `category`, `category_manager`: expense categories and their tree, built
    in an `indextree` arena; the leaves offered when filing an expense, with
    their paths, sorted.
  - `pricing`: suppliers and shipping costs, card-code prefixes, price
    rounding, design-cost options, order totals.
  - `report`: the income / outcome / summary lines of a period report.
  - `calendar`: Jalali dates through `parsidate`, date lists for the pickers,
    the date-filter menu, month periods.
  - `text`: decimal and thousands-grouped number text, string order.
- `app/` is the interactive program: prompts, SQLite storage, tables,
  spreadsheets, and the floating-point price arithmetic.
- `tests/` runs the library on concrete values.
