# wbi_rs

Fetch, store, summarize and chart World Bank indicator series, with the
logic verified by Verus.

## Layout

- `src/` — the verified library.
  - `api.rs`: request URLs (percent-encoded code lists, paging with a page
    cap, per-indicator fallback) and unit enrichment from indicator metadata.
  - `models.rs`, `stats.rs`, `order.rs`: the data model, grouped summaries
    by `(indicator, country)` and the orderings they rely on.
  - `storage.rs`: spreadsheet-safe CSV cells and JSON rows.
  - `cli.rs`, `gui.rs`: argument parsing, output-format inference, form
    validation and the decisions of the desktop front end.
  - `style.rs`, `viz_style.rs`: deterministic series styling.
  - `viz/`: series preparation, axis units and scales, text width, wrapping
    and truncation, and legend layout.
  - `numfmt.rs`, `decimal.rs`, `chars.rs`: number formatting and text
    helpers.
- `tests/` — tests of the library.
- `app/` — the command-line program: HTTP, files, and drawing with
  `plotters`, driven by the library.
