# diss_check

Dissertation formatting compliance checks, verified with Verus. A PDF is
read into a page model of positioned text spans; checks configured in an
institution's YAML specification run over that model and report PASS,
FAIL, MANUAL or ERROR with evidence.

Lengths are integers in thousandths of a point (1pt = 1000, 1in = 72000),
measured from the top-left corner of the page.

## Layout

- `src/` — the verified library
  - `document.rs` — the page model
  - `extract.rs` — cutting the text runs a PDF reader reports into word spans
  - `params.rs` — check parameters as plain values
  - `spec.rs` — an institution's specification
  - `engine.rs` — running the checks of a specification, summaries, exit status
  - `text.rs` — trimming, UTF-8 lengths, search, joining, case folding, ordering
  - `checkers/` — the checkers and their registry
    - `measure.rs` — reading settings such as `1.25in` and `12pt`
    - `layout.rs` — margins and margin symmetry
    - `typography.rs` — font sizes, weights and families
    - `structure.rs`, `sections.rs` — section detection, presence and order
    - `tables_figures.rs` — images within the margins
    - `human.rs` — checks left to manual review
    - `render.rs` — the report sentences made of text and whole numbers
- `tests/` — tests of the library
- `app/` — the `diss-check` command: argument handling, reading the YAML
  specification and the PDF (pdf_oxide), and text or JSON reports

## Checkers

Registered by category and name: `layout/margins`,
`layout/margin_symmetry`, `typography/font_size`, `typography/font_weight`,
`typography/font_family`, `structure/section_presence`,
`structure/section_order` and `human/review` (manual review, reporting the
configured `prompt`). `TablesFiguresMarginsChecker` is available but not
registered.

The other checkers of the catalog (`justification`, `page_numbers_format`,
`headings_consistent`, `new_chapters_new_pages`, `hyperlinks_format`,
`title_page_no_page_number`, `acceptance_page_number`, `cv_no_page_number`,
`boilerplate_match`, `committee_order`, `toc_title_parity`, and the title
page, abstract, references, CV and TOC checks) are not part of this
library. An automatable check that names one of them is reported as an
error, "no checker registered".

Each checker states what it reports as a spec function (`margins_outcome`,
`size_outcome`, ...) and its `check` is proved to return exactly that.
