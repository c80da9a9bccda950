# cdr-outline

Cut outlines and keyholes for pictures in CorelDRAW documents, as they are needed for
acrylic products: a bitmap with a transparent edge gets an outline at a distance, a ring
for a keyhole is put at its top, and the two are welded.

The decisions are made by a library that Verus verifies:

| | |
| --- | --- |
| `src/domain.rs`, `src/raster.rs`, `src/trim.rs`, `src/rings.rs`, `src/page.rs` | paths, alpha masks, trimmed pictures, rings |
| `src/names.rs`, `src/shapes.rs`, `src/selection.rs`, `src/process.rs`, `src/merge.rs`, `src/transaction.rs` | what the selection means, and what is changed in the document |
| `src/svg_tag.rs`, `src/svg_transform.rs`, `src/svg_image.rs`, `src/svg_export.rs`, `src/export_run.rs`, `src/picture_export.rs`, `src/xml.rs` | exporting documents as SVG |
| `src/verify.rs`, `src/digest.rs` | holding what was drawn against what was to be drawn |
| `src/cli.rs`, `src/processor.rs`, `src/desktop.rs`, `src/printflow.rs`, `src/preview.rs`, `src/deployment.rs`, `src/updater.rs` | the programs and how they talk |
| `src/measure.rs`, `src/gap.rs`, `src/text.rs`, `src/scan.rs`, `src/first_met.rs` | bit patterns of numbers, texts, bytes |

Measurements are handled as the bit patterns of binary64 numbers. The library compares
them, and tells exactly whether their rounded difference is within a tolerance; arithmetic
on them is left to the programs in `app/`.

`app/` holds the programs: `cdr-raster` makes previews of exported bitmaps, `cdr-corel`
processes the active document through COM, and `cdr-desktop` is the window around it.
The latter two need Windows and CorelDRAW 2020.

`cdr-corel process-selection` gives every selected bitmap its outline and its hole, on a new
layer `RUST_OUTPUT`; `cdr-corel merge-selected-holes` welds outlines and holes that are there.
