# matcha_ecs_widgets

Widget logic for a retained-mode UI, with its behaviour stated in contracts
and proved by Verus.

## Layout

- `src/` is the verified library:
  - `glyph_cache`: a fixed-capacity LRU cache with per-batch protection, as a
    glyph atlas uses it; modelled as a recency-ordered key sequence, a key to
    value map and per-key batch stamps.
  - `rich_text`: CSS `text-transform` and `white-space: normal` collapsing,
    with span byte ranges remapped through the collapse, and the assembly of
    a rich text's base text and spans.
  - `shape`: the separable three-pass box blur that turns a coverage bitmap
    into a shadow, and the key coverage bitmaps are cached under.
  - `text_box`: which editing action a key press stands for, and when a
    re-declared value overwrites the editor.
  - `font`: which fonts a text stack has been given, by handle identity, and
    the one-shot default-family slot.
  - `imaging`: decoding encoded image bytes and fitting an image to its box
    through the `image` crate.
  - `interaction`: which per-state value a widget shows for the pointer state.
  - the small vocabulary the widgets share: layout kinds and CSS alignment,
    scroll axes and overflow, easing curves, shared cells.
- `app/` holds what stays outside the proofs: floating-point geometry and
  colour arithmetic (layout distribution, scrollbar metrics, the signed
  distance field a box is rasterised from), the `f32` shared cells, and
  decoding an image from a file path.
- `tests/` exercises the library on concrete values.
