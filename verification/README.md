# huex

`huex` extracts the dominant colours of an image: it samples the visible pixels, clusters
them in Oklab with k-means++, merges clusters that lie closer than a perceptual threshold,
and reports the palette as terminal text, JSON or an SVG swatch strip.

## Layout

- `src/` — the verified library (Verus). Everything that can be stated without floating
  point lives here, each function with a contract:
  - `rng` — the seeded xorshift generator;
  - `sample` — reservoir sampling of pixels;
  - `color` — `Rgb8`, its `#RRGGBB` text, compositing RGBA over white;
  - `decode` — decoding image bytes (through the `image` crate) into visible pixels;
  - `rank` — population counts, stable weight ordering, first minimum/maximum;
  - `kmeans` — k-means++ seeding, Lloyd iterations and the final palette, for any centre
    type, distance and mean;
  - `merge` — merging close clusters, for any centre type and distance, with the laws that
    merging is deterministic and idempotent;
  - `determinism` — the law that Lloyd's iterations are deterministic;
  - `harmony` — harmony modes and their hue rotations;
  - `config` — command-line validation and choice of report layout;
  - `render`, `text` — the terminal and SVG report layouts, escaping and number text.
- `app/` — the command line around it: clap parsing, file and stdin input, the
  floating-point colour science (Oklab conversion, distances and means, the weighted
  k-means++ draw, hue rotation), serde JSON output.
- `tests/` — tests of the library, including comparisons with independently written models
  of the generator, the sampler and floating-point compositing.
