# plotui-core

The integer core of a terminal plotting engine, verified with Verus, and a
thin floating-point layer around it.

`src/` is the verified library:

- `style`, `layered` (`RankDir`), `controls`: the option enums, their wire
  names and parsers, the input map and error messages.
- `color`, `font`: colour blends that are exact in integers, the grey a
  colour drains to (single-precision rounding modelled in fixed point),
  colorways, the chrome palette, RGBA flattening, text advance widths and
  glyph lookup.
- `readout`, `legend`, `frame`: where the crosshair readout panel goes,
  which legend row a pixel hits, and a 2D frame's scale, title and slider
  decisions, margins and plot rect.
- `calendar`, `dates`: civil dates to day numbers and back, epoch seconds
  split into date and time of day, zero-padded date and time labels, and
  the calendar walks that place time-axis ticks.
- `categories`: which categories a categorical axis labels.
- `graph`: reachability along or against edge direction.
- The layered ("Sugiyama") graph layout, phase by phase: `layered` and
  `search` (cycle removal by depth-first search), `ranking` and `kahn`
  (longest path in Kahn's order, then tightening), `dummies`, `crossings`,
  `ordering` and `walk` (depth-first seed and barycenter sweeps, with
  barycenters rounded as single-precision floats by `single`), `sweeps`
  (crossing reduction), `placement` (placement order) and `plan`, which
  chains the phases.
- `roster`: per-trace show/hide and legend mute, the colour sequence, bar
  grouping, right-hand axes, the drawn vertex count, the flat node and edge
  index spaces with the highlights that follow them, and which traces take
  which updates.
- `groups`, `mesh`: splitting a flat sample into groups and edge routes,
  and the triangle indices that close a swept tube.
- `prng`: the seeded generator's integer draws, which the force-directed
  layout scales into `[0, 1)`.

`app/` holds what is computed in floating point — tick steps and numeric
labels, the force-directed layout, node coordinates of the layered layout,
tube and ribbon sweeps, and colour-ramp sampling — on top of the
library.

The renderer itself — the `Plot` type with its traces and float data, the
framebuffer and rasterizer, the 3D camera, picking and text drawing — is
not carried over: it is
floating-point through and through, far larger than the thin layer `app/`
is meant to be, and it draws its text from a compiled glyph table that is
not part of this source. Its integer decisions (visibility, mute, colour
slots, bar groups, right-hand axes, flat node and edge indices, the readout
and legend placement) are what `roster`, `readout` and `legend` hold.

`tests/` exercises the library on concrete inputs.
