# kiri

Cuts a product out of a photograph whose background is (nearly) of one colour.

`src/` is the library, written in Verus. It holds everything that is decided: what
the background is, which pixels are filled, how the boundary is refined, what a
result is worth, and which settings are tried next. Every function states what it
returns, and Verus proves it.

- `raster`, `geometry`, `sorting`, `sums`, `tally`: pictures and counting
- `cutout::background`, `edges`, `fill`, `field`, `subject`: what an image shows
- `cutout::floodfill`, `connect`, `sealing`, `morphology`, `constraints`, `polygon`,
  `luma`: the two-valued mask
- `cutout::refine`, `reshape`, `repaint`, `local_colour`, `classify`, `cells`,
  `matte`, `guided`, `evening`, `slopes`, `recover`, `refining`: the boundary
- `cutout::feather`, `blur`, `despill`, `finish`, `pipeline`: the result
- `cutout::diagnostics`, `contour`, `chamfer`, `separability`, `report`, and
  `warning`: what a result says of itself
- `cutout::optimize`, `search`: the search for the best settings
- `laws`: what holds of the library as a whole

Colour distances come into the library as keys: the bits of a number that is not
negative, which keep its order. Light is counted in whole parts of full light.

`app/` is the command line. It reads and writes files, measures distances between
colours, and walks along the contour between pixels.
