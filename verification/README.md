# laser_halftone

Turns a photo into layered stencils that a laser cuts and paint is sprayed through: one
sheet for each ink of a halftone, or one for each colour of a stencil. The logic is a
library that Verus proves; a small program around it reads images, draws the window and
writes the files.

## The library

`src/` works on whole numbers throughout, so that every width, place and text that comes
out is stated exactly. Lengths on the canvas are in millionths of a pixel while a screen is
cut and in thousandths once an outline is drawn; tones are shares of `screen::FULL`; sheets
are laid out in nanometres.

| modules | what they hold |
|---------|----------------|
| `grid`, `components`, `gap`, `tab`, `bridge` | sheets as grids of cells, their islands, and the tabs that tie islands to the frame |
| `regions`, `trace`, `ring_laws`, `smooth`, `curve` | merging specks, tracing outlines, simplifying and rounding them |
| `chamfer`, `fragility`, `stripe_laws` | how much of a sheet is cut and how thin its thinnest strands are |
| `lab`, `cluster`, `order`, `separation`, `inks` | colours, palettes and inks |
| `tone`, `sampling`, `blur`, `orientation`, `bilateral`, `warp` | tones of inks, reading and blurring maps, edges, directions of change, smoothing and perspective |
| `lattice`, `strokes`, `waves`, `dots`, `screen`, `hatch`, `raster` | the screens: lines, waves, dots, diffused dots and hatching |
| `plane`, `strip_laws`, `line_laws`, `diffusion_laws`, `hatch_laws` | what the screens keep: darker tones cut more, and cuts keep their distance |
| `stencil`, `job`, `preview` | the two kinds of work as a whole |
| `paper`, `svg`, `text`, `chars` | sheets of paper and documents |
| `number`, `settings`, `preset`, `preset_laws`, `cli`, `session` | knobs, presets, arguments and what the window does next |
| `picture` | decoding and encoding images, through the `image` crate |

What the library promises as a whole stands in public proof functions: that bridged islands
reach the frame and nothing but single cells is lost, that a second pass of bridging changes
nothing, that traced outlines close, that cuts leave the least material between them, that
diffused dots never touch and carry the ink that was asked for, that darker lines cover what
lighter ones do, that later hatching keeps clear of earlier cuts, that one ink's
load changes that ink's sheet only, that wider strands never read a thinner neck, that sheets
share their marks, that a preset gives back what was saved, and more. Their doc comments say
each in words.

## The program

`app/` holds `main`, the window, the files, and the arithmetic that needs floating point:
gamma and the spray curve, the weights of blurs, and sines.
