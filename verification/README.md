# psicode-sim

A simulator of an optical screen-to-camera link: symbols of 61 by 61 cells are
shown on a display, photographed through blur, noise, crosstalk and a rolling
shutter, and read back.

The library holds the discrete part of the simulator, verified with Verus:
reproducible random streams, payloads and their scoring, torn frames and their
attribution, transport blocks and majority votes, borders, marks and masks,
binary sequences of full period and the arrays folded from them, peaks and
lobes of correlation surfaces, searches on a grid, profiles, sweep points,
command lines and image files. The program in `app/` adds what is real-valued
or touches the outside world: the channel, the Fourier transform, the fits, the
tables it prints and the files it reads.

## Layout

- `src/` is the library. Each function states its result in its contract;
  theorems about the library as a whole are public proof functions beside the
  functions that they speak of.
  - random numbers and arithmetic: `rng`, `bits`, `sums`
  - sequences and arrays: `lfsr`, `marray`
  - images: `image`, `grid`, `mask`, `border`, `report`, `dump`
  - frames and cells: `symbol`, `framed`, `pipeline`, `survival`, `tally`, `l3live`
  - profiles and command line: `profile`, `live`, `args`, `command`, `text`
  - studies: `finder`, `rank`, `search`, `probe`, `gprobe`, `modeb`, `cellfloor`
- `tests/` runs the library on concrete values.
- `app/` is the `psicode-sim` program. It needs the `psicode_core` crate for the
  symbol codec: rendering, detection, demodulation and the transport frames.

Reals that the library has to compare come to it as 64-bit keys (`rank::order_key`)
that order as the numbers do; probabilities come as thresholds on 53-bit draws.
