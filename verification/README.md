# cworm

A screensaver for text terminals: one worm per CPU, as long as its CPU is busy, crawling faster the
longer it is.

The library under `src/` is written in Verus, and everything it decides is proved against the
contracts of its functions:

- `rng` - the pseudo-random numbers
- `shape` - lengths, speeds, directions and shades
- `text` - lines, fields and numbers in the kernel's text files
- `cpu` - the load of each CPU, from two readings of its counters
- `worm` - one worm: where it starts, how it crawls and bounces
- `state` - all worms: when the load is looked up, who moves and when
- `screen` - painting the worms into a ratatui buffer
- `input` - what events at the terminal lead to

The program under `app/` reads `/proc`, the clock and the terminal, and hands plain values to the
library. The step delay that goes with the load average is computed there, in floating point.
