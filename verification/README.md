# range_reverse

Sequences of `u32` under one operation: reverse the elements from position `l` to
position `r`. There are eight methods, all verified with Verus against the same
mathematical statement of what a range reversal is (`seqs::reversed`).

| Method | Module | Idea |
| --- | --- | --- |
| `brute`, `std`, `avx2` | `brute` | reversal in place, one, one and eight elements at a time |
| `treap` | `treap` | a tree with random priorities that is split and merged |
| `splay` | `splay` | a tree in which the ends of the range are rotated to the top |
| `sqrt` | `sqrt` | blocks with a lazy flag |
| `sqrt_bitset` | `sqrt_bitset` | the flags are bits of block descriptors, the blocks live in an arena |
| `sqrt_bitset2` | `sqrt_bitset2` | two levels: superblocks of blocks, each with two lazy flags |

## The other modules

- `seqs`, `tree`, `superblock`: the mathematics of sequences in pieces, of trees in an
  arena, and of superblocks.
- `blocks`, `arena`, `desc`: block lengths, the arena with its free list, and
  descriptors with flag bits.
- `ds`: all methods behind one type. `rng`, `workload`, `plan`: drawn workloads, trials of
  the methods against plain reversal, and the order of a measurement.
- `digits`, `swar`, `lanes`, `wrap`, `fast_in`, `fast_out`: reading and writing numbers as
  text, eight, sixteen or thirty-two bytes at a time.
- `solve`: reads ranges, reverses them in the numbers from 1 to `n`, writes the result.
- `laws`: what holds of the library as a whole. What holds of one structure (`law_blocks`,
  `law_slots`, `law_sizes`, `law_flags`, `law_split_merge`, `law_scanned`) stands beside it.

`app/` is the program around the library: standard input and output, the clock, and
floating point. `range_reverse solve < input` answers queries; `length`, `batch` and
`bsweep` run measurements.
