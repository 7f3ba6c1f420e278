# nnue_accumulator

Accumulators for the first layer of an efficiently updatable neural network that evaluates chess
positions. The library is written in Verus: each function carries a contract, and the contracts are
proved.

- `accumulator`: the accumulators, their refresh from a board and their incremental updates.
- `features`: the input features and the sums of their weights; `FeatureSet` is the numbering of
  the threats and the pairs of pawns.
- `layout`: one such numbering.
- `indexes`, `totals`, `buffers`: the lists of weight offsets, and why they give those sums.
- `simd`: registers of lanes, and tiles of registers.
- `squares`, `board`, `attacks`: the chess that features speak of.
- `laws`, `capacity`: what holds of the operations together, and how many features there can be.

An accumulator is worked through in tiles of 256 lanes. Lanes behind the last whole tile are left
as they are, except where an update without changes copies the accumulator.
