# nitc_blocks

A small proof-of-work ledger, verified with Verus.

Four ledgers share the same building blocks: SHA3-256 hex digests, Merkle
trees over transactions, balance transfers, block sealing with a nonce search
and a miner election. Each ledger reads its input lines, runs its
transactions, seals them into hash-chained blocks and renders the blocks as
text.

Layout:

- `src/`: the verified library. `digest`, `text`, `input`, `merkle`,
  `ledger`, `mining`, `sealing` and `transaction` hold the shared parts;
  `stage1`, `stage5`, `arun` and `modification` the four ledgers, each with
  its block-producing loop, its input format and its output.
- `tests/`: tests of the library on concrete values.
- `app/`: the command-line program: reads standard input, picks a ledger by
  its first argument (`stage1`, `stage5`, `arun`, `modification`) and prints
  the blocks.
