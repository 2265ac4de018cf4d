# cw_plus

Storage helpers and a chain model for CosmWasm contracts, written in Verus and proved
against their contracts.

- `src/` is the verified library.
  - Storage: typed items and maps (`item`, `map`, `keys`, `int_key`, `path`, `prefix`,
    `bound`), queues and deques (`deque`, `queue`), indexed maps (`indexes`,
    `indexed_map`) and snapshotted values (`snapshot`), all over cosmwasm-std's
    `MemoryStorage`.
  - `multitest`: the decisions of a test chain. Bank balances, staking and
    distribution, the Terra market, the contract module, and the write cache that lets a
    step's writes reach the store only when the step succeeded.
  - `cw4` and `cw721`: the group and NFT message helpers.
- `tests/` runs the library on concrete values.
- `app/` holds what Verus cannot check: JSON through serde, address checks through a
  chain's `Api`, and conversions to and from the chain's own types.

The contracts are stated over mathematical views: byte maps for storage, sequences for
queues, and models of the staking and bank state. The laws that span several
operations, such as what a snapshot read returns after a history of writes or that
maps with different namespaces never share a key, are public proof functions next to
the code they speak of.
