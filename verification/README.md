# solana-shm-accounts

Snapshots of Solana accounts in a memory region that one writer and many
readers in other processes share.

- `src/` is the verified library. It fixes the format of the region
  (`layout`, `records`, `bytes`), reads what a region says about itself
  (`region`, `table`, `index`), computes the stores with which a writer changes
  it (`memory`, `writer`), and takes the decisions of a reader (`seqlock`,
  `reader`, `snapshot`). `creation`, `operations`, `consistency`, `runs`
  and `header` state and prove what holds of all of it: no reader keeps a torn
  copy, and what is read is what was last written. This holds of regions that
  are quiet when the writer starts, that is, whose slots all have even versions,
  as after their creation, and of reads during which the version of the slot
  changes fewer than 2^64 times. A writer that dies within a write leaves an odd
  version; who takes over the region then writes that slot under an even one,
  and readers may keep torn copies of it. The proofs take the stores of a writer
  to become visible in the order in which they are listed. `clock` reads the
  time. `pre_accounts_collector` collects the accounts of a batch of
  transactions.
- `app/` maps files, performs the stores, and runs the loops of the readers.
  Stores that publish are atomic with release ordering, and a release fence
  follows each of them. So the data of a slot never becomes visible before the
  odd version that announces the change, nor after the even version that ends
  it.
- `tests/` runs the library on regions in ordinary memory.

Words in the region are little-endian.
