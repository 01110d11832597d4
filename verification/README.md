# elude

Jobs that declare what they read and write are run side by side as far as their declarations allow,
over columnar tables whose memory comes from a pool of pages.

The library is under `src/`: everything in it is verified with Verus. What needs threads, the
allocator or a blocking lock is under `app/`, around the library's decisions.

- `depend`, `normalize`, `error`, `job`, `plan`: dependencies, how jobs are related, and what is wrong
  with a job whose dependencies clash.
- `work`, `progress`, `bonds`, `stalls`, `worker_runs`, `graph`: workers, which bind jobs as they are
  declared.
- `pages`, `paging`, `attend`, `layout`, `word`, `waits`, `scheduler`: schedules that keep jobs apart
  by locks on pages.
- `groups`, `frontier`: schedules of groups that run one after the other.
- `variants`, `variant_runs`, `orient`, `chain`, `ready`, `order`, `adaptive`: schedules that orient
  every conflict, in several ways, and learn which is the fastest.
- `clusters`, `kernel`, `compiled`: schedules of clusters of jobs. `runner` and `conduct` run them;
  `exclusion`, `crews` and `singles` say what each step keeps, and `rounds` and `courses` what holds
  of a whole run.
- `memory`, `supply`, `simple_memory`: the pools of pages.
- `lock`, `multex`: locks over a selection of values.
- `schema`, `store`, `template`, `query`, `dynamic`, `table`, `steps`, `builder`: tables, what is in
  them, and how they are looked through.
- `bits`, `keys`, `utility`, `dag`: sets of bits, maps by key, sorted lists and graphs.
