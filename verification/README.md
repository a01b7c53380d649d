# rtk

Noise reduction for the output of command-line tools, with proofs.

`src/` is the verified library. Texts are sequences of characters, and every function says in
its contract what it makes of them.

- `auto_filter`, `dedup`, `utils`: the pipeline of filters for arbitrary output.
- `bun_cmd`, `deno_cmd`, `context_cmd`, `read`, `watch_cmd`, `process`: filters and views of
  single commands.
- `cache`, `hashing`, `line_diff`: cache keys, lifetimes and differences.
- `discover`: what past sessions could have saved. `summary` adds up, `report` writes.
- `gain`: what was saved. `coverage` adds up, `pages`, `failures` and `export` write.
- `hook_rewrite_cmd`: the hook that rewrites commands before they run.
- `text`, `number`, `order`, `grouping`, `style`, `patterns`, `comment`: what the others stand
  on.

`tests/` runs the library. `app/` is the ordinary Rust around it: running programs, files,
printing, floating-point percentages and JSON of whole records.
