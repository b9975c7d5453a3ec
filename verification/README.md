# vc

Fetches VPN subscription lists named in `urls.json`, decodes those that
are base64, saves each as `output/{id}.txt` (cut into `output/{id}-{n}.txt`
parts past a number of configurations per file) and writes
`output/urls.txt`, an index of direct links to every output file.

- `src/` is the library, verified with Verus: the source list and its
  order, the plain-or-base64 rule, splitting at line boundaries, what a
  save writes and removes, settings, the natural order of the index, and
  the decisions that follow each fetch and save.
- `app/` is the program around it: reading files and the environment,
  HTTP with `reqwest`, Tokio tasks, printing. Run as `vc [urls.json]
  [output_dir] [max_per_file]`, or under the name `split-output
  [output_dir]` to cut existing large files into 1 MiB parts.
- `tests/` exercises the library on concrete inputs.
