# linera_parsing_tools

Tools that run Linera benchmarks, read their logs and query Prometheus for
the metrics of a run, with their text handling and decision logic proved
correct by Verus.

## Layout

- `src/` is the verified library:
  - `text`: splitting, trimming, decimal printing and parsing over characters;
  - `keys`: metric keys and their units, the single-line view of a report;
  - `prometheus`: sorting a range query's answer into per-job sample lists;
  - `timefmt`: time stamps and durations as Prometheus queries take them;
  - `analysis`: chat formats, data dropping and the choice of metric keys;
  - `extract`: benchmark reports, log lines and trace lines;
  - `commands`: environments, command lines and the decisions between runs;
  - `config`: the job names of a Prometheus configuration file;
  - `laws`: properties that relate several of the above.
- `app/` holds the programs themselves: argument handling, files, processes,
  HTTP queries through `curl`, and the floating-point statistics.
- `tests/` runs the library on concrete values.
