# rexporter

A lightweight Prometheus host-metrics agent for Linux, verified with Verus.

- `src/` is the verified library:
  - `text.rs`: character-level primitives (lines, words, `u64` parsing and
    formatting, trimming), each stated over the `Seq<char>` view of a string;
  - `metric_map.rs`: a map from names to samples kept in ascending name order;
  - `metrics.rs`: parsers for `/proc/stat`, `/proc/meminfo`, `/proc/diskstats`
    and `/proc/net/dev`, each with an exact specification of what a file's
    contents give;
  - `render.rs` and `render_facts.rs`: the Prometheus text exposition as a
    run of metric families, and its laws (every sample under the `# HELP` and
    `# TYPE` lines of its own metric, distinct families, eight lines per core);
  - `http.rs`: which path a request asks for, how it is routed and the bytes
    of the response;
  - `collect.rs`: from the contents of the `/proc` files to the text.
- `app/` is the program around it: reading `/proc`, the load averages and the
  uptime (floating point), the socket loop, and the command line.
- `tests/` runs the library on fixtures.

CPU time is kept in clock ticks (`USER_HZ` = 100 per second) and rendered as
the exact decimal number of seconds.
