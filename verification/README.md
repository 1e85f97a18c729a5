# resppress

A RESP (Redis protocol) load generator and the CPU burners of a vCPU and
cgroup lab, with the logic verified by Verus.

## Layout

- `src/` — the verified library:
  - `decimal.rs`: decimal text written and read back, as `str::parse` reads it;
  - `resp.rs`: command frames (`encode`) and the reply parser (`find_crlf`,
    `parse_one`) against a specification of one complete reply;
  - `config.rs`: the load generator's flags (`parse_args`);
  - `session.rs`: the request batch, the rounds, the reading of a round's
    replies out of the received bytes, the reply counts;
  - `stats.rs`: sorting, percentiles, histogram buckets and bars;
  - `report.rs`: the summary box, the latency table and the histogram as
    lines of text;
  - `burn.rs`, `stalls.rs`: the CPU burners, with the clock behind small
    trusted wrappers;
  - `heartbeat.rs`: the worst wake-up delay a heartbeat task has seen;
  - `text.rs`: padding, repeating, joining characters.
- `tests/` — tests of the library on concrete values.
- `app/` — the programs: argument reading, the network (tokio), threads,
  timing, floating-point formatting and printing. The first argument names
  the program (`baseline`, `threads`, `stalls`, `nproc`, `workers`,
  `heartbeat`, `ioload`, `step01` to `step05`); otherwise the load generator
  runs with all the arguments.
