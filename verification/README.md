# dist-rust-buted

A small distributed-systems playground — a service-discovery dictionary, a
greeter and a set of math services behind a calculator — whose logic is
written and proved in Verus.

- `src/` is the verified library:
  - `svc_mat/calc/parse.rs`: the prefix-expression parser (`+ 1 - 3 4`), with
    its behaviour on every input stated by `parse_at`;
  - `svc_mat/calc/eval.rs`: the evaluation plan of an expression and the
    machine that asks for each connection and remote call in turn, proved to
    compute what the recursive evaluation computes;
  - `svc_mat/ops.rs`: the division and multiplication services' answers;
  - `svc_dsc/serdict.rs`: the service registry (register, deregister, look up,
    list, drop silent services);
  - `dst_pfm.rs`, `hello.rs`: service configuration and the greeter.
- `app/` holds the gRPC servers and clients, the clock and the loops that
  perform what the library decides.
- `tests/` exercise the library.
