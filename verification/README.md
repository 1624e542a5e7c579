# aivpn

Traffic masks for a VPN, verified with [Verus](https://github.com/verus-lang/verus).

A mask makes the packets of a tunnel look like those of another protocol. It says
what headers look like, how packet sizes and inter-arrival times are distributed,
how packets are padded, and how all of this changes over time. Masks are written by
hand or generated from recorded traffic.

## Layout

- `src/` is the library. Verus proves the contract of every function, but for the few
  that call other crates or the standard library (see below).
  - `header`, `hexadecimal`, `mask_rng`: header specifications and the bytes that
    they give.
  - `mask`, `canonical`: mask profiles, their distributions, padding, automaton and
    signature, and the bytes that are signed.
  - `packet`, `recording`: what is recorded of a session.
  - `stats`, `modes`, `peaks`, `arrivals`, `periods`, `fsm`, `consensus`, `analysis`: what is
    found in a recording.
  - `profile`, `sorting`, `ks`, `selftest`, `pipeline`: the mask that is built from
    it, the test that it has to pass, and its way to the clients.
  - `tunnel`, `session`, `record_cmd`: the course of a client session, and what the client
    shows of a recording.
  - `soft_float`, `float_bits`, `ieee`, `monotone`, `single`, `double`: IEEE 754 arithmetic on bit
    patterns, in single and double precision. Contracts speak of these patterns, so
    that a result is fixed to the last bit.
- `tests/` runs the library, and compares its arithmetic with that of the processor.
- `app/` holds what surrounds the library: files, sockets, tasks, output, and the
  random draws that need logarithms and exponentials.

## What is not proved

Functions marked `#[verifier::external_body]` call other crates or the standard
library; the comment above each says what is taken for granted. Logarithms,
exponentials and cosines are not modelled: where a mask needs one, the library says
of which number, and takes the value from the caller.
