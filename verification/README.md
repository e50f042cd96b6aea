# electrs

The Electrum protocol of an index server for Bitcoin, and the fee histogram of
its mempool, written in Rust and verified with Verus.

The library in `src/` decides everything; it performs no input or output.

* Fees: `feerate` divides fees by sizes as IEEE doubles, on integers; `rounding`
  proves what those patterns are as numbers. `packages` finds the packages that
  transactions would be mined in, `histogram` bins their feerates, and `fees` puts
  the two together. `package_laws` proves what the feerates depend on, and
  `package_parts` that unrelated packages leave each other alone. `liquid` has the
  fees of a chain with several assets. `graph` has reachability and sums.
* Values: `text`, `hash`, `chain` and `json`.
* Requests: `settings` is what a connection is set up with. `params` reads
  parameters, `history` sums histories up, `values` builds answers. `query` is what
  the server asks of the index. `commands` states for each request what it asks and
  what it is answered; `pending` and `connection` serve it step by step.
* Connections: `dialogue` states what a connection does with each message, `session`
  does it, and `guarantees` proves what follows of the dialogue as a whole.
  `subscription_laws` proves how subscriptions are kept, counted and given up.
* The server around them: `messages` and `server`.

A connection never blocks. It is given a message, and returns what to do and the
question that it needs an answer to; the answer takes it on. The contracts are
stated for every index that could give those answers, at every time.

`app/` holds the sockets, threads and channels, and the conversions from floating
point. `tests/` runs the library.
