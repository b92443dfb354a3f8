# alpenglow_mini

A small Alpenglow-style consensus validator, verified with Verus.

- `src/` is the verified library:
  - `types/`: messages, their wire encoding (`codec.rs`, with proofs that
    encodings decode uniquely), SHA-256 and BLS keys (`crypto.rs`), and the
    network configuration.
  - `consensus/blokstor.rs`: block storage by slot and by hash.
  - `consensus/pool.rs`: votes per slot and stake-weighted certificates
    (60% notarization, 80% fast finalization, 60% skip). A notarization
    certificate carries its votes, their voters and the BLS aggregate of
    their signatures (the first vote's signature where they do not decode).
  - `consensus/votor.rs`: the voting state machine and slot timeouts.
  - `consensus/rotor.rs`: block dissemination: slicing, Reed-Solomon
    erasure coding, signed shreds, and rebuilding blocks from shreds: the
    receiver decodes a slice from any data-shred count of its shreds.
  - `leader/`: the leader schedule (validators in name order, each leading
    a window of 4 consecutive slots) and the block builder.
  - `node.rs`: the validator's decisions, from message or clock tick to the
    actions to carry out; entering a slot sets the timeouts of the rest of
    its leader window, one slot duration apart.
  - `config.rs`: the built-in three-validator network.
- `app/` is the program around it: UDP transport, serde copies of the
  messages, the slot timer, relay selection, and the main loop.
- `tests/` exercises the library on concrete values.
