# parity_ethcore

Client-side logic of an Ethereum node and of its EVM test binary, written in
Verus with its behaviour stated in contracts and proved.

- `src/u256.rs`: 256-bit words, big-endian byte strings.
- `src/rlp.rs`, `src/views.rs`: the RLP format; headers, blocks and
  transactions read out of it.
- `src/sort.rs`: ascending sort of words.
- `src/client.rs`: the blockchain client interface; gas price statistics and
  the DAO rescue block lookup.
- `src/ext.rs`: the storage of the fake EVM environment.
- `src/args.rs`: hexadecimal text and the EVM binary's arguments.
- `src/verification.rs`: the verifier interface and a verifier that accepts
  every block.
- `app/`: the EVM binary's `main` (argument reading, the virtual machine run,
  output); the virtual machine comes from the node's own crates.
