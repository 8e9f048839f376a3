# qchain

Verified building blocks of a blockchain node, its wallet and its remote signer, written in
Verus. The executable functions under `src/` have contracts that Verus proves, but for two kinds:
the wrappers of other crates' functions, whose contracts are believed (see below), and
`Pubkey::from_str`, which has none and only calls `Pubkey::parse`. The properties that span several
functions stand there as public proof functions whose names begin with `law_`.

## Layout

- `src/`: the library.
  - State: `bits`, `hash`, `keymap`, `codec`, `pubkey`, `state_account`, `leaves`, `store`, the
    sparse Merkle trees `tree`, `incremental`, `compressed` and `patricia`, and the on-disk
    stores `disk_store` and `disk_log`.
  - Ledger: `keys`, `account`, `poh`, `transaction`, `block`, `ledger`, the native programs
    (`system_program`, `memo_program`, `stake_program`, `programs`), `stake`, `supply`,
    `rewards`, `node` and `client`.
  - Remote signer: `signer_wire`, `signer_handshake`, `signer_guard`, `signer_policy`,
    `signer_codec`, `signer` and `vertex`.
  - Simulation of the consensus: `roundmap`, `committee`, `dag`, `sim_validator`, `sim`,
    `sim_run`, `sim_driver` and `sim_laws`.
  - Proofs of transfers: `stark`.
  - Wallet: `wallet_limit`, `wallet_client`, `wallet_auth`, `keystore`, `wallet_api`,
    `wallet_assets`, `qr`, `proposal`, `wallet_derive` and `wallet_requests`.
  - Contracts: `contract`, `payments`, `counter`, `shared_counter`, `vault`, `token` and
    `escrow`.
  - Text: `text`, `hextext`, `base64text` and `decode`.
- `tests/`: tests of the library with the real cryptography linked.
- `app/`: the programs around it, in ordinary Rust: files, sockets, HTTP, databases on disk and
  the STARK prover.

## What is trusted

Hashes, signatures, encryption, encodings and random numbers come from other crates. Each call
is made by a small function marked `#[verifier::external_body]`, whose doc comment names the
function that is called and says what is claimed of it. Where a result is not spelled out it has
a name, a spec function without a body, and the contracts speak of that name.
