# austro

A proof-of-work blockchain node: UTXO transactions signed with ECDSA over
secp256k1, difficulty retargeting, a fee-ordered mempool, BIP39 wallets
sealed with Argon2id and AES-256-GCM, chain synchronisation between peers,
and a block explorer.

The library under `src/` is verified with Verus:

- `models/` — blocks, transactions, the unspent-output ledger, the
  mempool, difficulty, transaction history, wallets and the wallet set;
  `blockchain.rs` holds the chain and its rules.
- `network/` — the decisions of synchronisation (what to request, what to
  serve, which chain a batch makes) and the console's commands.
- `api/` — what the explorer shows of the chain.
- `codec.rs` — hex, decimal and JSON text with their specifications.
- `crypto.rs` — the calls into SHA-256, secp256k1, Base58, BIP39, PBKDF2,
  Argon2, AES-GCM and the system clock and random source, each with the
  contract the library relies on.
- `config.rs` — the node's command-line settings.

`app/` is the node program around the library: the sled block store, wallet
files, the libp2p swarm, the HTTP routes and logging. `tests/` exercises the
library.
