# Clam Self Custody

An MCP server that lets AI agents pay for x402-protected APIs from a locally-held
Solana wallet, in USDC, with every payment confirmed interactively by the user.

The decisions are made in a library that Verus verifies; a thin program around it
does the I/O.

## Layout

- `src/config.rs`: networks, environment variables, default paths
- `src/wallet.rs`: keypair file, addresses, balances
- `src/x402_client.rs`: checking a request, selecting a payment, concluding a request
- `src/settlement.rs`, `src/base64.rs`: the `X-PAYMENT-RESPONSE` header
- `src/headers.rs`: HTTP headers
- `src/ledger.rs`: the append-only JSONL ledger
- `src/server.rs`: what the MCP tools take and give, and the approval prompt
- `src/double.rs`, `src/decimal.rs`, `src/text.rs`: doubles by their bits, decimal
  integers of any length, text
- `tests/`: tests of the library
- `app/`: the `clam-mcp` program

Public proof functions whose names start with `law_` state what holds across
functions: that the cap is hard, that what is paid is what the user was shown, that
a ledger reads back what was appended, and so on.

## Configuration

| Variable                   | Default                                         |
| -------------------------- | ----------------------------------------------- |
| `CLAM_KEYPAIR_PATH`        | `~/.config/clam-self-custody/keypair.json`      |
| `CLAM_NETWORK`             | `devnet`                                        |
| `CLAM_RPC_URL`             | public RPC for the chosen network               |
| `CLAM_FACILITATOR_URL`     | `https://api.cdp.coinbase.com/platform/v2/x402` |
| `CLAM_FACILITATOR_API_KEY` | unset                                           |
| `CLAM_LEDGER_PATH`         | `~/.config/clam-self-custody/payments.jsonl`    |
| `CLAM_LOG`                 | `info`                                          |
