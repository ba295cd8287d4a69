# singlerpc

One local JSON-RPC address in front of many upstream endpoints per chain. A request to `/<chain-id>`
goes to the chain's endpoints in turn until one of them meets it; `/sr_contract_chains` asks all chains
at once whether there is code at an address.

## Layout

- `src/` is the library, all of it verified with Verus. It reads no socket and no file: `RpcProxy` says
  what is to be done next for a request (`Action`) and is told what came of it (`Event`).
  - `exchange` says what each step leads to, `proxy` takes the steps, `laws` states what holds of the
    proxy as a whole, `lookup_laws` what holds of lookups, and `courses` what holds of a request from
    its beginning to its end.
  - `endpoint`, `chain` and `health` hold the failures, the rests and the turns of the endpoints.
  - `lookup` is the `sr_contract_chains` method, `auth` the client's token, `json` the documents.
  - `config` reads and makes configurations, `version` compares releases.
  - `text` and `string_map` are what the rest is written with.
- `app/` is the program around it: arguments, the server, the HTTP client, the health file.
- `tests/` runs the library with upstreams that answer as they are told.

## Behaviour

- An endpoint rests for three hours after three failures in a row, and for a minute after status 429.
  Deaths are kept in the health file and outlive a restart; a success clears them.
- A response with a successful status is handed to the client as it is, a JSON-RPC error included.
- A token, when one is required, is asked for before anything else: `X-SingleRPC-Auth: <token>`,
  `Authorization: Bearer <token>` or `?auth=<token>`.

## What is trusted

The functions marked `external_body` call `serde_json`, `http`, `form_urlencoded` and the system's clock;
what each is taken to do is stated in its contract and comment.
