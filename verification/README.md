# shitmail-jmap-filter

Watches a Fastmail inbox over JMAP push, looks up how long ago the domain that
signed a message was registered, and moves mail from young domains into a
quarantine mailbox.

- A message counts as signed if a trusted server's `Authentication-Results`
  header has a passing DKIM verdict. A verdict that aligns with `From:` is
  preferred. Unsigned mail goes into quarantine at once.
- The registrable domain comes from the Public Suffix List, its registration
  date from RDAP, with a cache on disk.
- If the date cannot be had, the message stays in the inbox and is tried again,
  with longer and longer waits, until the attempts are used up.

## Layout

- `src/` is the library. Every decision is made there, and each function's
  contract is proved with Verus. `src/worker.rs` puts the parts together;
  `src/dkim.rs` with `src/dkim/`, `src/domain/`, `src/retry.rs`, `src/push.rs`, `src/state.rs`,
  `src/config.rs` and `src/jmap.rs` are the parts; `src/text.rs`,
  `src/number.rs` and `src/time.rs` are what they are made of.
- `app/` is the program: it talks to the mail store and the registries, reads
  and writes the state files, and does what the library says.
- `tests/` runs the library.

What the library takes on trust is marked `external_body` or
`assume_specification`: a few calls into `chrono`, `reqwest` and the standard
library.

## Configuration

| Variable                  | Default                             |                                                |
| ------------------------- | ----------------------------------- | ---------------------------------------------- |
| `FASTMAIL_API_TOKEN`      | required                            | Bearer token.                                  |
| `JMAP_SESSION_URL`        | `https://api.fastmail.com/jmap/session` | The URL of the JMAP session.               |
| `QUARANTINE_MAILBOX_NAME` | `quarantine`                        | Created if missing.                            |
| `MAX_DOMAIN_AGE_DAYS`     | `365`                               | Younger domains go into quarantine.            |
| `RETRY_INTERVAL_MIN`      | `15`                                | Minutes between two rounds of retries.         |
| `RETRY_MAX_ATTEMPTS`      | `32`                                | Failed attempts before a message is given up.  |
| `STATE_DIR`               | `/data`                             | State files.                                   |
| `PSL_PATH`                | `data/public_suffix_list.dat`       | The Public Suffix List.                        |
| `TRUSTED_AUTHSERV_IDS`    | `fastmail.com,messagingengine.com`  | Whose headers are believed, comma-separated.   |
| `HEALTHZ_PORT`            | `8080`                              | Answers with `OK`.                             |
