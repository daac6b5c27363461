# sealenv

Encrypt `.env` files and switch between environment profiles.

- `src/` is the library, verified with Verus: the `.env` parser, the layout of
  `.env.enc` (nonce, then AES-256-GCM ciphertext and tag), key checking and
  base64 key transport, profile bookkeeping (`add`, `list`, `diff`, `create`,
  `use`), the project configuration and the `.gitignore` entries.
  Modules: `text` (characters, trimming, searching), `crypto`, `config`,
  `gitignore`, `profile`, `run`.
- `app/` is the command line: argument parsing, files, the TOML
  configuration file, colours and running a command.
- `tests/` exercises the library.
