# teams_cli

Keeps the tokens of a Teams client in a credential store, verified with Verus.

A token is kept under a profile. It stands in one entry of the store, or is cut into chunks where
an entry of the store is too small for it. The store is the operating system's keyring, or files
under the configuration directory.

- `src/` is the verified library. `keyring` has the operations for the store that the settings
  select; `tokens`, `profiles` and `files` hold the logic behind them; `laws` states what the
  operations amount to on a store that gives back what it was given.
- `app/` carries out what the library decides: the keyring, the files, the environment, and the
  JSON forms of tokens and chats.
- `tests/` runs the library on a store in memory.
