# nano_vault

An offline personal ledger for a hardware wallet: a vault of up to eight
labelled amounts, the text the device shows for them, and the screen logic
that browses them.

- `src/` is the verified library (Verus): `state` (the vault and its
  entries), `utils` (decimal and money formatting), `ui` (screens, buttons,
  what to draw, screen texts), `crypto` (key erasure and the end of a key
  derivation).
- `app/` is the device program around it: the device's cryptographic
  syscalls, drawing on the screen and reading the buttons.
- `tests/` runs the library on concrete values.
