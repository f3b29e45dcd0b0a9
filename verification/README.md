# Ansible Vault, inline

Encrypts and decrypts values of YAML documents in place, as `ansible-vault` does,
behind a language server for editors. The library in `src/` is verified with
Verus; `app/` holds the input and output around it.

| Module        | What it has |
|---------------|-------------|
| `vault`       | The Ansible Vault 1.1 and 1.2 format: encryption and decryption. |
| `crypto`, `hexadecimal`, `pattern` | The calls into cryptography, `hex` and `regex`. |
| `text`        | Texts as sequences of characters: trimming, lines, splitting. |
| `actions`, `literal` | The vault block or plain value at a cursor, and the text that replaces it. |
| `server`, `documents` | What the server answers, and the documents that are open. |
| `password`, `config`, `resolution` | Which passwords to try, and where they come from. |
| `cli`         | How to run `ansible-vault` in place of the library's own cryptography. |
| `installer`   | Where the editor's extension gets the server program. |
| `round_trip`, `reading`, `editing` | What holds of these together. |

## What is proved

- What was encrypted decrypts to the plaintext, under every salt and every vault
  id that does not put text on a line of its own.
- A value that was encrypted in a document is found again from every line of the
  block. Decrypting it gives the document's lines back where the value's line was
  written as the library writes it: one space after the colon, quoted as needed,
  and no white space at the end.
- Plaintext of several lines comes through a literal block scalar unchanged, its
  leading spaces and final line feeds with it. Plaintext of one line is quoted as
  needed and reads back as the same text, but for one final line feed, which is
  dropped. Characters that YAML does not keep, such as carriage returns, are
  escaped in double quotes.
- Passwords are tried in the order in which they are documented to be, and the
  first configuration that names files decides.

Proofs rest on the contracts of the functions marked `external_body` and on one
`assume_specification`. Each says in a comment which function of which crate it
calls and what it takes for granted.

## Limits

A value whose next line goes on with it, indented deeper and made of hexadecimal
digits alone, cannot be encrypted in place: that line would be read as part of the
payload.
