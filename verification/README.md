# password_vault

The request logic of a small password-vault web service, as a library whose
functions carry proved contracts.

- `src/` — the verified library. Each request function takes snapshots of the
  service's tables (accounts, logins, passwords, websites) and returns the
  answer and the rows to write:
  - `auth` — access-token checks (`ApiKey::from_request`) and logins (`get_login`);
  - `access` — which rows a token opens;
  - `passwords` — listing, opening and storing passwords;
  - `websites` — listing, searching (`LIKE`) and registering websites;
  - `crypto` — sealing a password under a passphrase (SHA-256 key, AES-256-GCM,
    Base64 of nonce and ciphertext) and opening it;
  - `like` — the `LIKE` matcher and its laws;
  - `patterns` — the passphrase and IP-address rules;
  - `cors`, `models`.
- `app/` — the Rocket server: reads the tables with Diesel (MySQL), calls the
  library, writes what it decides.
- `tests/` — tests of the library on concrete values.
