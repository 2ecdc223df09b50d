# teams-core

Reads the Microsoft Teams (v2) conversations and messages that the Teams
client caches in its local IndexedDB, and serves them over MCP. Teams data is
only read; rich text can be put on the clipboard for the user to paste.

The library (`src/`) is verified with Verus:

- `varint`, `idb`: LevelDB varints and the Chromium IndexedDB key layout
  (database and object store names, key prefixes).
- `leveldb` (`log`, `sstable`): write-ahead logs and tables, merged by user
  key so that later writes win (deletion entries are skipped).
- `v8`: the V8 value serialization format of the stored values.
- `schema`: Teams records: messages (reply quotes, images, times), titles,
  database lookup by name segment.
- `teams`: the cache built from a database (messages grouped by
  conversation, sorted by time) and the queries over it (`list_chats`,
  `read_messages`, `search`), with the laws they obey.
- `media`: AMS image URLs, cookie headers and the decryption of Chromium
  cookie values (PBKDF2-HMAC-SHA1, AES-CBC, AES-GCM).
- `util`, `text`, `order`, `index`, `numbers`: dates, HTML to text, strings,
  stable ordering, fingerprint indexes, number conversions.
- `server`, `ax`, `clipboard`, `location`: tool arguments, `osascript`
  output, clipboard errors, choice of the most recent database.

`app/` holds what runs around it: the MCP servers (stdio, Streamable HTTP,
accessibility), file and network access, the clipboard and the platform key
stores.
