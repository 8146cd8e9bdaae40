# p2p_sys

A peer-to-peer file sharing program over libp2p gossipsub, whose decisions
are a library verified with Verus.

Peers find each other by mDNS and share one gossipsub topic. A user can send
a text message to every peer, upload a file (cut into 1 MiB chunks, each sent
to the three peers chosen from their scores), download a file by name (peers
holding its chunks send them back and the downloader puts the file together
once every chunk has come), and look at peer scores and the file transfer
log. Every message carries a shared password; messages with another password
are refused. Received chunks are stored in a directory named after the local
peer; a chunk whose name holds a `/`, or is `.` or `..`, is refused.

Scores are kept in hundredths of a point: a new peer starts between 3 and 8
points, each chunk received with the right password adds 0.5, each file with
a wrong password takes 0.01 away, and every quiet minute disconnected peers
are forgotten and the others lose 0.1, never going below zero.

## Layout

- `src/` — the verified library:
  - `text` — characters, decimal numbers, white space, search in text;
  - `chunk_name` — chunk names `file(i-of-n)`, reading them back, and finding
    a file's stored chunks;
  - `chunker` — cutting data into chunks, SHA-256 hashes in hexadecimal;
  - `scores` — the peer score table, choosing peers for an upload, decay;
  - `transfer_log` — the file transfer log and its search;
  - `download` — downloads in progress and putting files together;
  - `commands` — the user's commands and text messages;
  - `node` — a peer's state and what each received message does to it;
  - `protocol` — length-prefixed framing of file requests and responses.
- `tests/` — tests of the library.
- `app/` — the program: command line, event loop, networking, disk and JSON.
