# hangar

Archive library and tool. Files are compressed with Zstandard and wrapped in a
small random-access container (`.hgr`), with optional encryption by password
(XChaCha20-Poly1305, keyed by Argon2id).

The library in `src/` is verified with Verus. It works on bytes in memory: what
is written to an archive, what is read from it, and the rules by which the tools
name, list, count and report are stated in contracts and proved. `app/`, which
is not verified, brings files, clock and terminal and calls these rules in turn:
the command line `hgr`, and the commands of the desktop window. The window
itself is a tauri program and is not part of this crate.

## Layout of an archive

    header (32 bytes)
    encryption header (40 bytes, if encrypted)
    compressed frames
    index
    footer (32 bytes)

Outside solid mode every file has a frame of its own, and the frames follow each
other without gaps. In solid mode files share frames of up to the size asked for;
a file that would take a frame past it begins the next one, and only a file that
is larger by itself exceeds it. In an encrypted archive each frame,
and the index, is a 24-byte nonce, the ciphertext and a 16-byte tag.

## Modules

- `format`, `index`, `bytes`: the byte layout
- `crypto`, `frame`: keys, and frames as they lie in an archive
- `codec`: compression and checksums
- `writer`, `assembly`: putting an archive together
- `reader`, `groups`, `extract`: opening an archive and getting files out
- `archive`: what a finished archive promises to whoever reads it
- `tree`: how a tree of files comes back out of an archive
- `path`, `naming`: names inside an archive
- `password`, `listing`, `job`, `report`, `clock`: the rules of the tools
- `error`, `text`: errors and texts

## Trusted code

The compressor, the checksum, the cipher, the key derivation and the random
source are outside crates. The functions that call them carry a doc comment
that says what is claimed of the call.
