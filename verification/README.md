# file_snapshots

Snapshots of the files of a workspace, taken before every turn of a session, and
the way back to them. No git repository is needed and none is touched.

`src/` is the library, verified with Verus. It decides and computes: which files
a session looks at, what a capture records, where a blob lives, what a restore
writes and deletes and in which order, what an undo goes back to, and what can be
collected. It never touches a disk.

`app/` is ordinary Rust around it: the JSON files of the store, reading, writing
and walking the disk, git's index, and the session and rewind plumbing. It
performs the operations that the library asks for and hands back what happened.

What is trusted without proof is small, and marked where it stands: SHA-256 from
`sha2`, the ignore matcher from `ignore`, and two functions of the standard
library.

| Module | What it holds |
| --- | --- |
| `text`, `table`, `paths` | ordered text, ordered collections, paths as text |
| `digest`, `blob`, `publish` | content hashes, blobs, putting a blob on disk |
| `manifest`, `checkpoint` | what a capture records, and how |
| `refs`, `store`, `gc`, `integrity` | records, the store as a whole, collection, what every operation keeps |
| `restore`, `apply`, `workspace` | plans, carrying them out, what that does to the files |
| `rules`, `scope`, `controller` | ignore rules, the tracked set, one session |
| `rewind` | files and conversation taken back together |
