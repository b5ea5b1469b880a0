# Slipspace

A remote workspace, mounted through a local cache. The client mounts the remote
directory, reads from the cache, and writes to it at once; changes are handed
over in the background. The server daemon sits over the remote directory and
refuses a file for as long as a client has changes to it that the server lacks.

The rules by which the two sides keep in step are a library, verified with
Verus: what each function does is stated in its contract and proved.

| Module | What it holds |
| --- | --- |
| `path` | Unix paths as byte strings: components, joining, stripping |
| `bytes` | searching, trimming, decimal numbers |
| `digest` | the names of cached files |
| `pathset` | sets of paths, versions, the numbers of files |
| `handles` | open files |
| `attr` | the attributes of files |
| `dir` | listing a directory piece by piece |
| `protocol` | the lines that client and server exchange |
| `rsync` | deltas between two versions of a file |
| `recency`, `cache` | the client's cache and what it drops |
| `client_fs` | the client's file system |
| `link` | delivering a message over a connection that may fail |
| `sync` | handing a change over in the background |
| `signal` | notices of files that change on the server |
| `server_fs` | the server's file system |
| `session` | the server's connections with its clients |
| `workspace` | where the server keeps a workspace's files |
| `ssh` | reaching the remote side |

A request to one of the file systems has two halves: the first says what is to
be done, the second takes what came of it and says what is answered. What is
done in between, on disk and over the network, is in `app/`.

Calls into other crates stand behind small functions whose contracts are
believed, not proved; the comment above each says what it claims.
