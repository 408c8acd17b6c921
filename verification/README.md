# ragfs_git

Snapshots of the files of an account, kept as Git objects: committing the present
state, showing a commit or a file in it, and restoring a directory to what it was.

`src/` is the library, verified with Verus. It decides; it does no I/O itself. A
commit, a show and a restore are each a chain of types: every type is a point at
which the operation waits for something from outside, and says in its fields what
for. The method that takes the answer leads to the next point.

| module | holds |
|---|---|
| `commit`, `show`, `restore`, `service` | the operations |
| `repository` | the stores as a whole: what holds from one operation to the next |
| `resolve` | what a ref names, and the search for abbreviated identifiers |
| `tree_builder`, `diff` | editing a tree; the difference of two subtrees |
| `ignore`, `enumerate` | which paths belong to snapshots |
| `object`, `oid` | stored objects and their identifiers |
| `s3`, `index_store` | refs and objects on S3; the index of a commit |
| `config`, `setup` | the configuration, and what is built from it |
| `snapshot` | what the command line prints |
| `text`, `order`, `sorted`, `util`, `types`, `error` | what the others share |

Public proof functions named `law_..` state what holds across several functions.

`app/` is ordinary Rust around the library: the traits of the file system and the
stores, the loops that carry out the operations, the S3 client, the binding for
Python and the command line. `tests/` runs the library, with the crates that it
calls.
