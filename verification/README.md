# glassdb_storage

The storage layer of a transactional key/value store that keeps everything in
an object store. The library in `src/` holds the decisions: encodings, lock
rules, tree nodes, cached knowledge and the persistent cache's container. Verus
proves that every function does what its contract says. The crate in `app/`
holds the I/O: it asks the library what to do, does it, and hands the replies
back.

## Layout of the library

- `bytes`, `sorted`, `text`, `ids`, `error`, `timeline`, `shared`: the ground.
- `wire`, `proto`: message encoding; `leaf`, `lock`, `bindings`, `inline`,
  `node`, `root`, `collection_store`: what is stored, with its encodings.
- `node::laws`: what holds of splitting, merging and reconciling nodes.
- `directory`, `node_store`, `object_cache`, `object_path`: finding and loading
  nodes.
- `cache`, `cache_stats`, `entry`, `local`, `global`, `version`: byte-bounded
  caching of raw objects.
- `cached_store`: decoded objects with evidence of how current they are.
  `evidence` and `knowledge` say what is known, `mutation` reconciles writes,
  `path_lane` lets readers join reads.
- `locker`: lock transitions on tagged objects.
- `disk_cache`: the persistent cache. `format`, `container` and `disk` describe
  the bytes; `store` operates on a file; `restart` states what survives a
  restart; `queue`, `worker` and `perform` are the worker's queue, rules and
  work; `persistent` opens the cache; `admission`, `fence` and `change` bound
  what is queued and `traffic` what is promoted; `sim_media` and `sim_harness`
  simulate faulty media.

## How contracts are written

A value of the library has a view: `x@` is what it means. Contracts speak of
views, and of spec functions over them. Laws that relate several functions are
the public proof functions whose names begin with `law_`.

Time is an argument: a clock reading in nanoseconds. I/O is an argument too: a
function takes the reply of a backend, or a `CacheFile`, whose contract says
what an operation that succeeds has done.

## What is believed

Calls into other crates stand behind small wrappers, each with a doc comment
that names the outside function and says what is claimed of it: variable-length
integers and skipped fields of `prost`, the digest of `sha2`, the text encoding
of `base64`, the linked map of `hashlink`, and three functions of the standard
library.
