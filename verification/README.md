# fjallstream

Backup and replication for [fjall](https://github.com/fjall-rs/fjall) databases, using object
storage. fjall's data files never change once written, so each is uploaded once; a small record per
version lists exactly which files make up the database at that moment. To restore, read a record and
download what it lists; a follower does that on a loop.

## Layout

- `src/` is the library, verified with Verus. It decides and computes, and does no I/O: what to
  upload under which key and in which order, which version matches a restore target, what to write
  where, what to delete, whether a capture held still. Work that alternates with I/O is a
  conversation of steps and answers.
- `app/` is the I/O around it: object stores, the capture of a live database, the writer's and the
  follower's loops, the JSON form of the records.
- `tests/` runs the library, on synthetic versions and on real fjall databases.

## What is proved

Every function has a contract. The modules that end in `_laws` state what holds of several
functions together, among them:

- a restore gives back what was replicated, or nothing at all;
- wherever an upload or a prune stops, no version record dangles, and a version that is not yet
  committed is invisible;
- a file that the bucket has is never overwritten, and a file that a retained version references is
  never deleted;
- every file and journal that a record names has its content hash there, so what was altered in the
  bucket is refused before it lands;
- every version of a history restores to what it was, whatever was replicated after it;
- restoring to a point in time picks the newest version at or before it;
- a follower serves only a version of which every file was fetched, verified and written;
- a listing on disk descends to every file below its prefix, and gives what a store in memory lists;
- only a set of files that held still is captured, each path once.

## What is trusted

The gzip streams of `flate2` (`src/compress.rs`), and a few functions of the standard library
(`src/host.rs`, `src/text.rs`). Each is declared with what is claimed of it.
