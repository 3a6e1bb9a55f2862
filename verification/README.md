# straws

A file transfer tool that uses several SSH connections at once. Large files are cut into chunks that
go over side by side, each through an agent of its own: a small Python program that the tool starts
on the remote host.

The rules of a transfer are a library, written in Verus and proved: every function states in its
contract what it returns or changes.

- `src/config.rs` reads sizes, remote locations and the command line.
- `src/agent/` holds the protocol of the agents, the readers of their answers, the agent program, and
  the pool.
- `src/job/` decides which files go where, cuts them into jobs, and keeps the jobs in a queue.
- `src/transfer/` holds the steps of a download and of an upload, and the digests.
- `src/worker.rs` decides what happens to a job that is done, or that failed.
- `src/progress/` counts, and draws the display as a row of drawing commands.
- `src/session.rs`, `src/auth/`, `src/file/` and `src/logger.rs` hold what the user is told along the
  way, where passwords come from, what is done to a finished file, and the lines of the debug log.
- `src/path.rs` and `src/text.rs` are what the others build on.

What a file consists of in the end is stated in `src/job/scheduler.rs`: `lemma_jobs_copy_the_file`
says that the jobs of a file, done in any order and any of them more than once, leave a copy of it.

`app/` is the program around the library: the command line, SSH processes, files and the terminal.
`tests/` runs the library.
