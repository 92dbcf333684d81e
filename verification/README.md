# vibestation

One command, one fuzzy picker: live tmux sessions on top, git projects below,
and a session waiting at the end of either. Pick a session and you are in it;
pick a project and the tool names the work, offers the branch that name
implies — in a worktree beside the checkout or in place — creates the session
where the work now lives, and joins it.

The library is written in Verus and proved against its contracts; the binary
around it is ordinary Rust.

## Layout

- `src/` — the verified library.
  - `host.rs` — the one seam to the outside world. A `Host` runs commands,
    reads and writes files, asks questions and hands the terminal over. Its
    model is the record of every request it was asked and what came back
    (`Host::events`), with what its reads give; every contract that speaks of
    the outside world is stated over that model, for a host that
    `obeys_model`.
  - `fake.rs` — a host that keeps the model: a scripted virtual machine the
    tests drive the whole tool through.
  - `naming.rs`, `path.rs`, `text.rs` — names, paths and text, as functions on
    characters with exact specifications.
  - `config.rs`, `state.rs`, `scan.rs` — the config file, the frecency
    history and the project cache, each with what a read gives back of a
    write.
  - `git.rs`, `tmux.rs`, `group.rs` — what is asked of git and tmux, and what
    their answers are read as.
  - `picker.rs`, `select.rs`, `line.rs` — the picker's rows and previews, the
    list's keys and window, and line editing.
  - `lib.rs` — the menu of actions, starting work, and `run`, the picker loop.
  - `json.rs` — the JSON values the data files hold, through `serde_json`.
- `app/` — `main`, the real host (processes, files, environment, terminal),
  and the terminal drawing of what `select::frame` lays out.
- `tests/` — scenarios, driven through the fake host.

## What is proved

The functions that drive a host state, over its model, which requests they
make, in what order, and what they give back for each answer. Beyond those,
the laws of the library are proof functions or clauses of the functions they
concern: sanitised names are accepted by tmux and stay as they are; a name
made from a branch carries its owner's prefix once; a worktree lands beside
its checkout; a scan keeps the topmost repository of each walk, and every
manually added project; projects are ranked best first, stably, and sessions
newest first, stably; the caches and the history read back, as JSON values,
what was written; the picker's rows fit the terminal; a checkout on a branch
of its own is resumed under that branch's name with nothing asked; a session
is created where the work now lives, counted against its project, and only
then joined; and a run hands the terminal over at most once, as its last act,
ends at a picker that was left without an answer, shows the list as the
sessions and projects of its time give it, and joins the session whose row
Enter was pressed on with the verb that fits the client; before its first
list a run loads the config, the projects and tmux's sessions in that order,
and whichever fails ends it; the worktree option reuses a directory that is
already there and cuts a new branch otherwise; a scan asks nothing but git and
fails only when a request it made failed, and a rescan fails only then or
when there is no home directory.
