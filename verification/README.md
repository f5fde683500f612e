# chef

`chef` installs, updates and removes mods for GTA games from the command line. It
detects the game in a directory, backs up the files that a mod replaces, and gives
them back when the mod is removed.

| Command                  | What it does                                   |
| ------------------------ | ---------------------------------------------- |
| `chef menu [<pkg>]`      | lists the packages and versions for the game   |
| `chef which [<pkg>]`     | reports what is installed in the directory     |
| `chef add <pkg>...`      | installs packages, e.g. `cleo@5` or `sal`      |
| `chef remove <pkg>...`   | removes packages and restores displaced files  |
| `chef update [<pkg>]`    | updates packages to the newest stable release  |
| `chef upgrade [--check]` | replaces the program by its newest release     |

## Layout

- `src/` is the library, verified with Verus. It decides everything: what a name or
  a version means, which release is picked, which files a deployment snapshots,
  removes and writes, and what undoes it. It does no input or output: what is found
  on disk, on the network or at the keyboard is handed to it as plain values.
- `app/` is the program around it: arguments, files, network, log.
- `tests/` runs the library, among other things on whole sessions over a game
  directory that is kept in memory.

## Modules

- Text and data: `text`, `order`, `strmap`, `json`, `error`.
- The catalog: `catalog`, `version`, `names`, `assets`, `resolution`, `offers`,
  `agreement`, `identify`, `fetch`.
- Archives and the store: `archive`, `digest`, `download`, `layout`.
- The game directory: `target`, `lock`, `state`, `check`, `prune`.
- Installing and removing: `deploy`, `plan`, `undo`, `remove`, `restoring`,
  `again`.
- Commands: `commands`, `session`, `add`, `update`, `which`, `menu`, `upgrade`,
  `emit`.

## What is stated of the whole

- `restoring`: playing the undo script of an install back, with nothing changed in
  between, gives every file of the game directory back as it was before the install,
  edited files and files of a replaced install among them. A file of the user that an
  earlier install had displaced comes back in place of that install's. Left out is a
  path with a file of the replaced install that the release ships under a path that
  differs only in case: on a file system that tells such paths apart there are two
  files.
  Taking a failed deployment back gives every file back, without exception.
- `again`: adding a release again, with its files untouched, installs nothing and
  says so in one row; an edited file gets the content of the release again.
- `agreement`: the first version on offer is the one that `latest` picks, the first
  stable one the one that is picked by default.
- `archive`: no entry of an archive leads out of the directory it is unpacked to.
- `prune`: no directory goes that holds a file, and those left empty go.
- `add`, `remove`: one bad argument keeps all packages from being installed, while a
  removal goes on after a failure and ends with the first.
- `lock`: a fresh lock is not given twice, a stale one is taken over.
- `names`: the distance between two names is the least number of edits.
