# Preserve

Preserve is a small Windows application that downloads and installs preserved games. It verifies
every downloaded file, installs declared prerequisites, downloads several files and several games
side by side, resumes interrupted downloads, and records what is installed in an index that other
programs can read.

The decisions are made in a library that is verified with [Verus](https://github.com/verus-lang/verus);
disk, network, other programs and the windows on the screen are ordinary Rust around it.

## Layout

- `src/`: the verified library.
  - `models`, `errors`: what is exchanged with the catalog service, and why things fail.
  - `api`, `digest`, `address`: the service's addresses and replies, the proof that a device sends,
    SHA-256 digests, and the addresses of files.
  - `path`, `text`: paths in Windows notation, and texts.
  - `download`: the download of one file, step by step, from what is left of an earlier attempt to
    the check of its digest.
  - `transfer`, `double`: the running account of a download, with the arithmetic of double-precision
    numbers carried out in integers.
  - `installer`, `prerequisite`: an installation from its plan to its end.
  - `record`, `json`: the record of an installation, and the index of all of them.
  - `desktop`, `screens`, `table`, `cover`, `format`, `window`: the state of the application, and
    what its windows show.
- `app/`: the program. It performs what the library decides and hands back what came of it.
- `tests/`: tests of the library.

Functions whose names start with `law_` state what holds of the library as a whole: that a file is
installed only with the right bytes; that no manifest has a file downloaded to a place outside the
chosen folder, nor the partial file that holds it meanwhile, where its path names something; that a
program of a prerequisite is run only once its download is said to have ended well, and the program
before it to have ended with success; that a game is reported as installed only once every download
is said to have ended well and the installation to be recorded; that recording a game leaves the
others alone.

The program reads its icon and its fonts from a folder `assets` beside it. `PRESERVE_API_URL`, set
when the program is built or when it is run, names another catalog service.
