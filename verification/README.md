# cursormochi

A Linux cursor theme browser's core, verified with Verus: Xcursor and
Windows CUR/ANI decoding, Xcursor export and resampling, theme discovery
rules and classification decisions, theme browsing, trials, Windows package
import planning, and a settings controller with single-step undo.

Layout:

- `src/` — the verified library. Every public function states its result
  in `ensures`; the `law_*` proof functions state properties that span
  calls (undo restores what an applied change replaced, every role file is
  offered exactly once, discovery lists each directory once, playback loops,
  the decoded-pixel cache stays within its byte budget).
- `tests/` — executable tests of the library.
- `app/` — a command line front end that does the file system work
  (`--diagnose`, `--import`, `--trial`). It reads directories, files and
  links and writes staged files; what to read next, which results count
  and what to write are the library's (`evidence::find`, `evidence::classify`,
  `platform::link_step`, `classification::ScanCounts`, `install::install_files`).
  What stays there: directory listing, the order of the scan's own file
  checks and the candidate-error text, and the read-back of staged files.
