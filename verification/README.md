# tubegrab

The logic of a desktop YouTube downloader (a Tauri application driving
yt-dlp and ffmpeg), written in Verus and verified.

- `src/` — the verified library:
  - `text.rs`: Unicode whitespace, trimming, substring search, line and
    decimal handling over `char` sequences;
  - `error.rs`: the structured error and the classification of yt-dlp's
    error output;
  - `parser.rs`: URL validation, query arguments, playlist entries;
  - `formats.rs`: the best audio stream and the best video stream per
    resolution of a single-video query;
  - `download.rs`: the download queue state machine (adding, scheduling,
    progress, completion, cancel, retry, removal, restart recovery);
  - `ytdlp.rs`: yt-dlp's argument lists and output lines during a download;
  - `settings.rs`, `engine.rs`, `updater.rs`: settings completion, engine
    version output, application update checks and download progress.
- `tests/` — tests of the library.
- `app/` — the Tauri shell: commands, child processes, files, HTTP, events.
