# adb_studio

The logic of ADB Studio, a tool for annotating music generated with ComfyUI and
Ace Step 1.5, as a library verified with Verus, and a thin command-line program around it.

- `src/` — the verified library:
  - `json.rs` — JSON documents, their mathematical model and their compact text;
  - `comfyui/` — reading track parameters out of workflows (`parser`, `graph`, `prompt`),
    editing their metadata and their chain of LoRA loaders (`updater`, `chain`), and
    comparing two workflows (`diff`);
  - `sync.rs`, `server.rs` — the synchronisation with a ComfyUI server: configuration,
    download records, what each pass does with a file, and the server's replies;
  - `metadata.rs` — where the metadata of an audio file lives, the workspace index
    (storing, loading and moving records) and the checksum cache;
  - `file_system.rs`, `audio.rs`, `conversion.rs`, `settings.rs`, `paths.rs`, `text.rs` —
    the file tree, stem separation and conversion jobs, labels and tags, paths and texts.
- `tests/` — tests of the library.
- `app/` — file, process and network I/O (the workspace files and their watcher, the
  stem separator and FFmpeg, the ComfyUI server), the synchronisation thread, `serde`
  records of the files the tool keeps, and the floating-point work the library leaves
  out: waveform decoding with Symphonia, peaks, tempo and drawing, comment ranges and
  number formatting.
