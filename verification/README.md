# lje_launcher

The LJE launcher for Garry's Mod: it finds the game through Steam's
`libraryfolders.vdf`, keeps `lje-w64.dll` up to date, manages scripts and
native binaries under `~/.lje`, installs scripts from the community registry
with their dependencies, and injects the DLL into the game.

- `src/` is the verified library (Verus): the VDF tokenizer and parser, with
  proofs that a rendered document reads back and that whitespace between
  tokens does not change the parse, git status parsing, the registry
  install state machine with its invariants, and the string, UTF-16 and
  ordering computations behind binaries, scripts, updates and injection.
- `app/` is the Windows desktop shell (Tauri commands, file system, process,
  network and Win32 calls) that runs the library's decisions.
- `tests/` exercises the library on concrete values.
