# sbyte

An in-console byte editor in the spirit of VIM: hjkl movement, a numeric
register, a command line with its own small language, insert / overwrite /
append modes, hexadecimal, binary and decimal views of the same bytes, and
searches whose patterns can leave single hexadecimal or binary digits open
(`\x9.` finds the bytes `\x90` to `\x9F`, `\b100100.0` finds `\x90` and
`\x92`).

## Layout

- `src/` is the library, written in Verus and proved against its contracts:
  - `editor` and its submodules: the content buffer, the cursor and
    viewport model, the numeric views, undo and redo with time-grouped
    history entries, masks and digit replacement, the search-pattern
    rewriting, replacing, and the parsing of command words and number
    arguments. `editor::laws` states what the operations promise of each
    other (an undo takes back the edit before it, a redo puts it back,
    masking twice by exclusive or restores the bytes, ...).
  - `input_interface::inputter`: the tree of key sequences per input mode
    that turns typed bytes into commands; `input_interface::keys` spells
    key sequences written by name (`ESCAPE,COLON`) as bytes, and holds the
    default table of key names; `input_interface::modes` decides what each
    mode command does (insert, append, overwrite in the active view, the
    command line, recording) and where the input mode goes after a shell
    command.
  - `shell`: the numeric register, the command-line buffer, aliases of
    command names, and the recorded command lists.
  - `display`: the arithmetic of the screen (which rows go stale or turn
    round when the view scrolls, where the cursor and the views stand,
    the scrollbar's handle).
  - `matching`, `text`, `bounds`: the few calls into `regex` and `std` that
    the library takes on trust, each with the contract it is believed to
    meet.
- `app/` is the program around the library: argument handling and file I/O,
  the terminal front end (`wrecked`), the input thread and Ctrl+C handling
  (`ctrlc`), and the command shell's table that maps command names to
  editor operations (a table of function pointers).
- `tests/` exercises the library from outside.
