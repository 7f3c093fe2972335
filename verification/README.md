# luabster

A small interactive shell with Lua scripting, whose logic is written in
Verus and proved against its contracts.

- `src/` — the verified library: the command-line tokenizer and pipeline
  reader (`parser`), multi-line input and history (`input_parser`), the line
  editor and choice menu (`termio`), tab completion (`completions`), ordering
  and sorting of names (`order`), configuration (`config`, `prompt`,
  `lua_parser`), shell expansion (`expand`), the main loop's decisions
  (`shell`), and the text and number helpers they share (`text`, `number`,
  `table`, `log`).
- `app/` — the program around it: terminal input and drawing, processes,
  pipes and files, the Lua interpreter, and signal handling.
- `tests/` — tests of the library on concrete values.
