# scfmt

A formatter for structured comments. A structured comment opens a block
with `>` right after the line comment starter (`//> setup`), may continue
it with `<>` (`//<> work`) and closes it with `<` (`//<`). The library

- formats such text: the lines inside a block are indented at least one
  indentation step deeper than the block's comments, blank lines become
  empty (`strfmt::format_str`);
- removes the brackets, leaving plain comments (`strfmt::remove_brackets`);
- adds brackets to plain comments that head deeper indented lines, with
  closing comments where those lines end (`strfmt::add_brackets`).

The library in `src/` is written in Verus and verified:

- `lines`, `comments`, `text`: the line model (blank characters,
  indentation, line splitting as `str::lines` does it, comment recognition)
  with executable functions proved against it;
- `languages`: the line comment starter of each supported file extension;
- `format`, `brackets`, `add`: each transformation as a step function over
  the lines, and its implementation proved equal to it;
- `strfmt`: the public functions on `&str`;
- `laws`, `blocks`, `balance`, `unmarked`, `marks`, `removal`,
  `roundtrip`: properties proved of the transformations (formatting only
  changes indentation and keeps every non-blank character, lays blocks out
  correctly, leaves text without brackets alone; adding brackets yields
  text the formatter accepts, changes no line but for the brackets it
  adds, and marks exactly the comments that head deeper indented lines;
  removing brackets changes nothing but brackets and indentation, changes
  nothing more when repeated, and undoes adding them).

`app/main.rs` is the command line tool: it walks files and directories and
rewrites them in place.
