# hermes_tui

The state and text logic of a terminal chat client, verified with Verus.

- `src/` is the verified library:
  - `unicode`: character widths from `unicode-width`, white space, and the
    cell model the text helpers charge;
  - `text`: display widths, word wrapping to a cell budget, truncation by
    cells and by visible characters (ANSI escapes kept), and the slash and
    path completion triggers of the input line;
  - `mouse`: pressed-button and click tracking, and hit-testing of the chat
    area, the input line and toolbar buttons;
  - `chat`: the transcript component (messages, heights, scrolling, the rows
    each visible message gets, decorations, relative times);
  - `completions` and `session_picker`: the two popups (items, selection,
    visibility, placement, labels);
  - `layout`: rectangles and layout splits from `ratatui`, and UTC time
    formatting from `chrono`;
  - `types`: the values these share.
- `app/` draws the components with `ratatui`, converts to and from the
  `ratatui` and `crossterm` types, and holds the `tachyonfx` effects.
- `tests/` runs the library on concrete inputs.
