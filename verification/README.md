# sapipiru

A small web page reader, with its logic proved correct by Verus.

- `src/html_parser.rs`: the HTML tokenizer (a character-level state machine),
  page parsing, and text listings of tokens and nodes.
- `src/dom_tree.rs`: the DOM tree builder (insertion modes, open-element
  stack, nodes linked by index), with the proof that every tree it builds is
  well formed.
- `src/css_parser.rs`: selectors split into their parts, stylesheets split
  into rules, and the page's stylesheet links made absolute.
- `src/render_tree.rs`: the render tree walk that pairs DOM nodes with the
  CSS rules naming them.
- `src/text.rs`: characters, strings, case mapping and decimal numbers.
- `app/`: the browser window (iced) and the network fetches (reqwest).
