# poorerpoint

A terminal presentation engine: a markdown deck becomes slides whose title
stack persists from slide to slide, and each slide is laid out as wrapped,
styled lines for the terminal.

The library (`src/`) is verified with Verus:

- `markdown` — the event stream that pulldown-cmark yields for a deck,
  in a shape of the library's own;
- `deck` — titles, spans, blocks and slides, with their mathematical views;
- `parse` — the deck builder: a step function over events, the sticky title
  stack, and the animated-title diff between slides;
- `wrap` — whitespace word splitting and line wrapping;
- `table` — column measuring, proportional fitting and table drawing;
- `render` — laying a slide out for a terminal of a given size;
- `app` — the presenter's state machine: animation timing, keys, scrolling.

`app/` is the terminal front end: reading the file, the event loop, and
drawing into the terminal buffer.
