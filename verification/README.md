# browser-cat

Pipe text, HTML or ANSI-coloured terminal output to a browser window.

The library under `src/` is written in Verus: every function carries a
contract and is proved against it.

- `ansi`: ANSI/VT100 escape sequences to HTML (tokenizer, span renderer,
  xterm-256 palette).
- `html`: separating an HTML stream's head from its body, and wrapping plain
  text in `<pre>`.
- `reader`: input sources, format sniffing, the tee filter.
- `browser`: the launch command line for each platform and browser name.
- `page`: the document preamble, the page title and URL, and, chunk by
  chunk, what is sent to the browser.
- `server`: the server's settings, the replay buffer of sent chunks, and
  what a response stream does on each event (forward, skip, drain, finish;
  shut down after a response unless persisting).
- `escape`, `number`, `text`: HTML escaping (by `html-escape`), decimal
  parsing, and character-level string helpers.

`app/` holds the program itself: argument handling, reading files, stdin and
commands, starting the browser process, and the HTTP plumbing of the
streaming server (axum, tokio), which follows the decisions of `server`.
Invoked under a name ending in `tee` it also copies its input to standard
output; under a name ending in `a2h` it is the standalone ANSI-to-HTML filter.
