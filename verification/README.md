# pg_bager

A pager for psql that shows images. It reads the output of a query, finds PNG and GIF files
that psql printed as hex (`\x...`), and sends them to the terminal in the kitty, iTerm2 or sixel
protocol. A table of one column is rewritten: a placeholder stands where an image was, and the
image follows its line. Anything else goes on to the usual pager as it came.

Sixel images are scaled down to the largest size in the settings. One that would still be longer
than 1,048,576 pixels is not scaled but printed as it came.

The library under `src/` is written in Rust and verified with Verus: every function states in
its contract what it returns, and the proof functions whose names start with `law_` state what
holds of several functions together. Decoding and scaling of images and base64 come from the
`image` and `base64` crates; what is relied on of them is stated where they are called.

The program under `app/` reads the input, talks to the terminal and starts pagers. Its settings
come from environment variables:

| Variable | Meaning |
| --- | --- |
| `PG_BAGER_PROTOCOL` | `kitty`, `iterm2` or `sixel`; otherwise no images are shown |
| `PG_BAGER_MAX_ROW_BYTES` | the longest line that is rewritten |
| `PG_BAGER_MAX_PIXELS_W`, `PG_BAGER_MAX_PIXELS_H` | the largest size at which an image is shown |
| `PG_BAGER_DISABLE` | hand everything on unchanged |
| `PG_BAGER_FALLBACK` | a pager command that gets the output |
| `PAGER` | the pager for output without images |
