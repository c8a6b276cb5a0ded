# serv

A small, fast development server for static sites, single-page apps and
markdown, whose decisions are proved with Verus.

`src/` is the library: everything serv decides — which answer a request gets,
how a request path maps onto the served folder, ranges, validators and
compression for a file, the directory index, the not-found page, markdown
rendering, the startup banner and the access log lines — with contracts that
say exactly what each function returns, and the laws that hold across them as
public proof functions. `app/` is the program around it: the command line, the
socket, the file system and the logger, handing the library plain values and
turning its answers into responses. `tests/` run the library on concrete
inputs.

The outside crates the library calls sit behind a few small trusted wrappers,
each with a doc comment saying what its contract claims: pulldown-cmark for
parsing and writing markdown, flate2 for gzip, mime_guess for media types,
httpdate for dates, and damask for HTML escaping.
