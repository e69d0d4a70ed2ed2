# rplace

A small r/place style server: a shared canvas of colour codes that clients
paint one cell or one rectangle at a time, served as a raw map and as a PNG.

- `src/` is the verified library:
  - `canvas.rs`: the canvas (raw map, picture, PNG bytes) and its operations,
    with their contracts and the laws about them;
  - `image_io.rs`: the pixel buffer and PNG encoder of the `image` crate, as
    the canvas sees them;
  - `config.rs`: the server configuration and its defaults;
  - `routes.rs`: the requests and the replies of the HTTP routes.
- `app/` is the server itself: `actix-web` routes and locks, reading and
  writing `./config.json` and `./map`, and the random choice of messages.
- `tests/` runs the library on concrete canvases and requests.
