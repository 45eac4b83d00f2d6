# camera_portal

A local web gallery for the photos on a Sony camera (a6000 and other
PlayMemories / Imaging Edge models), reached over the camera's own Wi-Fi
access point through UPnP/DLNA: a localhost server that serves the web UI
and proxies the camera's ContentDirectory and media.

The library in `src/` is written in Verus; every function in it carries a
contract that Verus proves. It decides everything the server does, and
hands the caller the I/O to perform as plain values:

- `url`, `http`: URLs, HTTP/1.0 requests to send (`HttpCall`, `encode`) and
  replies to read (`parse_response`), the `Browse` SOAP call and its retries.
- `xml`, `browse`, `didl`: device descriptions and `Browse` answers (parsed
  by roxmltree), and the choice of thumbnail and original among a photo's
  resources.
- `discover`, `camera`: finding the camera (SSDP replies, candidate
  gateways, probes), the validated `Camera`, the full crawl and discovery as
  step machines.
- `pager`: the lazy, paginated walk over the container tree as a step
  machine that asks for one `Browse` at a time; its laws say that, driven
  by a camera's answers from a fresh pager, each page is the window of the
  camera's photo list with an exact `has_more`, that consecutive pages tile
  it, and that a served page is served again without asking the camera.
- `mock`: synthetic and directory-backed photos for UI work without a camera.
- `state`: the connection state, connect epochs (a newer connect supersedes
  an older one) and the id → photo cache; a law says that after any run of
  calls the state's info is its history.
- `api`, `json`, `cli`: routing, responses and their JSON, and the command
  line.

`app/main.rs` is the program around it: the socket server and its worker
threads, the TCP and UDP I/O, files, the clock, the embedded web bundle and
the browser launch.
