# cam-shim

A compatibility layer for USB webcams that offer frame rates which browsers and
video calls do not take. Cameras without a 30 or 60 fps mode get a virtual
camera that stands in for them.

- `src/` is the library: what is decided and computed, with contracts that
  Verus proves. It reads no file and opens no device; it takes what was read and
  says what follows.
- `tests/` runs the library on concrete values.
- `app/` is the `cam-shim` program: the command line, `/sys`, `/proc` and `/dev`,
  the kernel module, the video devices, JSON and threads.

## Modules

| Module | What it holds |
|--------|---------------|
| `compat`, `media` | frame rates, compatibility, the names of virtual cameras |
| `probe`, `devices` | reports on cameras, which nodes are one camera, left-over nodes |
| `camera_view` | physical and virtual cameras side by side, which one to use |
| `loopback`, `create`, `device_registry` | virtual cameras: listing, making, stable numbers |
| `holders`, `clean` | who holds a device, releasing and removing virtual cameras |
| `shim`, `loopback_output` | format negotiation, pacing and handing over frames |
| `serve`, `reconcile`, `hotplug` | the supervisor: backoff, quarantine, its rounds, kernel events |
| `runtime`, `status`, `doctor`, `cli` | what is going on, health checks, what is printed |
| `hiding`, `session` | hidden cameras, the end of a one-off fix |
| `text`, `split`, `order`, `table`, `error`, `sys` | what the others build on |
