# holycontainer

The core of a container runtime, written in Verus and proved against its
contracts: container configuration and its text file, the command line,
image references and the registry protocol, HTTP/1.1 responses and chunked
bodies, a JSON reader and writer, DEFLATE/gzip, UStar tar headers, overlay
and cgroup settings, seccomp filters, netlink messages, multi-container
stacks, and the pieces of a small x86-64 virtual machine (boot memory
layout, register setup, exit handling, virtio devices).

Layout:

- `src/` — the verified library, one module per subject. Besides the
  contracts of each function, some modules state laws that tie several
  functions together: `gzip` (decompressing what it compresses),
  `config` (reading back a written configuration), `json_roundtrip`
  (reading back a written JSON value), `tar_readback` (reading back a
  written tar header), `virtio` and `vmm` (reading back written blocks and
  guest memory), `lifecycle`, `compose`, `envmap`, `seccomp`, `sandbox`,
  `netdev`.
- `tests/` — tests on concrete values.
- `app/` — the program: argument dispatch, files, sockets, processes and
  the hypervisor calls, each decision taken by the library.
