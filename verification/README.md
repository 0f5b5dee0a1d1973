# goblins

A host daemon for sandboxed agents. It starts sessions in sandboxes, keeps their
terminals, asks a person before a session is granted a package or a container
engine, and passes messages between agents.

- `src/` is the library, verified with Verus: what the daemon, its clients and
  its helper decide. Contracts speak of plain values; public proof functions
  state what holds of several functions together.
- `app/` is the program around it: sockets, processes, namespaces, files and the
  screen. It hands the library what was read and does what the library answers.
- `tests/` run the library from outside.

The modules of the library, from the bottom up:

| Modules | What they hold |
| --- | --- |
| `text`, `numbers`, `paths`, `arguments`, `json`, `answers` | texts, paths, argument lists and JSON values |
| `protocol`, `rpc`, `messages`, `params` | names, framing, calls and the grammar of messages |
| `directory`, `mailbox`, `mailbox_laws`, `integration`, `messaging` | inboxes, their audit log and when an agent is told of them |
| `screen`, `terminal`, `relay` | terminals and their consumers |
| `records`, `controller`, `control`, `launch`, `permissions`, `progress`, `connection`, `endpoint`, `listing`, `values`, `replies`, `dispatch`, `courier` | the daemon: sessions, requests, connections, what is answered and what is handed to the mailbox |
| `config`, `binds`, `sandbox_etc`, `store`, `session`, `snapshot`, `seccomp`, `worker`, `catalog`, `process`, `unix` | what a session is launched with, and what it is granted |
| `network`, `docker`, `docker_scope`, `docker_shared`, `docker_forward`, `helper` | networks, container engines and the helper |
| `names`, `options`, `lines`, `cli`, `client`, `commands`, `host`, `plain`, `tree`, `board`, `picture` | command lines and what a person sees |
