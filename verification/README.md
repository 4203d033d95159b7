# dsh-desktop

The decisions of a desktop shell around a bundled web host, verified with Verus,
and the shell that carries them out.

- `src/` is the library. It holds no I/O: it reads lines, bytes, request heads
  and signals as plain values, and says what to do next.
  - `launch`, `splash`: which server is shown, which addresses are accepted and
    remembered.
  - `bundle`, `paths`, `login_env`, `host`: where the host lies, which files are
    run, in which environment, and that it is stopped once.
  - `host_output`: the ready line, and the redaction of tokens in the log.
  - `session_cookie`, `cookie_proxy`: minting the session cookie, and the proxy
    that attaches it to every request head.
  - `stub`: probing an attached server, and the page for one that is dead.
  - `shell`: loaded pages, exit, and the update check.
  - `text`, `bytes`, `web_url`: what the others are written in.
- `app/` is the shell: window, processes, sockets, threads and files.
- `tests/` runs the library on concrete values.

Each module ends with its laws: public proof functions that state what holds
across its functions. Outside calls stand behind a few items whose contracts are
believed, each with a comment that says what is claimed of the call.
