# Serial Keel

A server which eases working with TTYs: users connect over a websocket and
observe or control serial ports (or mock ports living in memory), with
exclusive control of an endpoint queued between them.

## Layout

- `src/` is the library, verified with Verus:
  - `control_center.rs`: who observes and who controls which endpoint; every
    operation is a function from state to next state, reply and effects, and
    `control_center/laws.rs` states what holds across them (control is
    exclusive, asking twice is superfluous, leaving frees control, ...). A
    control-any request is one verified step given which group permits were
    free; the server only tries the permits;
  - `config.rs`: configurations and their validation;
  - `endpoint.rs`, `mock.rs`, `user.rs`: endpoints, labels, mocks and users;
  - `actions.rs`, `cli.rs`, `client.rs`: what users ask, what the server
    answers, the command line's examples, and how a client routes answers;
  - `serial/`: serial messages, the line codec and serial port settings;
  - `events.rs`: events and the bounded event log;
  - `frontend.rs`: the desktop frontend's state;
  - `text.rs`, `error.rs`: rendering and errors.
- `app/` is the program around it: command line, configuration files,
  websockets, serial ports and the tasks running endpoints.

## Configuration

An endpoint listed on its own and again as a member of a group is one
endpoint of that group, carrying the labels given in both places (the
example configuration labels `COM1` and puts it in a group). A serial port
found at start-up that the configuration names already is left as configured.
Endpoints of the configuration and ports found at start-up stay for the
server's lifetime; only mocks made on demand go when nobody uses them.

## Shared mocks

By default a mock named `mock-foo` is each user's own. Started with
`--mocks-share-endpoints`, the server makes a mock of a given name one
endpoint shared by every user: the first user to ask for it creates it, and
other users asking for the same name then observe it and queue for control of it
like any other endpoint (`ControlCenter::set_share_mocks`, `ControlCenter::internal_id`).
- `tests/` exercises the library.
