# ntex_accept

The accept loop of a network server, with its behaviour stated and proved in Verus.

The loop decides; it does not touch sockets, clocks or threads. Each step hands out effects, to be
carried out in order, and one request, whose outcome is given back to the loop.

- `src/protocol.rs`: what the loop exchanges with the world around it
- `src/model.rs`: the loop as a mathematical state machine
- `src/accept.rs`: the loop itself, proved to follow the model
- `src/laws.rs`: what holds of the loop as a whole
- `src/accept_loop.rs`, `src/notify.rs`, `src/command.rs`: settings, senders and commands
- `src/error.rs`: the errors that the loop tells apart
- `app/`: runs the loop on a thread, with a poller and real sockets
