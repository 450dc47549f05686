# luci

An event-based testkit for actor systems built with `elfo`. A test is a
scenario: events (binds, sends, receives, responses, delays and calls of
subroutines) that wait for one another. Scenarios are compiled into an
executable graph of events, which is run against the actors under test to get
a report of the events that were reached and those that were not.

## Layout

- `src/` is the library, verified with Verus:
  - `scenario`, `names`, `json`: scenarios and the values they hold;
  - `bindings`: matching values against patterns, and rendering templates;
  - `marshalling`: the message types a test knows, by FQN;
  - `execution::builder`: compiling loaded scenarios into an executable;
  - `execution::runner`: the state of a run and every decision it takes
    (which events are ready, which receive accepts a message, what a send
    or a response carries, when delays fire, what the run reached);
  - `execution::report`: the report of a run and its text;
  - `recorder`: the record of a run and its dump;
  - `visualization`: the shapes of scenarios and executables as graphs;
  - `actor_book`: the trusted declarations of the `bimap` calls.
- `app/` is ordinary Rust around the library: reading scenarios from YAML,
  the elfo codecs of message types, the loop that runs an executable with
  elfo and tokio, drawing graphs, and the `luci-graph` command.
- `tests/` runs the library on concrete scenarios, with a simulated system
  under test.
