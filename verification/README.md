# c8y-opcua-gateway

An OPC UA data source for [thin-edge.io](https://thin-edge.github.io/thin-edge.io/): it connects to
OPC UA servers, subscribes to or cyclically reads configured nodes, applies local mapping rules, and
publishes to the local thin-edge MQTT broker on `te/` topics. thin-edge's mapper and bridge carry
the data to the cloud.

- `src/` is the library: what the gateway decides and computes, verified with
  [Verus](https://github.com/verus-lang/verus). What a function promises stands in its contract and
  is proved; what is believed without proof is listed below. Functions named `law_…` state what
  holds of several functions together.
- `app/` is the program around it: command line, files, HTTP, MQTT and OPC UA sessions.
- `tests/` runs the library on concrete values.

## What is proved

- Device types are planned, resolved and grouped so that a node occurs once per delivery mode,
  overridden subscriptions win, and no entry is left out in silence.
- Pushed mapping files win over device types from inventory, and pushed server files over inline
  servers; a reload is asked for exactly when something has changed.
- Bad values publish nothing, repeated event values can be suppressed, and so can an event that
  says again what was just said of the same value; alarms are published on transitions only, and a
  flush hands out every batched measurement.
- Parameters that the OPC UA services would refuse are found before they are asked for, so that one
  bad node does not cost the others their subscription. What is not found is a range beyond the
  limits of a request, which are ten dimensions and ten digits for an index.
- The running servers are kept equal to the configured ones, and an unchanged server is left alone.
- Waiting after failures is bounded, and a request is repeated once at most.

## What is believed

A few functions of other crates and of the standard library are called from `src/` through
declarations whose contracts are not proved: node ids, GUIDs, base64, time stamps, status codes and
numeric ranges of `opcua_types`, percent encoding, Unicode lower case, the debug notation of texts,
`Duration`, `Arc` and `String::push`. Each says in its comment what is claimed.

Floating-point numbers are carried by their bit patterns; turning them into text, and integers into
doubles, is done in `app/`.
