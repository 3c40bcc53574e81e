# Aggregate congestion control

Congestion control for aggregates of flows: all flows from one address share one
congestion window, which reacts to what any of them reports and is divided among them
according to what each has pending.

- `src/` is the verified library. Its methods return the control patterns that the flows
  must be told; they send nothing themselves.
- `app/` connects it to control channels: it installs the measurement program, reads
  reports, delivers patterns and logs.
- `tests/` runs the library on concrete values.

The window is divided max-min fairly. Dividing it evenly, in proportion to demand or
shortest first, and taking turns with all of it, are there as alternatives.

Numbers are 32 bits wide. Each method states which inputs keep them in range; `can_join`
and `can_measure` test this for a flow that joins and for a report.
