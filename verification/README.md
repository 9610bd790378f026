# infra_core

The planning core of a base-scheduling tool: operator boxes and rosters,
candidate pools per facility, the three-team rotation of the production
facilities, shift binds, rotating offices, control-center teams, producer
rules and resource dependency closures. The library in `src/` is written in
Verus; every function there carries a contract that Verus proves.

Layout:

- `src/` the verified library
  - `operbox`, `roster`, `instances`, `skill_table`, `tier`, `types`,
    `layout`, `text`, `xlsx`: accounts, skills and the shared vocabulary
  - `pool/`: the control, factory, power-plant and standalone pools
  - `schedule/`: rotation teams, the split of the production facilities into
    halves (`halves` states what a split yields), shift binds, offices,
    warm-up rooms, abyssal hunters, control teams, the per-shift efficiency
    sums (`base_rotation`) and the assembly of the three shifts with the
    return of a resting core operator (`assembly`)
  - `response_dependency`, `resource_closure`, `dependency_rows`: producer
    rules, the per-atom dependency rows with their counts and value-domain
    facts, and the reverse closures of resources that responses read
  - `combos`, `ranking`, `power_assign`: the combinations a station search evaluates,
    the ranking of evaluated trade combinations, and the greedy filling of
    power plants, and the combined report of a split-station trade search
  - `support`: the meeting-room and office evaluators' input checks
  - `search`, `joint_trade`, `manufacture`, `power`, `mood`, `office`,
    `profile`, `scoring`, `control`: search helpers and facility models
- `tests/`: tests of the library
- `app/`: file and spreadsheet loading, JSON and CSV formats, error
  messages, and the floating-point shift mood ETA

Quantities that are fractional in the game (efficiencies, bonuses, rates)
are kept in thousandths as integers.
