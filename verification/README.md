# pvp

The rules of a two-player spaceship battle, written in Verus and proved against their
contracts.

- `src/` is the verified library: ship layouts and the nav mesh crew walk on, breadth-first
  path planning, crew orders and stations, reactor power shared between shields, engines and
  weapons, weapon charging and firing, combat (dodging, shields, hull and system damage),
  doors, the intel each player may see, the lobby countdown, and the client's weapon targeting
  and keyboard controls.
- `tests/` runs the library on concrete values.
- `app/` is a headless match that drives the library tick by tick: the floating-point parts
  (shield recharge, oxygen, projectile flight, beam sweeps, crew coordinates) and the messages
  players send live there.
