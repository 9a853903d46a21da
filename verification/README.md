# box_arena

The rules of a 2D physics arena in which thousands of boxes and a player
collide, wear each other down, and grow by absorbing what they destroy.

- `src/` — the verified rules (Verus):
  - `collision.rs`: contacts become hits; hits are summed per target and
    damager; each target's pending damage and the damager credited with it.
  - `wounds.rs`: a frame's damage applied to health; deaths; kill credits,
    struck out for killers that die in the same frame.
  - `growth.rs`: growth grants from kill credits; growing health and maximum
    health.
  - `box_count.rs`: the running count of boxes.
- `tests/` — concrete scenarios for each rule.
- `app/` — the Bevy/Avian game around the rules: spawning, rendering, physics,
  random impulses, UI text, and the float-valued parts (sizes, colours,
  damage ratings).
