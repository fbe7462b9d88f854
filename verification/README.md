# bullets_on_wheels

The rules of a top-down arena shooter, verified with Verus, and the Godot/Bevy
game around them.

- `src/` is the verified library: the game-state machine (`gamestate`), level
  loading (`level`), projectile hits and deaths (`combat`), the live score and
  the persistent score board with its text format (`score`, `text`), menu and
  keyboard decisions (`menu`, `input`), sprite-sheet segmentation by flood
  fill (`sprites`), and a no-op Ctrl+C handler (`ctrlc`).
- `app/` is the game itself: Bevy systems and Godot nodes that read the world,
  call the library with plain values and apply what it decides. Movement,
  health and timers in floating point, file access and scene handling stay
  there.
- `tests/` runs the library on concrete values.
