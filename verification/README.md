# falling_sand

The grid core of a falling-sand demo for an RP2350 board with an ST7789
display and an accelerometer, verified with Verus.

- `src/vector.rs`: integer grid vectors and their signed/unsigned conversions.
- `src/direction.rs`: axis, diagonal and eight-way neighbour directions.
- `src/slots.rs`: `Slots`, a fixed-capacity slot allocator with a LIFO free
  list, and `MappedSlots`, a grid whose cells name slots; its invariant is
  that occupied cells and occupied slots correspond one to one. The free
  list is a `Vec` whose length the invariant bounds by the capacity `N`;
  occupied cells plus free slots always count exactly `N`.
- `src/sand.rs`: `LocalWorld`, the particle world on top of `MappedSlots`,
  its error types, and the order in which a tick visits the particle slots.
- `app/`: the firmware around the library: floating-point particle motion,
  the asynchronous world interface, and the hardware main loop.
- `tests/`: tests of the library on concrete values.
