# pendulum_sim

A double-pendulum swarm simulator. The verified library (`src/`) holds the
integer logic of the program, proved with Verus:

- `render_export`: rasterising pendulum frames into a pixel buffer (clipped
  pixel writes, an error-driven line walk with its laws, frame clearing,
  sampling of the pendulums drawn from a frame) and the decisions of the render
  loop.
- `selector`: bookkeeping of rectangle and point selections, the grid order of
  a rectangle selection and its even height.
- `app_state`: the exports and the panels, and which panels can be shown.
- `runner`: how a frame is delivered to each consumer queue.

`app/` is the program around it: the egui window, the threads, the ring
buffers, the minifb render window and all floating-point work (the RK8
integrator, the adaptive step control, frame interpolation, and the mapping
of clicks and angles to pixels).
