# teaplot

TeaPlot draws a 3D model the way a pen plotter would: hidden lines removed,
shading hatched with contour lines, and the result written as HPGL.

- `src/` is the library, verified with Verus:
  - `navigator` — the back/forward history of views;
  - `text`, `obj` — reading Wavefront OBJ text;
  - `plot` — joining strokes into paths and ordering them into HPGL;
  - `subtract` — the case analysis of cutting one triangle by another;
  - `culling` — the outline between kept and culled faces, and the border
    of a set of triangles;
  - `input` — input events and cursor handling for the UI backend;
  - `pipeline` — which results of the background renderer are shown.
- `app/` is the program around it: the window and UI (raylib, imgui), the
  floating-point geometry (i_overlay, i_triangle, nalgebra), files, and the
  browser version (`web.rs`).
- `tests/` exercises the library.
