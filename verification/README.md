# rt

The verified core of a CPU ray tracer that renders spheres, cubes, planes,
cylinders, particle fountains and a wavy fluid surface to plain-text PPM
(`P3`) images.

- `src/` is the library, checked by Verus:
  - `ppm` — the `P3` encoder: header, decimal samples, greedy wrapping of
    whole pixels into lines of at most 70 characters;
  - `decimal` — decimal spelling of unsigned integers and reading them back
    from command-line text;
  - `render` — the plan that cuts the image into bands of rows, one per worker;
  - `config` — the limits on a render request (scene number, image size,
    worker count) and the default settings;
  - `scenes` — the catalogue of numbered demo scenes (1 to 4 required, 5 the
    bonus showcase);
  - `material` — the checker texture's choice of color per cell;
  - `particle` — the integer steps of the particle fountain.
- `app/` is the program: vector math, geometry, shading and the
  command line, all floating-point or I/O work that calls into the library.
- `tests/` exercises the library on concrete inputs.
