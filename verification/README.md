# window_decorations

Client-side decorations of a window, written and verified in Verus: where the title bar, its
buttons and the resize edges lie, what a click on them does, how a title is cut to fit, and how
the compositor is asked for a blurred background and a shadow that follow the rounded corners.

- `src/` is the library. Every function states what it returns, and Verus proves it.
  - `decorations`, `title`: layout, hit test, pointer state, window titles.
  - `region`, `kde_blur`: the rounded window as rectangles, and the steps that blur it.
  - `falloff`, `kde_shadow`: the pixels of the shadow, and the steps that show it; `fading` holds
    the numbers behind the proof that the shadow fades.
  - `number`, `pattern`, `rounding`, `powers`, `binary32`, `binary64`: floating-point arithmetic
    on bit patterns, so that rounding is part of what is proved.
  - `steps`: counting what a list of steps does.
- `app/` carries the steps out on a winit window over Wayland, and asks the machine for the two
  functions that have no exact rule, the hypotenuse and the exponential.
- `tests/` runs the library, next to the machine's own arithmetic.

Trusted without proof are the widths that `unicode_width` gives for characters, and
`String::push` of the standard library.
