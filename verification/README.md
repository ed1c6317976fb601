# ScreenForge

Arranges screenshots side by side into one wide picture: layouts, backgrounds,
shadows, rounded corners, titles and labels, undo and redo, project files and
templates, and the export as PNG, JPEG, WebP or AVIF.

`src/` is the library, verified with Verus. It decides everything that can be
said of plain values: the document model, the layouts, the commands and their
history, what is drawn where, the generated backgrounds, the palettes, the
pointer's gestures, what the controls of the window show and describe, and what
a file has to look like. Numbers are doubles held as their bit patterns, with
an arithmetic of their own (`double`, `order`, `whole`, `root`), so that what is
proved is what is computed. Functions that need a sine, a power or a root of
another kind take its result as an argument.

What the library promises as a whole stands in its public proof functions, whose
names begin with `law_`.

`app/` is the program around it: the GTK window, cairo and pango, files and the
clipboard.

`tests/` holds the library's tests. `tests/pixels.rs` paints the library's plans
and looks at single pixels.
