# remarkable

The verified core of a set of pen apps for the reMarkable 2 e-ink tablet:
a notebook, a PDF reader with an assistant that writes on the page, a
collaborative canvas and a code-notes viewer.

- `src/` is the library, written and proved with Verus: the page model
  (strokes and patches in tenths of a pixel, erasing, undo and redo), the
  display-server and framebuffer-daemon protocols, the assistant's event
  stream and its messages, the raster patch file format, the page snapshot
  and PNG encoding, the markdown reader's blocks and inline markup, the
  home screen, dialogs, keyboard, sidebar and touch routing, and the
  canvas command service's checks and answers.
- `tests/` runs the library on concrete inputs.
- `app/` is the process shell: the display socket and shared memory, the
  assistant child process, page files on disk, and the canvas command loop.
