# heater

Firmware logic for a small liquid heater: a 128x64 monochrome OLED shows the
temperatures, the heater power and a predicted temperature curve, and a
controller ramps the heater up and then holds a goal temperature.

`src/` is the verified library (Verus):

- `geometry`: points and rectangles on the display.
- `canvas`: an off-screen image, one boolean per pixel.
- `paint`: what drawing a shape does to the pixels, and the laws about it.
- `font`: the 5x5 bitmap font, and text and number drawing on a `Ui`.
- `ui`: a drawing surface confined to a rectangle: pixels, frames, bars,
  dashed lines.
- `panel`: drawing straight onto a canvas with a smaller character set, and
  the compact heater screen.
- `screen`: the main heater screen layout.
- `ring_buffer`: a fixed-capacity buffer that keeps the latest samples in
  slots stored inline.
- `control`: the controller's heating/holding states.

`app/` is the firmware around it: the microcontroller peripherals, the
floating-point model of the heater and the thermistor, the readouts and
chart rows computed from it, the font bitmap, and copying the canvas into
the display driver.

The canvas and the font hold their bytes in a `Vec`, so a build for the
microcontroller needs a global allocator; the ring buffer does not allocate.
