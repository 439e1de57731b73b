# pico_webserver

Firmware for a Raspberry Pi Pico 2 W (RP2350, RISC-V cores) that joins Wi-Fi and serves
a live statistics dashboard on port 80: `/` is an HTML page, `/json` the statistics.

- `src/` is the verified library:
  - `text`: `StackText<N>`, a fixed-capacity text buffer whose writes are all-or-nothing;
  - `digits`: decimal and `{:08x}` hexadecimal numbers, with proofs that they read back;
  - `temperature`: the ADC-to-temperature conversion and the one-decimal text of it;
  - `stats`: the readings, the report built from them and its JSON text;
  - `routing`: the page a request asks for;
  - `irq`: decoding of the Hazard3 `meinext` register and the choice of handler;
  - `led`: the blink schedule of the status LED.
- `app/main.rs` is the firmware around it: hardware set-up, Wi-Fi, the TCP loop, the
  readings of clocks, ADC and stack pointer, and the interrupt entry point.
- `tests/` runs the library on concrete values.

The firmware reads the Wi-Fi credentials from the `WIFI_NETWORK` and `WIFI_PASSWORD`
environment variables at build time.
