# r_d_inclita_sofware

Flight software of the Inclita avionics board (STM32F413ZH, Embassy).

- `src/` is the logic, specified and proved with Verus:
  - `telemetry::data` — GPS fix qualities;
  - `sensors::nmea`, `sensors::gps` — selecting the GGA sentences of a UART
    burst and reading their fields;
  - `storage::sd_card_utils` — numbered file names, the search for the first
    free session number, the open-retry policy;
  - `storage::sd_card` — the block buffers and the per-session log files;
  - `fixed_buffers` — the `heapless` containers these use.
- `app/` is the firmware around it: board setup, sensor drivers, the Embassy
  tasks, postcard encoding, the SD card and the LoRa radio.
- `tests/` exercises the library on concrete inputs.
