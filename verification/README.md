# loginator

A bridge between a VEX robot brain and an MQTT broker. The brain prints telemetry over
Bluetooth as COBS encoded frames; the bridge decodes them, reads the telemetry out of them and
publishes it, labelled, on the topic of its route.

- `src/` is the verified library:
  - `decoder`: the COBS frame decoder (`Decoder::feed`, `Decoder::push`) and its model;
  - `cobs`: what it promises of whole frames (it inverts COBS encoding; pushes may be split);
  - `telemetry`: finding `TELE_DEBUG:` … `TELE_END` in a frame and splitting its fields;
  - `config`: the settings and their defaults;
  - `dispatch`: where a frame's values are published;
  - `bluetooth`: which peripherals are brains, the connection record, and what is written to
    and read from a brain.
- `app/` is the program: the command line, Bluetooth through btleplug, MQTT through rumqttc,
  the settings file through confy, and parsing the telemetry's numbers.
