# gstnada

Sender-side transport-wide congestion control for RTP, as GStreamer elements.

- `src/` is the verified library:
  - `bitstream`: bit-granular reads through the `bitreader` crate, with their contracts;
  - `feedback`: one status of a feedback report;
  - `nadatx`: the feedback report body read by the NADA sender (`parse_twcc`), its
    specification `twcc_feedback`, and the laws of decoded reports;
  - `gcctx`: the whole RTCP feedback packet read by the GCC sender (`parse_twcc`) and its
    specification `gcc_report`;
  - `settings`: the element properties and how bitrate estimates update them;
  - `element`: the per-packet decisions of the elements (transport-wide numbering,
    feedback handling, pacer output, send queue).
- `app/` holds the GStreamer elements, the plugin registration, the calls into the native
  controllers and a sending program.
- `tests/` runs the library on concrete packets.
