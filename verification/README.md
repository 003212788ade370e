# scuisei_rs

Scene change detection for video, with the decision logic verified in Verus.

- `src/` is the library: frame metrics and block motion analysis (`simd_metrics`, `motion`,
  `meanalysis`), the two detectors (`detector`), keyframe refinement (`postprocess`), the frame by
  frame pipeline (`analysis`), pixel format and plane checks (`decoder`), the output formats
  (`formatter`), options and errors (`cli`, `validation`, `error`).
- `app/` is the program around it: the command line, decoding with FFmpeg, floating-point
  arithmetic and the Python module.
- `tests/` runs the library on concrete values.

The library holds a floating-point number as its bits (`double::Double`). It compares, orders and
validates such numbers; the program computes them and hands them in.

Building the program needs the FFmpeg development libraries and `pkg-config`.
