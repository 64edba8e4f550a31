# pipecap

Inspect Apple Silicon display-pipe allocation and cap a monitor's EDID so that more external
displays fit. The library is written and proved in Verus.

The display crossbar reserves pipes for a monitor from the highest mode in its EDID, not from
the mode you selected. `pipecap cap` removes every timing above a refresh rate from the EDID
(base-block detailed timings, CTA-861 video descriptors, YCbCr 4:2:0 blocks and detailed
timings, DisplayID Type I and Type VII timings) and installs the result as a virtual EDID.

## What is proved

`src/laws.rs` states what capping guarantees, for every valid EDID whose preferred timing is
within the cap:

* the capped EDID is valid, as long as before, and advertises no timing above the cap;
* what is within the cap stays, in the same order, and nothing is added, the codes of the
  YCbCr 4:2:0 video data blocks included;
* an EDID that is already within the cap comes back byte for byte;
* what is reported as dropped is what was above the cap, and, where no YCbCr 4:2:0 code is
  above it, in the order in which the EDID has it;
* the display keeps its identity, its name and its blocks;
* the range limits follow, and still cover what is left;
* capping again, at the same or a higher rate, changes nothing.

It also states that decoding does not look at the checksums.

Only a CTA-861 block whose data blocks run into its detailed timings can be an exception: what
stays of it may be longer than a block. `cap::can_cap` says when, and the laws say which of
them still hold.

Refresh rates are exact fractions: a refresh rate is the pixel clock over the pixels of a whole
frame, and a cap is a fraction too. The program takes the cap as a floating point number and
turns it into the fraction that the same refresh rates are above.

## Layout

* `src/` the library, every item of it verified.
* `tests/` its tests.
* `app/` the command line program: arguments, IOKit, launchd, files, JSON, and the conversion
  between floating point numbers and the library's fractions.

## Usage

```sh
pipecap status                              # pipe allocation, pending displays, suggestion
pipecap list                                # external outputs and their EDIDs
pipecap decode some.bin
pipecap cap --display "4K160" --dry-run     # show what would be removed
pipecap cap --display "4K160" --max-hz 120
pipecap reset --all
pipecap agent install --display "4K160"     # keep the cap applied
```
