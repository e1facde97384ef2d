# usb_disk_remover

Verified core of a Windows utility that lists removable USB and FireWire
drives and ejects them safely.

- `src/` is the library, verified with Verus:
  - `utils` — bit tests on the logical-drive bitmask, UTF-16 encoding of
    strings for wide-character calls;
  - `text` — lossy UTF-16 decoding, UTF-8 decoding, Unicode whitespace
    trimming, decimal rendering;
  - `drives` — drive letters from the bitmask, drive-type and bus decisions,
    volume labels, storage device descriptor parsing, the drive list;
  - `eject` — the ejection sequence (lock, dismount, locate device and
    parent, request eject) as a state machine;
  - `commands` — which drive a removal request names, tray-window and menu
    decisions;
  - `ui` — status texts, messages and theme colours.
- `app/` is a console front end that performs the Windows system calls and
  hands their answers to the library.
- `tests/` exercises the library on concrete values.
