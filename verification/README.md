# mirror_console

A local console for mirroring and controlling phones: Android devices through
`adb` and `scrcpy`, iPhones through an on-device WebDriverAgent spoken to over
HTTP, with a small local store of stream settings, device notes and Wi-Fi
endpoints. No cloud, no accounts, no telemetry.

The library in `src/` holds the console's logic, each function with a contract
proved by Verus:

- `text`, `number`: whitespace, trimming, line and word splitting as the
  standard library does them; decimal formatting and unsigned parsing.
- `base64`, `json`: decoding screenshots; reading fields of the agent's replies.
- `http`: the request text, reading a reply's status and body, judging it.
- `ios`: where the agent is, the session to reuse or open, what each iOS
  command asks of the agent.
- `console`: which command an invocation names, the tools to run, what `adb`
  is asked and how its output reads, and the Android commands' messages.
- `store`: the store as three key-ordered maps and its line format. Writing a
  store out and reading it back gives the same store when no key or value
  holds a tab or a line break and no setting or note value ends in a carriage
  return. For any store, what is written has one line per entry, each of
  three tab-separated fields led by `S`, `N` or `W`, and the keys read back
  are the written keys with tabs and line breaks cleaned out.

`app/` is the program around it: processes, files, the network, floating-point
coordinates, and the terminal.
