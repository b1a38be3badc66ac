# sigil_phone

The phone half of sigil, with its decisions proved in Verus: what a phone
shows to be paired and reads when it is shown a pairing string, the order a
wake window keeps, what a woken phone says on its lock screen and under
which setting, which calls ring, and every call it makes into the platform's
glue, described as plain values before anything is called.

## Layout

```
src/          the library, verified
  pairing     sqx-device: and sqx-pair: strings, written and read back
  key         a key's base58 text (through bs58)
  notify      notifications composed from arrivals, under a privacy setting
  window      the wake window and a ring's refusal, as state machines
  wake        endpoint lifetimes, budgets, and what an exchange's answer means
  channel     a conversation as sixty-four hex characters, and back
  platform    calls into the glue as values; what its answers mean
  phone_app   what the Phone tab lists and says
  identity    the identity plan: open, make, or refuse -- never overwrite
  settings    the settings and where they live
  icon        a key's mark centred on its background, blended
  text        characters: trimming, case, splitting, decimals
tests/        the library's tests, run against the compiled crate
app/          files, JNI, the wake window's loop over a live session, PNG
```

Laws the library proves stand in `src/` as public proof functions beside
what they are about: for instance `notify::one_per_conversation`,
`notify::muting_is_dropping`, `window::the_order_of_a_window`,
`channel::channel_round_trip` and `identity::passphrase_round_trip`. The
pairing strings' round trips are the `ensures` of `pairing::device_string`
(every key's device string reads back as the key) and `pairing::pair_string`
(a pairing string reads back as the account and its domains when at least one
good domain is named and the string is within 512 bytes).
