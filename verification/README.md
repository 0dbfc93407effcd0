# riverdeck_core

The logic of a program that drives stream controller devices: profiles, pages and
the actions on their keys and dials; the plugins that provide those actions and
the messages that pass between them and the devices; icon packs, marketplaces and
installations; and the router for the volumes of applications. It is written in
Verus. What each function returns or changes stands in its contract and is proved.

## Layout

- `src/` is the verified library. It computes on plain values. Where a decision
  rests on files, sockets or devices, a function takes what was found there and
  says what is to be done.
- `app/` is ordinary Rust around it: it reads and writes files, serves sockets,
  starts processes and draws on devices. What is computed in floating point
  (blending, cropping, rounding of corners) stands there too.
- `tests/` runs the library with the crates that it calls.

## Modules of the library

| Subject | Modules |
| --- | --- |
| Text, paths and JSON | `text`, `path`, `json` |
| Actions, contexts, devices | `shared` |
| Profiles, pages, stores | `profiles`, `pages`, `relocate`, `migration`, `stores`, `disk` |
| Instances of actions | `instances`, `options_schema` |
| Plugins | `manifest_text`, `manifest`, `plugins`, `local_plugins`, `install`, `install_run`, `processes`, `webserver`, `webview` |
| Marketplaces, icon packs | `marketplace`, `catalogue`, `icon_packs` |
| Events | `queue`, `keypad`, `encoder`, `screens`, `inbound`, `ui` |
| Pictures and devices | `picture`, `animation`, `label`, `deck` |
| Audio | `audio` |

## What is trusted

Calls into other crates stand behind small functions marked
`#[verifier::external_body]`, each with a doc comment that says what its contract
claims. A result that is too long to state has a name, a spec function without a
body: the same arguments give the same result. Where the library needs more of it
than that, such as the case of ASCII letters or that what was encoded decodes
again, the function that makes the call says so.

The names that start with `law_` are proof functions. They state what holds of
several functions together, such as that a profile that was stored reads back.
