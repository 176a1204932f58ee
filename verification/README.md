# adblock-rust-compat

Finds filter-list rules that have to do with a set of domains and reports which of them the
[adblock-rust](https://crates.io/crates/adblock) engine supports. A rule is supported only if the
engine parses it and, where it needs a scriptlet or redirect resource, that resource resolves;
otherwise it is unsupported, with a single reason.

The library is written in Verus: what each function returns is stated in its contract and proved.

| Module | What it does |
|---|---|
| `text`, `chars` | Texts as sequences of characters: what is meant, and the code that does it |
| `filters` | Rules as the engine parses them; which options it knows |
| `options` | The options and types that are read off a rule's text |
| `domains` | How a rule relates to a set of domains |
| `regexcheck` | Whether a full-regex rule can compile, and what is to blame if not |
| `resources` | Whether the resource of a rule resolves |
| `lists` | Where lists come from, and which of their lines are rules |
| `report` | The reports on the rules of all lists |
| `order`, `render` | The reports as text and as markdown |
| `explain` | The explanation of a single rule |
| `command` | What the arguments of the program ask for |

The properties that the functions have together stand at the end of each module, as public proof
functions. What is taken on trust is what the outside crates do: each such item carries a comment
that names the outside function and says what is claimed of it.

`app/` is the program around the library: it reads files, fetches lists and prints. It reads the
engine's resources from `data/brave-resources.json`.
