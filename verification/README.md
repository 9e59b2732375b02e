# gw2-arbitrage

Finds Guild Wars 2 items that can be crafted for less than they sell for on the
trading post, and says what to buy for them.

The library in `src/` holds the data, the rules and the decisions, and is
verified with [Verus](https://github.com/verus-lang/verus): the contracts of its
functions say what they return, and the proof functions whose names begin with
`law_` say what holds of several of them together.

| Modules | What they hold |
|---|---|
| `money`, `listings`, `api` | exact amounts of coin, order books, and what trades on them cost |
| `recipe`, `item`, `crafting` | recipes, items, and ways to come by them |
| `simulation`, `profit`, `analysis` | crafting batch by batch until it stops paying, and choosing the items to try |
| `request`, `cache`, `favorites`, `config`, `icons` | addresses, retries, and what files hold |
| `calendar`, `velocity` | dates, and how fast items sell |
| `columns`, `table`, `prefs`, `session` | what a window shows, and how it reacts |
| `report`, `summary` | what is printed |
| `text`, `order` | text and sorting |

The search for the cheapest way to craft an item is a parameter of the
simulation. What follows from its answers is stated for any search.

`app/` is the program around the library: a console mode and a window, both of
which fetch, store and show what the library decides. Floating point stays
there.

`tests/` runs the library.
