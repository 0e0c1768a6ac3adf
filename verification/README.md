# events

Turns a public iCalendar feed and a JSON list of university rooms into the
list of upcoming events that a web page shows. The library in `src/` is
written in Rust with Verus: what each function returns is stated in its
contract and proved.

- `calendar`: reads the text of a calendar into events
- `recurrence`, `weekdays`: the occurrences of events that recur
- `time`, `clock`, `zone`: days, instants, the texts of dates, time zones
- `sorting`, `order`: stable sorting, and events in the order in which they end
- `json`, `spaces`, `links`: the rooms and the links to places
- `presentation`, `listing`: the entries of the page and the whole list
- `composition`: how the lists of joined calendars are made up

Functions named `law_...` state what holds of the library as a whole.
Functions marked `external_body` call other crates; their contracts are
taken on trust, and their comments say what is claimed.

Which dates a rule gives, and how far the clocks are from UTC, depends on
the time zone of the machine. `data_to_events` asks the machine and hands
the answers on; everything after that is settled by its contract.

`app/` fetches the two texts, caches the list for ten minutes and serves it
under `/events`.
