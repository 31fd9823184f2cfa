# activity_stats

Aggregate statistics over an assistant's conversation transcripts: messages,
sessions and tool calls per project, per day and per hour, the most active
projects and their clusters, and the most used tools. The library is written
in Verus: its functions carry contracts that Verus proves, over the few
trusted calls into `serde_json` that `json.rs` declares.

## Layout

- `src/`: the verified library.
  - `calendar.rs`: day numbers and civil dates, `YYYY-MM-DD` texts, and the
    proofs that a day number names exactly one date and that date texts sort
    in calendar order.
  - `text.rs`: decimal formatting, byte-wise string order, equality.
  - `slug.rs`: display names and cluster keys of project slugs.
  - `path.rs`: file extensions and stems.
  - `json.rs`: the calls into `serde_json`, with their trusted contracts, and
    the tree in which the library reads a parsed JSON document.
  - `transcript.rs`: the fields of a transcript record and the rules that say
    whether it counts as a message.
  - `textset.rs`, `keyed.rs`, `rank.rs`: sets and counters of texts, keyed
    sequences read as maps, and sorting and top lists by count.
  - `insights.rs`: the insights accumulator and summary, with the clusters.
  - `stats.rs`: the live statistics accumulator, by day and by hour.
- `app/`: the commands that walk the directories, read the files line by
  line, hand each record to the library and serialise the results.
- `tests/`: scenarios on concrete values.
