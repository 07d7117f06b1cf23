# kotlin-releases-bot

Announces new Kotlin releases and blog posts to Telegram destinations: GitHub's
release list and the Kotlin blog's RSS feed, each with its own destination list
and its own delivery records. It runs as a Cloudflare Worker on a cron trigger.

`src/` is the library, verified with [Verus](https://github.com/verus-lang/verus).
It decides and computes, and performs no I/O:

| module | what it holds |
| --- | --- |
| `model` | entries, feeds, destinations, outcomes, record keys |
| `releases` | reading the release list, which tags are releases |
| `xml`, `rss` | tokens of the blog feed, and the entries they make |
| `feeds` | what a feed has to announce |
| `targets` | the destination list |
| `message`, `telegram`, `http` | what is sent, and what the reply proves |
| `record` | delivery records and their stored form |
| `pass` | one pass over the destinations, as a state machine |
| `laws` | what holds of every pass, however its actions go |
| `ticks` | what holds of one pass after another, with a store between them |
| `page` | the page the Worker answers requests with |
| `json`, `text` | JSON through `serde_json`, and the string operations used |

The delivery guarantees are theorems in `laws`: an entry is recorded before it is
sent, nothing is sent twice, an unknown delivery is never retried, what Telegram
provably refused is given back, one failing destination blocks no other, the
waits of a pass fit its budget, and every pass ends. `ticks` adds that the next
pass sends nothing again that was sent or may have been, while no destination is
listed twice and the feed shows no more entries than the fifty a record holds;
and that it only reads after a pass that went well, as long as the claims of that
pass pushed nothing out of a record that the feed still shows.

What is believed rather than proved are the contracts of the functions marked
`external_body` in `json` and `xml`, and of `String::push` in `text`. Each says
which outside function it calls and what it claims of it.

`app/` carries the decisions out over KV, `fetch` and timers. `extras/build.sh`
builds the Worker with the commit, and whether there are changes since, stamped
into the page.
