# minibrowser

A small headless browser core with its logic verified by Verus: a DOM tree with
consistent links and an id index that holds each id once, CSS selector parsing and
matching, event dispatch in capture, target and bubble order that ends with the
listener that stops the event, DOM mutations and subtree copies, attribute maps and
inline styles that hold each name once, markup and JSON serialisation, cookies
(`Set-Cookie` parsing, HTTP dates, a jar that holds each name once per domain), HTTP
requests and the request log with replay and `curl` output, SSRF address checks, and
the helpers of the command line (headers, cookie files, link collection, DOM dumps,
batch lines).

The page scripting interfaces are here as state machines and pure functions: the
planning of a script's `fetch` and the JSON answer it receives, the table of
`XMLHttpRequest` instances, the table of WebSocket connections, the reading of the
mutation records a script leaves behind, the programs that hand a script engine the
document and its nodes, and the element table with the selector lookup the engine
calls. A JavaScript engine is not part of this crate; the command-line program runs
no scripts.

HTML is parsed by html5ever. Its nodes, listed in pre-order as plain values, carry a
name for what html5ever builds from the markup; the copy into the DOM tree is verified
against that list: every element, text and comment under the parsed `<html>` element
lands under the tree's html, head or body element, in order, and nothing else does.

Layout:

- `src/` — the verified library; each module states its contracts over spec
  functions and views, and the laws that relate its operations as proof functions.
- `tests/` — tests of the library on concrete values.
- `app/` — the command-line program: argument handling, HTTP, threads, files and
  JSON around the library.
