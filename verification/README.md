# aion_tools

A verified library for two pieces of an agent runtime:

- `registry`: the tools an agent may call (`ToolRegistry`), their
  definitions as offered to the model, and which deferred tools have had
  their schemas activated by a tool search. Activated names are kept
  sorted and unique, survive a store/restore round trip, and are only
  restored for tools that are registered and deferred.
- `resource`: `resource_page`, which turns a resource text into one bounded
  page: a small value whole, a large string in pages of characters, a large
  array or object as an index of child JSON pointers; never a truncated
  JSON document. Every page takes at most 6000 bytes where the pointer has
  no control character.

`json` holds the document model and the calls into `serde_json` that parse,
navigate and print documents; `pointer` states how a JSON pointer resolves
in a document and proves that an index entry's pointer reaches its child; `text` holds decimal numerals, JSON pointer
token escaping and the order of strings.

`app/` holds the `ReadMcpResource` tool around `resource_page`: argument
decoding and the asynchronous read from the MCP session.
