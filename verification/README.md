# structural_tag

xgrammar structural tags for Gemma 4's native tool calls, verified with Verus.

A backend takes one grammar for a turn. `gemma4_structural_tag` builds it from the tools of a
request and its `response_format` schema:

```text
[ reasoning_prefix ] ( content_schema [ tool_calls ] | tool_calls )
```

What is proved comes in two layers.

- Each function returns the JSON of an exactly stated grammar (`Format::render`).
- The grammars admit the texts that they should (`language`, `args_language`,
  `turn_language`). A turn divides into calls of distinct tools, and a forced choice is one
  call. Where arguments cannot hold the end marker of a call (any text, which stops at it, or
  exact arguments without strings), nothing can follow the single call, and no tool repeats in
  a row of calls if the names tell the tools apart. Where the grammar of the arguments is exact, no required one is left out.
  The body that gives a required string an empty value is refused, unless the grammar is not
  exact and the key itself holds a string delimiter. A turn without a message is not empty.

| module | |
| --- | --- |
| `json` | JSON values and the trees that contracts speak of |
| `value` | between `serde_json::Value` and `Json`: conversions in both directions |
| `format` | the formats and the JSON that spells them |
| `permute` | orderings of the keys |
| `args` | the grammar of a call's body |
| `gemma4` | calls, turns and the tag |
| `language` | which texts a format admits |
| `args_language`, `turn_language` | what that comes to for a body and for a turn |

`serde_json` is built with `preserve_order`: objects keep the order in which their entries were
written.
