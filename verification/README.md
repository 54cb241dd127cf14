# docx_rs: Word equations and run languages

The XML of two `.docx` elements, written by verified code:

- `OMath` / `OMathElement` (`src/omath.rs`): native Word equations, a tree of
  OMML `m:` elements written as `<m:oMath>…</m:oMath>`, inside `<m:oMathPara>`
  for a display equation.
- `Lang` (`src/lang.rs`): `<w:lang w:val=… w:eastAsia=… w:bidi=… />`.

Supporting modules: `src/escape.rs` (XML escaping of text and attribute
values), `src/xml.rs` (the tag shapes and the writers that append them),
`src/wellformed.rs` (a character-level XML reader: tags, quoted attributes,
character data and the five predefined entities, with the stack of open
elements and the count of root elements; it reports what it read as events,
entities decoded).

Each writer's contract gives its output exactly, as a spec function of the
value. Proved laws include: every equation's XML, read by that reader, is one
root element (`m:oMathPara` for a display equation, `m:oMath` otherwise) with
every element closed in order, every `&` starting an entity, and reads back as
the equation's tree with its run texts and glyphs decoded to the strings in
the tree; a display equation is the inline one wrapped in `<m:oMathPara>`, also
for a copy; copies write the same XML. The reader is not a full XML parser: it
knows no comments, processing instructions, CDATA, character references or
declarations, none of which the writers emit.

`app/` holds the serde (JSON) forms of `Lang` and `OMath`.
