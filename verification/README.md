# wincode_derive

The logic behind the `SchemaRead` and `SchemaWrite` derives of a binary serialization format, as
a library that is verified with Verus.

A derive sees a declaration: its fields, its variants, its attributes. From these the library
finds out

- by which types and traits the fields are read and written (`field`, `fields`, `infer`,
  `lifetimes`, `syntax`, `names`),
- what is known of the size of a type ahead of time (`meta`, `variant`, `repr`),
- whether the arguments of the derive are accepted (`args`), and what depends on the generic
  parameters (`generics`),
- how adjacent fields of known size are grouped into runs that are read and written through one
  trusted window each (`meta`).

The modules `schema`, `wire`, `record`, `encode` and `decode` hold what such a declaration does
when it runs: values are written and read run by run, on writers and readers that record their
windows. `runs` states what holds of that as a whole, among it that what is written is read back,
that windows are filled exactly and finished before anything else is written, and that reading
inside of a window never comes to the end of the buffer.

`app/` parses the input of the derives with `darling` and `syn`, and renders what the library
finds as code.
