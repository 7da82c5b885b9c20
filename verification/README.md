# dc

A small rendering front end: it reads HTML documents and CSS style sheets,
matches simple selectors against elements and computes the values that a style
sheet specifies for each node of a document.

- `src/css_logic.rs`: the style sheet model; the grammar of selector lists,
  declaration blocks, values and hexadecimal colours, over the tokens of each
  qualified rule.
- `src/html_logic.rs`: the document tree, reading HTML with html5ever, and the
  outline of a document.
- `src/style_logic.rs`: selector matching, specified values and the style tree.
- `src/text.rs`: white space, trimming, words and hexadecimal numbers.
- `src/laws.rs`: properties of the library as a whole.
- `app/main.rs`: the program; it runs cssparser's rule-level parser (which needs
  parser traits implemented) and hands the tokens of each rule to the library.

Lengths are kept as the bit pattern of their `f32` number.
