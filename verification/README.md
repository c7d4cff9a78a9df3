# lol_query

Element matching and query plans over streaming HTML, verified with Verus.

A `Matcher` describes an ancestry chain of selectors (CSS selectors, predicates,
`not` / `every` / `any`, and constrained gaps such as `direct()` or `gap_without`).
A chain compiles into a regular expression over bitsets, one bitset per open element;
a lazily built DFA decides, as each element starts, which chains match it. A query
plan (paths, relational operators, a fold) can be evaluated offline on a parsed
document or lowered onto the same engine for streaming.

## Layout

- `src/regex_spec.rs`, `src/regex_lang.rs`: the model of expressions, their
  Brzozowski derivatives, and the language each expression matches.
- `src/general_regex.rs`: canonical expressions and the lazy DFA.
- `src/matcher/`, `src/engine/`: matchers, their compilation into chains, and the
  runtime that tracks the open ancestry of every chain.
- `src/plan/`: plan representation, builder, offline evaluation (over scraper),
  lowering and the streaming shell.
- `app/`: the glue to lol_html's rewriter (handlers, callbacks).
- `tests/`: behaviour on concrete documents.

## What is proved

- The DFA accepts a word exactly when the pattern's language holds it; the
  canonical constructors keep the language of the plain ones.
- At every element start, a chain matches exactly when its pattern's language holds
  the bitsets of the element's open ancestry followed by its own; ending an element
  restores the ancestry saved when it started. Bit `k` of an element's bitset is set
  exactly when the chain's test `k` holds.
- A compiled chain's tests follow its steps: a selector step's test reads the hit of a
  leaf carrying that selector, `not`/`every`/`any` read the matches of the chains
  compiled from their nested chains, and each gap step has one test per nested chain.
  Whether a leaf's CSS selector matches an element is decided by lol_html, and its
  predicate's verdict by the caller's closure, outside the library.
- Over bitsets, chain pieces mean what the combinators promise: two selectors in a row
  are the descendant combinator, `direct()` the child combinator, and the gap
  constraints hold of the elements in between.
- Each element start takes exactly one DFA transition per chain; over a stream started
  from a fresh runtime, node ids count the elements started before, instance ids are
  issued 0, 1, 2, ... and each chain's transitions equal the number of elements.
- Each leaf holds the predicate of its filter: predicates are handed out in filter
  order (nested chains depth first), and a filter's predicate answers as the closure
  given to `filter` does. `any()`/`every()` do not depend on the order of their
  nested matchers.
- Caller functions are called only where they may be: `Apply` functions on argument
  lists they accept, fold appends on what they accept.
- Offline paths denote the relation of their axes, unions, compositions and
  closures; descendants-or-self come in document order, closures of single
  steps (parent, next, previous) list their nodes nearest first, and unions and
  compositions of paths whose order is fixed list each node once, where first met
  (so `find` lists descendants in document order).
- Instances of a chain are numbered 0, 1, 2, ... and end in reverse order of their
  start; the text handed to an ending instance is exactly the text seen since it
  started.
- Offline evaluation returns the returned expression's value on the one row that the
  relational semantics gives the relation it reads (root row, expands along path
  results, projections, folds through the registered monoid), over the document's
  model (tags, attributes, text); caller functions are known only through what they
  may return. The document model is built, and proved built, from the depth-first
  walk of the tree that scraper parses from the source (a named function of the
  source): the root, then each element in the order it starts, under the innermost
  element it is inside of, with the text of the text nodes inside of it. Path and plan
  evaluation take the selector answers per node as an argument (`eval_answered`) and
  their results are fixed by them; `eval` collects those answers from scraper on the
  document's source first (each a named function of the source and the selector), and
  `try_eval` refuses a selector that does not parse.
- A leaf whose predicate rejects an element records no hit; otherwise the leaf is hit
  (`Runtime::leaf_matched`).
