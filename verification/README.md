# tinyexpr

A math-expression compiler whose front end is verified with Verus.

- `src/` is the verified library: the byte-level lexer (`lexer`), the
  recursive-descent parser (`parser`), the syntax tree and its model
  (`ast`), the planner that marks the constant subtrees to be evaluated
  once at compile time (`fold`), the table that resolves variable and
  function names and keeps each one's slot or definition (`scope`), the
  names, arities and purity of the built-in functions (`builtins`), and the
  64-bit cores of the `fac` and `ncr` built-ins (`combinatorics`). Each public function is specified against
  spec functions of the grammar and of the folding rule. The `layout`
  module proves what the text around an expression does not change: a
  leading `+` or `--`, surrounding blanks, enclosing parentheses, and
  blanks next to a parenthesis or a separator give the same tree, its
  literals at the offsets they moved to.
- `app/` is the floating-point layer around it: variable slots, native
  functions and closures, reading numeric literals, evaluation, and the
  floating-point function behind each built-in.
- `tests/` exercises the library on concrete expressions.

Grammar:

```
list   = expr {"," expr}
expr   = term {("+" | "-") term}
term   = factor {("*" | "/" | "%") factor}
factor = power {"^" power}
power  = {("-" | "+")} base
base   = number | variable | function0 ["(" ")"]
       | function1 power
       | functionN "(" expr {"," expr} ")"
       | "(" list ")"
```

A zero-argument function is called with no parentheses or with exactly one
empty pair: `pi` and `pi()` are both accepted, `pi()()` is not.
