# Turtle Graphics — verified library

An interpreter for a small turtle-graphics language (`forward`, `turn`,
`pen`, `color`, `set`, `print`, `dotimes`, `to` procedures), with an animated
software renderer.  The library in `src/` is written in Verus; its contracts
and laws are checked by the verifier.

## Layout

| Path | Contents |
|---|---|
| `src/lexer.rs` | `tokenize`: text → tokens with 1-based line numbers, specified by `lex` |
| `src/ast.rs` | `Command` / `Expr` trees and their models |
| `src/parser.rs` | recursive-descent `Parser`, specified by `parse_program_at` |
| `src/messages.rs` | the text of parse errors |
| `src/printing.rs` | how commands are spelled in tokens; parsing reads that back |
| `src/spelling.rs` | how tokens are written as text; lexing and parsing read that back |
| `src/interpreter.rs` | `ProcTable` and the step `Machine` that runs a program's control flow |
| `src/renderer.rs` | `clear`, `set_pixel`, Bresenham `bresenham` on integer pixels |
| `src/animation.rs` | `Anim`: how many line segments are revealed, tick by tick |
| `src/text.rs` | characters and strings: the facts of std's Unicode tables that lexing uses |
| `app/` | the program: float evaluation, turtle geometry, viewport fitting, window and event loop (`pixels`, `winit`) |
| `tests/` | tests of the library |

Numbers in the language are floating point.  The library keeps a number as
the text of its literal; evaluating expressions and moving the turtle happen
in `app/`, which answers the machine's requests step by step.
