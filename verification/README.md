# asm_state

The core of an assembler, verified with [Verus](https://github.com/verus-lang/verus).

An assembler makes passes over its source until the sizes of all instructions agree
with the addresses that were computed from them. This library holds what such an
assembler knows (banks, symbols, rules), decides which rule an instruction matches,
puts the bits of every line in their place, and repeats passes as long as it has to.

The language of the source belongs to the program around the library: it implements
the traits `FileServer`, which reads files, and `Host`, which parses files and evaluates
expressions. An evaluator can ask a `Scope` for variables and functions, and sees no more
of the library's state.

The contracts assume nothing of what a host returns. They state what the library does
with it, whatever it is. What is asked of the parsed source is that it can be resolved:
the resolving functions ask it of their arguments, and `Assembler::assemble` of the
files. The functions of `validate` tell.

## Layout

| Module | Holds |
| --- | --- |
| `assembler` | the passes, and how banks make up the output |
| `output` | the bits of one bank |
| `resolve` | which candidate an instruction matches, and the value it has |
| `eval` | variables and built-in functions |
| `constrain` | the sizes of arguments and data elements |
| `state` | banks, rulesets and addresses |
| `validate` | whether a state can be assembled |
| `symbol`, `expr`, `ruleset`, `bank`, `host` | the data that these work on |
| `bits`, `bigint`, `bitvec` | integers of any length, and rows of bits |
| `diagn`, `text` | messages |
| `laws` | what holds of an assembly as a whole |
| `repeat` | what comes to the same when it is done again |

## Trust

One function is taken on trust: `state::share`, which copies an `Rc<String>`.
