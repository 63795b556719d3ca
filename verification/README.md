# oal_compiler

The verified core of the compiler of the Oxlip API Language (OAL), a language
for describing HTTP APIs that compiles to OpenAPI.

`src/` holds the library, verified with Verus:

- `tag`, `unify`, `disjoin`, `union`, `infer`: type tags, type inference by
  unification, substitutions and classes of equivalent tags;
- `rules`: the tags that expression nodes receive and the equations, with
  their spans, that they and the nodes of a module contribute to inference;
- `resolver`: the resolution of references to declarations, with the
  detection of cycles;
- `eval`: the schemas of primitive types and their annotated constraints;
- `typecheck`: the typing rules of the language's constructs;
- `annotation`: YAML annotations and their deep merge;
- `module`, `modset`, `defgraph`: module loading and its order, module sets,
  and the detection of recursive definitions;
- `env`, `scope`: scoped environments of definitions;
- `position`, `workspace`, `server`: text positions of the language server
  protocol, open documents, and the decisions of the server's loop;
- `codegen`: labels of the generated OpenAPI description;
- `errors`, `locator`, `cli`.

`app/` holds what stays outside the verified library: files, YAML output,
configuration, the loop that loads modules, and conversions to and from the
types of the language server protocol.
