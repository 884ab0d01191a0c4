# mbse_testlib

The test side of an MBSE system: requirements are traced through five stages
(requirement → test item → test case → test record → test report), projects
bind a scheme that says which data they keep, a checklist is where that data
is filled in, and document templates are assembled into documents from it.

The library is written in Verus: every operation carries a contract, and the
properties that relate several operations are stated and proved in
`src/laws.rs`.

## Layout

- `src/` — the verified library
  - `trace_model`, `trace_store`, `trace_service`, `trace_items`,
    `trace_ingest`, `trace_views`, `trace_query`, `graph`, `arrange`,
    `natural`: the trace graph, its per-project store, ingest and upload,
    closures, matrix and coverage, and the canonical stage order
  - `document_model`, `document_order`, `document_service`: templates, their
    node structure and document order
  - `execution_model`, `execution_service`: checklists derived from templates
  - `scheme`, `scheme_service`, `projectdata`, `project_service`: schemes,
    projects and the data a project keeps
  - `content`, `assembly`, `assembly_service`: the content primitives and the
    assembly of a document
  - `error`, `dto`, `settings`, `text`, `json`, `ids`, `seq_facts`: shared pieces
  - `laws`: cross-operation properties
- `tests/` — tests of the library on concrete values
- `app/` — the HTTP server around the library (axum, tokio), configuration
  loading, and the serde forms of the library's types
