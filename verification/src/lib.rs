//! Verified core of the MBSE test subsystem: trace graph derivations,
//! document ordering, content assembly and the services around them.

pub mod arrange;
pub mod assembly;
pub mod assembly_service;
pub mod content;
pub mod derivation_laws;
pub mod document_model;
pub mod document_order;
pub mod document_service;
pub mod dto;
pub mod error;
pub mod execution_model;
pub mod execution_service;
pub mod graph;
pub mod ids;
pub mod json;
pub mod laws;
pub mod natural;
pub mod project_service;
pub mod projectdata;
pub mod scheme;
pub mod scheme_service;
pub mod seq_facts;
pub mod settings;
pub mod text;
pub mod trace_ingest;
pub mod trace_items;
pub mod trace_model;
pub mod trace_query;
pub mod trace_service;
pub mod trace_store;
pub mod trace_views;
