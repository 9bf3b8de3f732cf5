//! A streaming, chunk-resumable JSON tokenizer paired with a fixed-capacity
//! open-addressed hash table that keeps an insertion/update history, plus a
//! small event-driven statistics accumulator.

pub mod basic_hash_table;
pub mod doubly_linked_list;
pub mod fixed_hash_table;
pub mod json_stream_parser;
pub mod stats;
