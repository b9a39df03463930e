//! Context-aware completion for element-factory calls in Luau source text.
//!
//! Given a document and a cursor, the library maps the cursor to a byte
//! offset, finds the factory calls (directly, or through local aliases of the
//! factory's `createElement`), classifies which slot of the call the cursor
//! sits in, and ranks the schema names offered there.

pub mod calls;
pub mod classify;
pub mod completion;
pub mod delimiters;
pub mod locate;
pub mod manager;
pub mod names;
pub mod patterns;
pub mod position;
pub mod rank;
pub mod schema;
pub mod text;
pub mod words;

pub use calls::{extract_all_create_element_groups, extract_create_element_groups};
pub use classify::{
    classify_call, classify_cursor, classify_group, completion_context, ContextKind, InvalidPosition,
};
pub use completion::{
    candidates_in_context, get_completion_items, CandidateKind, CompletionCandidate,
};
pub use delimiters::{
    context_is_assignment, find_matching_brace, find_matching_bracket, find_mattching_paren,
    lemma_rematch_stays_inside,
};
pub use locate::{
    binding_name, extract_react_var_name, get_create_element_macros, get_react_var_name, has_react,
    select_aliases,
};
pub use manager::{lemma_instance_search, lemma_instance_search_ranked, subsequence_of, ApiManager};
pub use names::{extract_name_from_span, extract_react_inst_name};
pub use position::{lemma_position_in_text, position_to_byte_offset, Position};
pub use rank::{
    lemma_rank_order_total, lemma_rank_sorted_permutation, lemma_rank_unique, rank_candidates,
};
pub use schema::{
    get_metadata, process_api_dump_json, ApiDump, Instance, Member, ParsedInstance, ParsedProperty, Security,
    Serialization, ValueType,
};
pub use words::build_word_freq;
