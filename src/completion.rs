//! The completion query: the candidates offered at a cursor.

use vstd::prelude::*;
use vstd::string::*;

use crate::classify::{completion_context, query_context, ContextKind, ContextModel, InvalidPosition};
use crate::locate::string_views;
use crate::manager::{bare_entries, entry_names, matching_names, ApiManager};
use crate::position::Position;
use crate::rank::{pair_views, rank};
use crate::schema::{entry_views, Entry};

verus! {

/// What a candidate names.
#[derive(Clone, Copy, Debug, PartialEq, Eq, Structural)]
pub enum CandidateKind {
    Property,
    Event,
    InstanceClass,
}

/// One completion candidate: a name, what it names, and its type when it has one.
#[derive(Clone, Debug, PartialEq, Eq)]
pub struct CompletionCandidate {
    pub name: String,
    pub kind: CandidateKind,
    pub detail: Option<String>,
}

/// The mathematical form of a candidate.
pub type CandidateModel = (Seq<char>, CandidateKind, Option<Seq<char>>);

/// The views of a list of candidates.
pub open spec fn candidate_views(v: Seq<CompletionCandidate>) -> Seq<CandidateModel> {
    v.map_values(
        |c: CompletionCandidate|
            (
                c.name@,
                c.kind,
                match c.detail {
                    Some(d) => Some(d@),
                    None => None,
                },
            ),
    )
}

/// Ranked entries as candidates of kind `kind`, each with its type.
pub open spec fn typed_candidates(es: Seq<Entry>, kind: CandidateKind) -> Seq<CandidateModel> {
    es.map_values(|e: Entry| (e.0, kind, Some(e.1)))
}

/// Class names as candidates.
pub open spec fn class_candidates(ns: Seq<Seq<char>>) -> Seq<CandidateModel> {
    ns.map_values(|n: Seq<char>| (n, CandidateKind::InstanceClass, None::<Seq<char>>))
}

/// The candidates for context `k`: the ranked properties or events of the
/// named class, or the ranked class names matching the literal typed so
/// far; nothing when the schema is not loaded or lacks the class.
pub open spec fn candidates_for(api: ApiManager, k: ContextModel) -> Seq<CandidateModel> {
    match k {
        ContextModel::Nothing => seq![],
        ContextModel::Property(n) => if api.schema() is Some && api.schema()->0.contains_key(n) {
            typed_candidates(
                rank(api.freq(), entry_views(api.schema()->0[n].properties@)),
                CandidateKind::Property,
            )
        } else {
            seq![]
        },
        ContextModel::Event(n) => if api.schema() is Some && api.schema()->0.contains_key(n) {
            typed_candidates(
                rank(api.freq(), entry_views(api.schema()->0[n].events@)),
                CandidateKind::Event,
            )
        } else {
            seq![]
        },
        ContextModel::InstanceName(q) => match api.known_names() {
            Some(ns) => class_candidates(
                entry_names(rank(api.freq(), bare_entries(matching_names(ns, q)))),
            ),
            None => seq![],
        },
    }
}

fn typed(pairs: Vec<(String, String)>, kind: CandidateKind) -> (r: Vec<CompletionCandidate>)
    ensures
        candidate_views(r@) == typed_candidates(pair_views(pairs@), kind),
{
    let mut r: Vec<CompletionCandidate> = Vec::new();
    let mut i: usize = 0;
    while i < pairs.len()
        invariant
            i <= pairs@.len(),
            candidate_views(r@) =~= typed_candidates(pair_views(pairs@.take(i as int)), kind),
        decreases pairs@.len() - i,
    {
        r.push(
            CompletionCandidate {
                name: pairs[i].0.clone(),
                kind: kind,
                detail: Some(pairs[i].1.clone()),
            },
        );
        assert(typed_candidates(pair_views(pairs@.take(i + 1)), kind) =~= typed_candidates(
            pair_views(pairs@.take(i as int)),
            kind,
        ).push((pairs@[i as int].0@, kind, Some(pairs@[i as int].1@))));
        i = i + 1;
    }
    assert(pairs@.take(pairs@.len() as int) =~= pairs@);
    r
}

fn classes(names: Vec<String>) -> (r: Vec<CompletionCandidate>)
    ensures
        candidate_views(r@) == class_candidates(string_views(names@)),
{
    let mut r: Vec<CompletionCandidate> = Vec::new();
    let mut i: usize = 0;
    while i < names.len()
        invariant
            i <= names@.len(),
            candidate_views(r@) =~= class_candidates(string_views(names@.take(i as int))),
        decreases names@.len() - i,
    {
        r.push(
            CompletionCandidate {
                name: names[i].clone(),
                kind: CandidateKind::InstanceClass,
                detail: None,
            },
        );
        assert(class_candidates(string_views(names@.take(i + 1))) =~= class_candidates(
            string_views(names@.take(i as int)),
        ).push((names@[i as int]@, CandidateKind::InstanceClass, None::<Seq<char>>)));
        i = i + 1;
    }
    assert(names@.take(names@.len() as int) =~= names@);
    r
}

/// The candidates for a context (see [`candidates_for`]).
pub fn candidates_in_context(api: &ApiManager, context: &ContextKind) -> (r: Vec<CompletionCandidate>)
    ensures
        candidate_views(r@) == candidates_for(*api, context@),
{
    match context {
        ContextKind::NoContext => Vec::new(),
        ContextKind::PropertyAssignment(n) => match api.lookup_properties(n.as_str()) {
            Some(v) => typed(v, CandidateKind::Property),
            None => Vec::new(),
        },
        ContextKind::EventKeyLookup(n) => match api.lookup_events(n.as_str()) {
            Some(v) => typed(v, CandidateKind::Event),
            None => Vec::new(),
        },
        ContextKind::InstanceNameLiteral(q) => match api.get_all_inst(q.as_str()) {
            Some(v) => classes(v),
            None => Vec::new(),
        },
    }
}

/// The completion candidates at `cursor` in `doc`: [`InvalidPosition`]
/// whenever the cursor's line lies past the document's last line; otherwise
/// empty when the document does not use the factory or the cursor is not at
/// a completion point.
pub fn get_completion_items(doc: &str, cursor: &Position, api_manager: &ApiManager) -> (r: Result<
    Vec<CompletionCandidate>,
    InvalidPosition,
>)
    ensures
        match r {
            Ok(v) => query_context(doc@, cursor.line as nat, cursor.character as nat) matches Some(k)
                && candidate_views(v@) == candidates_for(*api_manager, k),
            Err(_) => query_context(doc@, cursor.line as nat, cursor.character as nat) is None,
        },
{
    let context = completion_context(doc, cursor)?;
    Ok(candidates_in_context(api_manager, &context))
}

} // verus!
