//! What a document that passes validation is known to satisfy.

use vstd::prelude::*;

use crate::command::{
    document_problem, formula_problem, keys_of, layers_problem, lemma_first_fault_none, next_id_problem,
    parameter_entry_problem, parameters_problem, DocumentFacts, DocumentView,
};
use crate::document::{layer_entry_problem, layer_key, layer_table_problem_from};
use crate::expression::{utf8, valid_parameter_name};
use crate::text::is_blank;
use crate::document::lemma_max_id;
use crate::keyed::{entries, lemma_entries_exist};
use crate::CURRENT_SCHEMA_VERSION;

verus! {

/// A counter that passes its check exceeds every id in use.
proof fn lemma_next_id_exceeds<V>(kind: Seq<char>, next: u64, m: Map<u64, V>)
    requires
        next_id_problem(kind, next, keys_of(m)) is None,
        m.dom().finite(),
    ensures
        forall|k: u64| #[trigger] m.contains_key(k) ==> k < next,
{
    lemma_entries_exist(m);
    let ids = keys_of(m);
    lemma_max_id(ids);
    assert forall|k: u64| #[trigger] m.contains_key(k) implies k < next by {
        let i = choose|i: int| 0 <= i < entries(m).len() && entries(m)[i].0 == k;
        assert(ids[i] == k);
    }
}

/// A document that passes validation, with the host's facts, has the current
/// schema version and at least one layer; layers keyed by id with non-blank
/// names unique up to case; parameters keyed by id with valid, unique names
/// and finite values; parameter formulas that all resolve; and id counters
/// above every layer, entity, parameter and constraint id in use.
pub proof fn law_valid_document_consequences(d: DocumentView, facts: DocumentFacts)
    requires
        document_problem(d, facts) is None,
        d.layers.dom().finite(),
        d.entities.dom().finite(),
        d.parameters.dom().finite(),
        d.constraints.dom().finite(),
    ensures
        d.schema_version == CURRENT_SCHEMA_VERSION,
        exists|k: u64| d.layers.contains_key(k),
        formula_problem(d) is None,
        forall|k: u64| #[trigger] d.layers.contains_key(k) ==> d.layers[k].id == k && !is_blank(d.layers[k].name@),
        forall|a: u64, b: u64|
            #[trigger] d.layers.contains_key(a) && #[trigger] d.layers.contains_key(b) && a != b ==> layer_key(
                d.layers[a].name@,
            ) != layer_key(d.layers[b].name@),
        forall|k: u64| #[trigger] d.parameters.contains_key(k) ==> d.parameters[k].id == k && valid_parameter_name(
            utf8(d.parameters[k].name@),
        ) && d.parameters[k].value_finite,
        forall|a: u64, b: u64|
            #[trigger] d.parameters.contains_key(a) && #[trigger] d.parameters.contains_key(b) && a != b
                ==> d.parameters[a].name@ != d.parameters[b].name@,
        forall|k: u64| #[trigger] d.layers.contains_key(k) ==> k < d.next_layer_id,
        forall|k: u64| #[trigger] d.entities.contains_key(k) ==> k < d.next_entity_id,
        forall|k: u64| #[trigger] d.parameters.contains_key(k) ==> k < d.next_parameter_id,
        forall|k: u64| #[trigger] d.constraints.contains_key(k) ==> k < d.next_constraint_id,
{
    lemma_entries_exist(d.layers);
    assert(d.layers.contains_key(entries(d.layers)[0].0));
    lemma_next_id_exceeds("layer"@, d.next_layer_id, d.layers);
    lemma_next_id_exceeds("entity"@, d.next_entity_id, d.entities);
    lemma_next_id_exceeds("parameter"@, d.next_parameter_id, d.parameters);
    lemma_next_id_exceeds("constraint"@, d.next_constraint_id, d.constraints);
    law_valid_layers_are_named_uniquely(d);
    law_valid_parameters_are_named_uniquely(d);
}

proof fn lemma_layer_table_clear(layers: Seq<(u64, crate::document::Layer)>, i: int, k: int)
    requires
        layer_table_problem_from(layers, i) is None,
        0 <= i <= k < layers.len(),
    ensures
        layer_entry_problem(layers, k) is None,
    decreases k - i,
{
    if i < k {
        lemma_layer_table_clear(layers, i + 1, k);
    }
}

/// The layers of a document whose layer checks pass are keyed by their ids,
/// have non-blank names, and no two have names alike up to case and
/// surrounding white space.
pub proof fn law_valid_layers_are_named_uniquely(d: DocumentView)
    requires
        layers_problem(d.schema_version, d.layers) is None,
        d.layers.dom().finite(),
    ensures
        forall|k: u64| #[trigger] d.layers.contains_key(k) ==> d.layers[k].id == k && !is_blank(d.layers[k].name@),
        forall|a: u64, b: u64|
            #[trigger] d.layers.contains_key(a) && #[trigger] d.layers.contains_key(b) && a != b ==> layer_key(
                d.layers[a].name@,
            ) != layer_key(d.layers[b].name@),
{
    lemma_entries_exist(d.layers);
    let es = entries(d.layers);
    assert forall|k: u64| #[trigger] d.layers.contains_key(k) implies d.layers[k].id == k && !is_blank(d.layers[k].name@) by {
        let i = choose|i: int| 0 <= i < es.len() && es[i].0 == k;
        lemma_layer_table_clear(es, 0, i);
    }
    assert forall|a: u64, b: u64|
        #[trigger] d.layers.contains_key(a) && #[trigger] d.layers.contains_key(b) && a != b implies layer_key(
            d.layers[a].name@,
        ) != layer_key(d.layers[b].name@) by {
        let i = choose|i: int| 0 <= i < es.len() && es[i].0 == a;
        let j = choose|j: int| 0 <= j < es.len() && es[j].0 == b;
        if i < j {
            lemma_layer_table_clear(es, 0, j);
        } else {
            lemma_layer_table_clear(es, 0, i);
        }
    }
}

/// The parameters of a document whose parameter checks pass are keyed by
/// their ids, have valid names and finite values, and no two share a name.
pub proof fn law_valid_parameters_are_named_uniquely(d: DocumentView)
    requires
        parameters_problem(d) is None,
        d.parameters.dom().finite(),
    ensures
        forall|k: u64| #[trigger] d.parameters.contains_key(k) ==> d.parameters[k].id == k && valid_parameter_name(
            utf8(d.parameters[k].name@),
        ) && d.parameters[k].value_finite,
        forall|a: u64, b: u64|
            #[trigger] d.parameters.contains_key(a) && #[trigger] d.parameters.contains_key(b) && a != b
                ==> d.parameters[a].name@ != d.parameters[b].name@,
{
    lemma_entries_exist(d.parameters);
    let ps = entries(d.parameters);
    let f = |i: int| parameter_entry_problem(ps, i);
    lemma_first_fault_none(ps.len() as int, f, 0);
    assert forall|k: u64| #[trigger] d.parameters.contains_key(k) implies d.parameters[k].id == k && valid_parameter_name(
        utf8(d.parameters[k].name@),
    ) && d.parameters[k].value_finite by {
        let i = choose|i: int| 0 <= i < ps.len() && ps[i].0 == k;
        assert(f(i) is None);
    }
    assert forall|a: u64, b: u64|
        #[trigger] d.parameters.contains_key(a) && #[trigger] d.parameters.contains_key(b) && a != b
            implies d.parameters[a].name@ != d.parameters[b].name@ by {
        let i = choose|i: int| 0 <= i < ps.len() && ps[i].0 == a;
        let j = choose|j: int| 0 <= j < ps.len() && ps[j].0 == b;
        assert(f(i) is None);
        assert(f(j) is None);
    }
}

} // verus!
