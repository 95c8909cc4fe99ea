//! Building a graph from its textual description.
//!
//! The description is a text of lines. The first line holds the number of
//! nodes that follow; every further line describes one node by three numbers
//! with a single space between them: its two parents, counted from 1 with the
//! root as number 1, and its timestamp. The root itself is not described.

use vstd::prelude::*;
use crate::error::GraphError;
use crate::graph::{
    Graph, has_child, has_parent, lemma_linked_well_formed, lemma_push_fresh_well_formed, linked,
    single_root, well_formed,
};
use crate::depth::ordered;
use crate::node::{NodeView, add_unique, fresh_node, lemma_add_unique};
use crate::text::{
    CARRIAGE_RETURN, LINE_FEED, SPACE, Span, decimal, lemma_split_on_nonempty, parse_decimal, split,
    split_on, trim_end, trimmed,
};

verus! {

/// What a data line says: the two parents, as the text numbers them, and the
/// timestamp of the node that the line describes.
#[derive(Debug, Clone, Copy, PartialEq, Eq, Structural)]
pub struct Record {
    pub first_parent: u32,
    pub second_parent: u32,
    pub timestamp: u64,
}

/// The record that `line` holds, if it is made of exactly three decimal
/// numbers with single spaces between them, the first two within 32 bits and
/// the third within 64.
pub open spec fn record_of(line: Seq<u8>) -> Option<Record> {
    let fields = split_on(line, SPACE);
    if fields.len() == 3 && decimal(fields[0], u32::MAX as nat) is Some && decimal(
        fields[1],
        u32::MAX as nat,
    ) is Some && decimal(fields[2], u64::MAX as nat) is Some {
        Some(
            Record {
                first_parent: decimal(fields[0], u32::MAX as nat).unwrap() as u32,
                second_parent: decimal(fields[1], u32::MAX as nat).unwrap() as u32,
                timestamp: decimal(fields[2], u64::MAX as nat).unwrap() as u64,
            },
        )
    } else {
        None
    }
}

/// Reads the stretch `line` of `input` as a data line.
pub fn read_record(input: &[u8], line: Span) -> (record: Option<Record>)
    requires
        line.start <= line.end <= input@.len(),
    ensures
        record == record_of(line.of(input@)),
{
    let fields = split(input, line, SPACE);
    if fields.len() != 3 {
        return None;
    }
    let first = parse_decimal(input, fields[0], u32::MAX as u64);
    let second = parse_decimal(input, fields[1], u32::MAX as u64);
    let third = parse_decimal(input, fields[2], u64::MAX);
    match (first, second, third) {
        (Some(first_parent), Some(second_parent), Some(timestamp)) => Some(
            Record {
                first_parent: first_parent as u32,
                second_parent: second_parent as u32,
                timestamp,
            },
        ),
        _ => None,
    }
}

/// The first line of the text, without the white space at its end.
pub open spec fn header(input: Seq<u8>) -> Seq<u8> {
    trimmed(split_on(input, LINE_FEED)[0])
}

/// The number of nodes that the first line declares, if it holds a decimal
/// number within 64 bits and nothing else.
pub open spec fn declared_count(input: Seq<u8>) -> Option<nat> {
    decimal(header(input), u64::MAX as nat)
}

/// The number of data lines: the lines after the first. What follows the last
/// line feed is a line only if it is not empty.
pub open spec fn data_line_count(input: Seq<u8>) -> nat {
    let pieces = split_on(input, LINE_FEED);
    if pieces.len() < 2 {
        0
    } else if pieces.last().len() == 0 {
        (pieces.len() - 2) as nat
    } else {
        (pieces.len() - 1) as nat
    }
}

/// `line` without a carriage return at its end.
pub open spec fn without_carriage_return(line: Seq<u8>) -> Seq<u8> {
    if line.len() > 0 && line.last() == CARRIAGE_RETURN {
        line.drop_last()
    } else {
        line
    }
}

/// Data line number `k`, counted from 0. A carriage return directly before the
/// line feed that ends the line does not belong to the line.
pub open spec fn data_line(input: Seq<u8>, k: int) -> Seq<u8> {
    let pieces = split_on(input, LINE_FEED);
    if k + 2 < pieces.len() {
        without_carriage_return(pieces[k + 1])
    } else {
        pieces[k + 1]
    }
}

/// The records of all data lines, in the order of the text, if every data line
/// holds one.
pub open spec fn records_of(input: Seq<u8>) -> Option<Seq<Record>> {
    if forall|k: int| 0 <= k < data_line_count(input) ==> record_of(#[trigger] data_line(input, k)) is Some {
        Some(Seq::new(data_line_count(input), |k: int| record_of(data_line(input, k)).unwrap()))
    } else {
        None
    }
}

/// Both parents that `record` names are among the `count` nodes of the store.
pub open spec fn refers_within(record: Record, count: nat) -> bool {
    1 <= record.first_parent <= count && 1 <= record.second_parent <= count
}

/// The store that holds the root and one node for each record, before any
/// reference is recorded. The root has timestamp 0.
pub open spec fn unlinked(records: Seq<Record>) -> Seq<NodeView> {
    Seq::new(
        records.len() + 1,
        |i: int|
            fresh_node(
                i as u32,
                if i == 0 {
                    0
                } else {
                    records[i - 1].timestamp
                },
            ),
    )
}

/// The store after the references of the first `k` records have been recorded,
/// record by record, the first parent before the second.
pub open spec fn resolved(records: Seq<Record>, k: nat) -> Seq<NodeView>
    decreases k,
{
    if k == 0 {
        unlinked(records)
    } else {
        let record = records[k - 1];
        linked(
            linked(resolved(records, (k - 1) as nat), k as u32, (record.first_parent - 1) as u32),
            k as u32,
            (record.second_parent - 1) as u32,
        )
    }
}

/// The graph that a sequence of records describes.
pub open spec fn constructed(records: Seq<Record>) -> Seq<NodeView> {
    resolved(records, records.len())
}

/// What reading a text gives: the graph it describes, or the reason why it
/// describes none.
///
/// The text is rejected for its format if its first line is no number or a
/// data line holds no record; else for an invalid reference if a record names
/// a parent that is not among the nodes described; else for a count mismatch if
/// the number of data lines is not the number declared.
pub open spec fn parse_outcome(input: Seq<u8>) -> Result<Seq<NodeView>, GraphError> {
    if declared_count(input) is None || records_of(input) is None {
        Err(GraphError::Format)
    } else {
        let records = records_of(input).unwrap();
        if exists|k: int|
            0 <= k < records.len() && !refers_within(#[trigger] records[k], records.len() + 1) {
            Err(GraphError::InvalidReference)
        } else if declared_count(input).unwrap() != records.len() {
            Err(GraphError::CountMismatch)
        } else {
            Ok(constructed(records))
        }
    }
}

/// The parents that a record gives its node: the first, then the second unless
/// it is the same node.
pub open spec fn parents_of_record(record: Record) -> Seq<u32> {
    add_unique(seq![(record.first_parent - 1) as u32], (record.second_parent - 1) as u32)
}

/// The nodes of a store under construction: identifiers are positions, the
/// timestamps are those of the records, and a node has the parents of its
/// record once its record is resolved, and none before.
pub proof fn lemma_resolved_nodes(records: Seq<Record>, k: nat)
    requires
        k <= records.len() < u32::MAX,
        forall|j: int| 0 <= j < k ==> refers_within(#[trigger] records[j], records.len() + 1),
    ensures
        resolved(records, k).len() == records.len() + 1,
        well_formed(resolved(records, k)),
        forall|i: int|
            0 <= i <= records.len() ==> {
                &&& (#[trigger] resolved(records, k)[i]).id == i
                &&& resolved(records, k)[i].timestamp == unlinked(records)[i].timestamp
                &&& resolved(records, k)[i].parents == if 1 <= i <= k {
                    parents_of_record(records[i - 1])
                } else {
                    Seq::<u32>::empty()
                }
            },
    decreases k,
{
    if k == 0 {
        lemma_unlinked_well_formed(records, records.len());
        assert(unlinked(records).take(records.len() as int + 1) =~= unlinked(records));
    } else {
        let before = resolved(records, (k - 1) as nat);
        lemma_resolved_nodes(records, (k - 1) as nat);
        let record = records[k - 1];
        assert(refers_within(record, records.len() + 1));
        let first = (record.first_parent - 1) as u32;
        let second = (record.second_parent - 1) as u32;
        let middle = linked(before, k as u32, first);
        lemma_linked_well_formed(before, k as u32, first);
        lemma_linked_well_formed(middle, k as u32, second);
        assert(before[k as int].parents =~= Seq::<u32>::empty());
        assert(add_unique(Seq::<u32>::empty(), first) =~= seq![first]);
    }
}

/// Every prefix of the store without references is a valid store.
proof fn lemma_unlinked_well_formed(records: Seq<Record>, k: nat)
    requires
        k <= records.len() < u32::MAX,
    ensures
        well_formed(unlinked(records).take(k as int + 1)),
    decreases k,
{
    let g = unlinked(records).take(k as int + 1);
    if k == 0 {
        assert forall|c: int, p: int|
            #![trigger has_parent(g, c, p)]
            #![trigger has_child(g, p, c)]
            has_parent(g, c, p) <==> has_child(g, p, c) by {}
    } else {
        lemma_unlinked_well_formed(records, (k - 1) as nat);
        let shorter = unlinked(records).take(k as int);
        lemma_push_fresh_well_formed(shorter, records[k - 1].timestamp);
        assert(g =~= shorter.push(fresh_node(k as u32, records[k - 1].timestamp)));
    }
}

/// A graph built from records that refer within the store has exactly one
/// root, and one node more than there are records.
pub proof fn lemma_constructed_single_root(records: Seq<Record>)
    requires
        records.len() < u32::MAX,
        forall|j: int| 0 <= j < records.len() ==> refers_within(#[trigger] records[j], records.len() + 1),
    ensures
        well_formed(constructed(records)),
        constructed(records).len() == records.len() + 1,
        single_root(constructed(records)),
{
    lemma_resolved_nodes(records, records.len());
    let g = constructed(records);
    assert forall|i: int| 0 <= i < g.len() implies ((#[trigger] g[i]).parents.len() == 0 <==> i == 0) by {
        if i >= 1 {
            let record = records[i - 1];
            let first = (record.first_parent - 1) as u32;
            assert(seq![first].len() == 1);
        }
    }
}

/// Whether `record` names node `parent` as one of its two parents.
pub open spec fn names_parent(record: Record, parent: int) -> bool {
    record.first_parent - 1 == parent || record.second_parent - 1 == parent
}

/// In a store under construction every list of children is in rising order
/// and holds only nodes whose records are resolved.
pub proof fn lemma_resolved_children(records: Seq<Record>, k: nat)
    requires
        k <= records.len() < u32::MAX,
        forall|j: int| 0 <= j < k ==> refers_within(#[trigger] records[j], records.len() + 1),
    ensures
        forall|p: int, a: int|
            0 <= p <= records.len() && 0 <= a < resolved(records, k)[p].children.len() ==> 1 <= (
            #[trigger] resolved(records, k)[p].children[a]) <= k,
        forall|p: int, a: int, b: int|
            0 <= p <= records.len() && 0 <= a < b < resolved(records, k)[p].children.len() ==> (
            #[trigger] resolved(records, k)[p].children[a]) < (#[trigger] resolved(
                records,
                k,
            )[p].children[b]),
    decreases k,
{
    if k > 0 {
        let before = resolved(records, (k - 1) as nat);
        lemma_resolved_children(records, (k - 1) as nat);
        lemma_resolved_nodes(records, (k - 1) as nat);
        let record = records[k - 1];
        assert(refers_within(record, records.len() + 1));
        let first = (record.first_parent - 1) as u32;
        let second = (record.second_parent - 1) as u32;
        let middle = linked(before, k as u32, first);
        let after = resolved(records, k);
        assert(after == linked(middle, k as u32, second));
        assert forall|p: int, a: int| 0 <= p <= records.len() && 0 <= a < middle[p].children.len() implies 1
            <= (#[trigger] middle[p].children[a]) <= k by {
            if a < before[p].children.len() {
                assert(1 <= before[p].children[a] <= k - 1);
            }
        }
        assert forall|p: int, a: int, b: int|
            0 <= p <= records.len() && 0 <= a < b < middle[p].children.len() implies (
        #[trigger] middle[p].children[a]) < (#[trigger] middle[p].children[b]) by {
            assert(1 <= before[p].children[a] <= k - 1);
            if b < before[p].children.len() {
                assert(before[p].children[a] < before[p].children[b]);
            }
        }
        assert forall|p: int, a: int| 0 <= p <= records.len() && 0 <= a < after[p].children.len() implies 1 <= (
        #[trigger] after[p].children[a]) <= k by {
            if a < middle[p].children.len() {
                assert(1 <= middle[p].children[a] <= k);
            }
        }
        assert forall|p: int, a: int, b: int|
            0 <= p <= records.len() && 0 <= a < b < after[p].children.len() implies (
        #[trigger] after[p].children[a]) < (#[trigger] after[p].children[b]) by {
            if b < middle[p].children.len() {
                assert(middle[p].children[a] < middle[p].children[b]);
            } else {
                // the last entry was appended just now, so `k` was not listed before
                assert(after[p].children == middle[p].children.push(k as u32));
                assert(!middle[p].children.contains(k as u32));
                assert(middle[p].children[a] != k as u32);
                assert(1 <= middle[p].children[a] <= k);
            }
        }
    }
}

/// The children of a node of a constructed graph are the nodes whose records
/// name it, in rising order.
pub proof fn lemma_constructed_children(records: Seq<Record>, parent: int)
    requires
        records.len() < u32::MAX,
        forall|j: int| 0 <= j < records.len() ==> refers_within(#[trigger] records[j], records.len() + 1),
        0 <= parent <= records.len(),
    ensures
        forall|child: int|
            #![trigger has_child(constructed(records), parent, child)]
            has_child(constructed(records), parent, child) <==> (1 <= child <= records.len() && names_parent(
                records[child - 1],
                parent,
            )),
        forall|a: int, b: int|
            0 <= a < b < constructed(records)[parent].children.len() ==> (
            #[trigger] constructed(records)[parent].children[a]) < (#[trigger] constructed(
                records,
            )[parent].children[b]),
{
    let g = constructed(records);
    lemma_resolved_nodes(records, records.len());
    lemma_resolved_children(records, records.len());
    assert forall|child: int|
        #![trigger has_child(g, parent, child)]
        has_child(g, parent, child) <==> (1 <= child <= records.len() && names_parent(
            records[child - 1],
            parent,
        )) by {
        assert(has_parent(g, child, parent) <==> has_child(g, parent, child));
        if 1 <= child <= records.len() {
            let record = records[child - 1];
            assert(refers_within(record, records.len() + 1));
            let first = (record.first_parent - 1) as u32;
            let second = (record.second_parent - 1) as u32;
            assert(seq![first].no_duplicates());
            lemma_add_unique(seq![first], second);
            assert(seq![first].contains(parent as u32) <==> first == parent) by {
                assert(seq![first][0] == first);
            }
        } else if 0 <= child < g.len() {
            assert(g[child].parents.len() == 0);
        }
    }
}

/// A constructed graph is ordered exactly when every record names only nodes
/// that come before the node it describes.
pub proof fn lemma_constructed_ordered(records: Seq<Record>)
    requires
        records.len() < u32::MAX,
        forall|j: int| 0 <= j < records.len() ==> refers_within(#[trigger] records[j], records.len() + 1),
    ensures
        ordered(constructed(records)) <==> (forall|j: int|
            0 <= j < records.len() ==> refers_within(#[trigger] records[j], (j + 1) as nat)),
{
    let g = constructed(records);
    lemma_resolved_nodes(records, records.len());
    if forall|j: int| 0 <= j < records.len() ==> refers_within(#[trigger] records[j], (j + 1) as nat) {
        assert forall|i: int, j: int| 0 <= i < g.len() && 0 <= j < g[i].parents.len() implies (
        #[trigger] g[i].parents[j]) < i by {
            let record = records[i - 1];
            assert(refers_within(record, i as nat));
        }
    }
    if ordered(g) {
        assert forall|j: int| 0 <= j < records.len() implies refers_within(
            #[trigger] records[j],
            (j + 1) as nat,
        ) by {
            let record = records[j];
            assert(refers_within(record, records.len() + 1));
            let first = (record.first_parent - 1) as u32;
            let second = (record.second_parent - 1) as u32;
            let parents = g[j + 1].parents;
            assert(parents == parents_of_record(record));
            assert(parents[0] == first);
            assert(parents[0] < j + 1);
            if second != first {
                assert(!seq![first].contains(second));
                assert(parents[1] == second);
                assert(parents[1] < j + 1);
            }
        }
    }
}

/// A text holds fewer data lines than bytes.
pub proof fn lemma_data_line_count_bound(input: Seq<u8>)
    ensures
        data_line_count(input) <= input.len(),
        input.len() <= u32::MAX ==> data_line_count(input) < u32::MAX,
{
    lemma_pieces_bound(input);
}

proof fn lemma_pieces_bound(text: Seq<u8>)
    ensures
        split_on(text, LINE_FEED).len() >= 1,
        split_on(text, LINE_FEED).len() + split_on(text, LINE_FEED).last().len() <= text.len() + 1,
    decreases text.len(),
{
    if text.len() > 0 {
        lemma_pieces_bound(text.drop_last());
    }
}

impl Graph {
    /// Replaces the graph by the one that `input` describes. When `input`
    /// describes none, the graph stays as it is and the reason is returned.
    ///
    /// The nodes must be countable in 32 bits; an input of less than 4 GiB
    /// always is.
    pub fn parse(&mut self, input: &[u8]) -> (outcome: Result<(), GraphError>)
        requires
            data_line_count(input@) < u32::MAX,
        ensures
            match parse_outcome(input@) {
                Ok(nodes) => outcome is Ok && final(self)@ == nodes,
                Err(error) => outcome == Err::<(), GraphError>(error) && final(self)@ == old(self)@,
            },
            outcome is Ok ==> single_root(final(self)@) && declared_count(input@) == Some(
                (final(self)@.len() - 1) as nat,
            ),
    {
        let whole = Span { start: 0, end: input.len() };
        assert(whole.of(input@) =~= input@);
        let pieces = split(input, whole, LINE_FEED);
        proof {
            lemma_split_on_nonempty(input@, LINE_FEED);
        }
        let declared = match parse_decimal(input, trim_end(input, pieces[0]), u64::MAX) {
            Some(count) => count,
            None => {
                return Err(GraphError::Format);
            },
        };
        let line_count: usize = if pieces.len() < 2 {
            0
        } else if pieces[pieces.len() - 1].end == pieces[pieces.len() - 1].start {
            pieces.len() - 2
        } else {
            pieces.len() - 1
        };
        assert(line_count == data_line_count(input@));

        let mut records: Vec<Record> = Vec::new();
        let mut k: usize = 0;
        while k < line_count
            invariant
                k <= line_count == data_line_count(input@),
                line_count < pieces@.len() == split_on(input@, LINE_FEED).len(),
                forall|m: int|
                    0 <= m < pieces@.len() ==> (#[trigger] pieces@[m]).within(whole) && pieces@[m].of(
                        input@,
                    ) == split_on(input@, LINE_FEED)[m],
                whole.end == input@.len(),
                records@.len() == k,
                forall|m: int|
                    0 <= m < k ==> record_of(#[trigger] data_line(input@, m)) == Some(records@[m]),
            decreases line_count - k,
        {
            let piece = pieces[k + 1];
            let line = if k + 1 < pieces.len() - 1 && piece.end > piece.start && input[piece.end - 1]
                == CARRIAGE_RETURN {
                Span { start: piece.start, end: piece.end - 1 }
            } else {
                piece
            };
            assert(line.of(input@) =~= data_line(input@, k as int));
            match read_record(input, line) {
                Some(record) => {
                    records.push(record);
                },
                None => {
                    return Err(GraphError::Format);
                },
            }
            k += 1;
        }
        assert(records_of(input@) == Some(records@)) by {
            assert(records_of(input@).unwrap() =~= records@);
        }

        let mut graph = Graph::new();
        graph.add_node(0, 0);
        let mut i: usize = 0;
        while i < records.len()
            invariant
                i <= records@.len() < u32::MAX,
                graph@ == unlinked(records@).take(i + 1),
            decreases records.len() - i,
        {
            graph.add_node((i + 1) as u32, records[i].timestamp);
            assert(graph@ =~= unlinked(records@).take(i + 2));
            i += 1;
        }
        assert(graph@ =~= resolved(records@, 0));

        let mut j: usize = 0;
        while j < records.len()
            invariant
                j <= records@.len() < u32::MAX,
                graph@ == resolved(records@, j as nat),
                graph@.len() == records@.len() + 1,
                forall|m: int| 0 <= m < j ==> refers_within(#[trigger] records@[m], records@.len() + 1),
                records_of(input@) == Some(records@),
                declared_count(input@) == Some(declared as nat),
            decreases records.len() - j,
        {
            let record = records[j];
            if record.first_parent == 0 || record.second_parent == 0 {
                assert(!refers_within(records@[j as int], records@.len() + 1));
                return Err(GraphError::InvalidReference);
            }
            let child = (j + 1) as u32;
            if graph.link(child, record.first_parent - 1).is_err() {
                assert(!refers_within(records@[j as int], records@.len() + 1));
                return Err(GraphError::InvalidReference);
            }
            if graph.link(child, record.second_parent - 1).is_err() {
                assert(!refers_within(records@[j as int], records@.len() + 1));
                return Err(GraphError::InvalidReference);
            }
            j += 1;
        }
        if declared != records.len() as u64 {
            return Err(GraphError::CountMismatch);
        }
        proof {
            lemma_constructed_single_root(records@);
        }
        *self = graph;
        Ok(())
    }
}

} // verus!
