//! The generation table: where each generation lies in the flat sequence.

use vstd::prelude::*;
use crate::id::Id;

verus! {

/// The segment of the flat sequence that one generation occupies.
pub struct Span {
    /// Flat index of the generation's first node.
    pub start: nat,
    /// Number of nodes in the generation.
    pub len: nat,
}

/// Reads a stored table as a sequence of spans.
pub open spec fn spans(raw: Seq<(usize, usize)>) -> Seq<Span> {
    Seq::new(raw.len(), |g: int| Span { start: raw[g].0 as nat, len: raw[g].1 as nat })
}

/// Flat index just past the last node of generation `g`.
pub open spec fn end_of(table: Seq<Span>, g: int) -> nat {
    table[g].start + table[g].len
}

/// Number of nodes that the table accounts for.
pub open spec fn total(table: Seq<Span>) -> nat {
    end_of(table, table.len() - 1)
}

/// A table is well formed when generation 0 holds the root alone, no generation
/// is empty, each generation starts where the one before it ends, and every flat
/// index fits the machine's index type.
pub open spec fn table_wf(table: Seq<Span>) -> bool {
    &&& table.len() >= 1
    &&& total(table) <= usize::MAX
    &&& table[0] == Span { start: 0, len: 1 }
    &&& forall|g: int| 0 <= g < table.len() ==> (#[trigger] table[g]).len >= 1
    &&& forall|g: int| 0 < g < table.len() ==> (#[trigger] table[g]).start == end_of(table, g - 1)
}

/// Whether the table has a node at `id`.
pub open spec fn holds(table: Seq<Span>, id: Id) -> bool {
    id.0 < table.len() && id.1 < table[id.0 as int].len
}

/// The flat index of the node at `id`.
pub open spec fn loc(table: Seq<Span>, id: Id) -> int {
    table[id.0 as int].start + id.1
}

/// Flat index at which a node that joins generation `g` is stored: the end of
/// that generation, or the end of the sequence if the generation is new.
pub open spec fn slot(table: Seq<Span>, g: int) -> nat {
    if g < table.len() {
        end_of(table, g)
    } else {
        total(table)
    }
}

/// The address that a node gets when it joins generation `g`: the first free
/// offset of that generation.
pub open spec fn joined(table: Seq<Span>, g: int) -> Id {
    if g < table.len() {
        Id(g as usize, table[g].len as usize)
    } else {
        Id(g as usize, 0)
    }
}

/// The table after one node has joined generation `g`: a new generation of one
/// node if `g` is the table's length; else generation `g` is one longer and every
/// later generation starts one further on.
pub open spec fn grow(table: Seq<Span>, g: int) -> Seq<Span> {
    if g >= table.len() {
        table.push(Span { start: total(table), len: 1 })
    } else {
        Seq::new(
            table.len(),
            |i: int|
                if i < g {
                    table[i]
                } else if i == g {
                    Span { start: table[i].start, len: table[i].len + 1 }
                } else {
                    Span { start: table[i].start + 1, len: table[i].len }
                },
        )
    }
}

/// Generations lie one after another: an earlier one ends no later than a later
/// one starts.
pub proof fn lemma_generations_ordered(table: Seq<Span>, a: int, b: int)
    requires
        table_wf(table),
        0 <= a <= b < table.len(),
    ensures
        end_of(table, a) <= end_of(table, b),
        a < b ==> end_of(table, a) <= table[b].start,
    decreases b - a,
{
    if a < b {
        lemma_generations_ordered(table, a, b - 1);
    }
}

/// Every node that the table holds lies inside the flat sequence.
pub proof fn lemma_loc_in_range(table: Seq<Span>, id: Id)
    requires
        table_wf(table),
        holds(table, id),
    ensures
        0 <= loc(table, id) < end_of(table, id.0 as int) <= total(table),
{
    lemma_generations_ordered(table, id.0 as int, table.len() - 1);
}

/// Two different nodes never share a flat index.
pub proof fn lemma_loc_injective(table: Seq<Span>, a: Id, b: Id)
    requires
        table_wf(table),
        holds(table, a),
        holds(table, b),
        loc(table, a) == loc(table, b),
    ensures
        a == b,
{
    if a.0 < b.0 {
        lemma_generations_ordered(table, a.0 as int, b.0 as int);
    } else if b.0 < a.0 {
        lemma_generations_ordered(table, b.0 as int, a.0 as int);
    }
}

/// Every flat index below the total belongs to a node of the table.
pub proof fn lemma_loc_onto(table: Seq<Span>, i: nat) -> (id: Id)
    requires
        table_wf(table),
        i < total(table),
    ensures
        holds(table, id),
        loc(table, id) == i,
{
    lemma_find_generation(table, i, table.len() - 1)
}

proof fn lemma_find_generation(table: Seq<Span>, i: nat, g: int) -> (id: Id)
    requires
        table_wf(table),
        0 <= g < table.len(),
        i < end_of(table, g),
    ensures
        holds(table, id),
        loc(table, id) == i,
    decreases g,
{
    lemma_depth_bounded(table, g);
    if i >= table[g].start {
        Id(g as usize, (i - table[g].start) as usize)
    } else {
        lemma_find_generation(table, i, g - 1)
    }
}

/// A table has at most as many generations as nodes.
pub proof fn lemma_depth_bounded(table: Seq<Span>, g: int)
    requires
        table_wf(table),
        0 <= g < table.len(),
    ensures
        g < end_of(table, g) <= total(table),
    decreases g,
{
    lemma_generations_ordered(table, g, table.len() - 1);
    if g > 0 {
        lemma_depth_bounded(table, g - 1);
    }
}

/// The slot of a node that joins a generation lies inside the flat sequence or
/// right at its end.
pub proof fn lemma_slot_in_range(table: Seq<Span>, g: int)
    requires
        table_wf(table),
        1 <= g <= table.len(),
    ensures
        slot(table, g) <= total(table),
{
    if g < table.len() {
        lemma_depth_bounded(table, g);
    }
}

/// Growing a well-formed table by one node keeps it well formed, as long as the
/// new total fits the index type, and adds one to its total.
pub proof fn lemma_grow_wf(table: Seq<Span>, g: int)
    requires
        table_wf(table),
        1 <= g <= table.len(),
        total(table) < usize::MAX,
    ensures
        table_wf(grow(table, g)),
        total(grow(table, g)) == total(table) + 1,
{
    let grown = grow(table, g);
    assert forall|i: int| 0 < i < grown.len() implies (#[trigger] grown[i]).start == end_of(
        grown,
        i - 1,
    ) by {}
}

/// Growing a table keeps every node it held: a node of a generation after `g`
/// moves one place up in the flat sequence, every other node stays where it was.
/// None of them lands on the slot of the node that joined.
pub proof fn lemma_grow_keeps(table: Seq<Span>, g: int, id: Id)
    requires
        table_wf(table),
        1 <= g <= table.len(),
        holds(table, id),
    ensures
        holds(grow(table, g), id),
        id.0 <= g ==> loc(grow(table, g), id) == loc(table, id) < slot(table, g),
        id.0 > g ==> loc(grow(table, g), id) == loc(table, id) + 1 > slot(table, g),
{
    lemma_loc_in_range(table, id);
    if id.0 < g {
        lemma_generations_ordered(table, id.0 as int, g - 1);
        if g < table.len() {
            lemma_generations_ordered(table, g - 1, g);
        }
    } else if id.0 > g {
        lemma_generations_ordered(table, g, id.0 as int);
    }
}

/// The node that joined lies in generation `g` under an address that was free,
/// it is stored at the slot, and the grown table holds nothing but it and the
/// nodes held before.
pub proof fn lemma_grow_adds(table: Seq<Span>, g: int, id: Id)
    requires
        table_wf(table),
        1 <= g <= table.len(),
        total(table) < usize::MAX,
    ensures
        joined(table, g).0 == g,
        holds(grow(table, g), id) <==> holds(table, id) || id == joined(table, g),
        !holds(table, joined(table, g)),
        loc(grow(table, g), joined(table, g)) == slot(table, g),
{
    lemma_depth_bounded(table, g - 1);
    if g < table.len() {
        lemma_depth_bounded(table, g);
    }
}

} // verus!
