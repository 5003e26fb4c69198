//! Who may read whom, before it becomes numbers, and how rows share a batch.
//!
//! A mask is one truth value per query and key, row by row: a backend adds nothing
//! to a score where it is true, and something very negative where it is not.

use vstd::arithmetic::div_mod::lemma_fundamental_div_mod_converse;
use vstd::prelude::*;

use crate::layout;
use crate::pass::{Pass, PassView};

verus! {

/// A rectangle of truth values, row by row.
pub open spec fn grid(rows: nat, columns: nat, cell: spec_fn(int, int) -> bool) -> Seq<bool> {
    Seq::new(rows * columns, |i: int| cell(i / columns as int, i % columns as int))
}

/// Where a cell of a rectangle stands.
pub proof fn lemma_cell(rows: nat, columns: nat, row: int, column: int)
    requires
        0 <= row < rows,
        0 <= column < columns,
    ensures
        0 <= row * columns + column < rows * columns,
        (row * columns + column) / columns as int == row,
        (row * columns + column) % columns as int == column,
{
    lemma_fundamental_div_mod_converse(
        row * columns + column,
        columns as int,
        row,
        column,
    );
    assert(0 <= row * columns && row * columns + columns <= rows * columns) by (nonlinear_arith)
        requires
            0 <= row < rows,
            0 < columns,
    ;
}

/// Add a rectangle of truth values behind those already there.
fn push_grid<A: Fn(usize, usize) -> bool>(
    out: &mut Vec<bool>,
    rows: usize,
    columns: usize,
    allowed: &A,
    Ghost(cell): Ghost<spec_fn(int, int) -> bool>,
)
    requires
        forall|q: usize, k: usize|
            q < rows && k < columns ==> #[trigger] call_requires(*allowed, (q, k)),
        forall|q: usize, k: usize, yes: bool|
            q < rows && k < columns && #[trigger] call_ensures(*allowed, (q, k), yes) ==> yes
                == cell(q as int, k as int),
    ensures
        final(out)@ == old(out)@ + grid(rows as nat, columns as nat, cell),
{
    let ghost before = out@;
    let ghost whole = grid(rows as nat, columns as nat, cell);
    assert(0 * columns == 0) by (nonlinear_arith);
    assert(out@ =~= before + whole.take(0));
    for q in 0..rows
        invariant
            forall|q: usize, k: usize|
                q < rows && k < columns ==> #[trigger] call_requires(*allowed, (q, k)),
            forall|q: usize, k: usize, yes: bool|
                q < rows && k < columns && #[trigger] call_ensures(*allowed, (q, k), yes) ==> yes
                    == cell(q as int, k as int),
            whole == grid(rows as nat, columns as nat, cell),
            out@ == before + whole.take(q * columns),
    {
        proof {
            assert(0 <= q * columns && q * columns + columns == (q + 1) * columns && (q + 1)
                * columns <= rows * columns) by (nonlinear_arith)
                requires
                    0 <= q < rows,
                    0 <= columns,
            ;
        }
        for k in 0..columns
            invariant
                q < rows,
                forall|q: usize, k: usize|
                    q < rows && k < columns ==> #[trigger] call_requires(*allowed, (q, k)),
                forall|q: usize, k: usize, yes: bool|
                    q < rows && k < columns && #[trigger] call_ensures(*allowed, (q, k), yes)
                        ==> yes == cell(q as int, k as int),
                whole == grid(rows as nat, columns as nat, cell),
                0 <= q * columns,
                q * columns + columns <= whole.len(),
                out@ == before + whole.take(q * columns + k),
        {
            let yes = allowed(q, k);
            out.push(yes);
            proof {
                lemma_cell(rows as nat, columns as nat, q as int, k as int);
                assert(whole[q * columns + k] == cell(q as int, k as int));
                assert(out@ =~= before + whole.take(q * columns + k + 1));
            }
        }
    }
    assert(whole.take(whole.len() as int) =~= whole);
}

/// The mask of one pass: each token of it against each, as [`Pass::attends`] says.
pub fn attention_mask(pass: &Pass<'_>) -> (out: Vec<bool>)
    requires
        pass@.ids.len() <= pass@.segments.len(),
        pass@.options.len() == 0 || pass@.ids.len() <= pass@.options.len(),
    ensures
        out@ == grid(pass@.ids.len(), pass@.ids.len(), |q: int, k: int| pass@.reads(q, k)),
{
    let mut out: Vec<bool> = Vec::new();
    let n: usize = pass.ids.len();
    let allowed = |q: usize, k: usize| -> (yes: bool)
        requires
            q < n,
            k < n,
        ensures
            yes == pass@.reads(q as int, k as int),
        { pass.attends(q, k) };
    push_grid(&mut out, n, n, &allowed, Ghost(|q: int, k: int| pass@.reads(q, k)));
    assert(out@ =~= grid(pass@.ids.len(), pass@.ids.len(), |q: int, k: int| pass@.reads(q, k)));
    out
}

/// A state on its own: every token reads those before it and itself.
pub open spec fn causal(query: int, key: int) -> bool {
    key <= query
}

/// The mask of a state that is run on its own.
pub fn causal_mask(n: usize) -> (out: Vec<bool>)
    ensures
        out@ == grid(n as nat, n as nat, |q: int, k: int| causal(q, k)),
{
    let mut out: Vec<bool> = Vec::new();
    let allowed = |q: usize, k: usize| -> (yes: bool)
        ensures
            yes == causal(q as int, k as int),
        { k <= q };
    push_grid(&mut out, n, n, &allowed, Ghost(|q: int, k: int| causal(q, k)));
    assert(out@ =~= grid(n as nat, n as nat, |q: int, k: int| causal(q, k)));
    out
}

/// A token of a branch reads the whole state, and of its branch what comes before
/// it and itself.
pub open spec fn branch_reads(state: int, query: int, key: int) -> bool {
    key < state || key - state <= query
}

/// The mask of a branch that continues from a state of `state` tokens.
///
/// The state is visible from every branch position: it came first and cannot
/// contain another question. The branch is causal within itself.
pub fn branch_mask(state: usize, branch: usize) -> (out: Vec<bool>)
    requires
        state + branch <= usize::MAX,
    ensures
        out@ == grid(
            branch as nat,
            (state + branch) as nat,
            |q: int, k: int| branch_reads(state as int, q, k),
        ),
{
    let mut out: Vec<bool> = Vec::new();
    let allowed = |q: usize, k: usize| -> (yes: bool)
        ensures
            yes == branch_reads(state as int, q as int, k as int),
        { k < state || k - state <= q };
    push_grid(
        &mut out,
        branch,
        state + branch,
        &allowed,
        Ghost(|q: int, k: int| branch_reads(state as int, q, k)),
    );
    assert(out@ =~= grid(
        branch as nat,
        (state + branch) as nat,
        |q: int, k: int| branch_reads(state as int, q, k),
    ));
    out
}

/// What a token may read of a padded branch of this length.
///
/// A pad key is closed to everyone, and a pad query is left the state to look at,
/// so that no row of a softmax is empty.
pub open spec fn padded_branch_reads(state: int, length: int, query: int, key: int) -> bool {
    key < state || (key - state < length && query < length && key - state <= query)
}

/// One rectangle per row of a batch, one after the other.
pub open spec fn grids(
    lengths: Seq<usize>,
    rows: nat,
    columns: nat,
    cell: spec_fn(int, int, int) -> bool,
) -> Seq<bool>
    decreases lengths.len(),
{
    if lengths.len() == 0 {
        Seq::empty()
    } else {
        grids(lengths.drop_last(), rows, columns, cell) + grid(
            rows,
            columns,
            |q: int, k: int| cell(lengths.last() as int, q, k),
        )
    }
}

/// The mask of a batch of branches that continue from one state, padded to the
/// longest.
pub fn branch_batch_mask(state: usize, lengths: &[usize], padded: usize) -> (out: Vec<bool>)
    requires
        state + padded <= usize::MAX,
    ensures
        out@ == grids(
            lengths@,
            padded as nat,
            (state + padded) as nat,
            |length: int, q: int, k: int| padded_branch_reads(state as int, length, q, k),
        ),
{
    let ghost cell = |length: int, q: int, k: int| padded_branch_reads(state as int, length, q, k);
    let mut out: Vec<bool> = Vec::new();
    assert(lengths@.take(0) == Seq::<usize>::empty());
    for i in 0..lengths.len()
        invariant
            state + padded <= usize::MAX,
            cell == (|length: int, q: int, k: int|
                padded_branch_reads(state as int, length, q, k)),
            out@ == grids(lengths@.take(i as int), padded as nat, (state + padded) as nat, cell),
    {
        let length: usize = lengths[i];
        let allowed = |q: usize, k: usize| -> (yes: bool)
            ensures
                yes == padded_branch_reads(state as int, length as int, q as int, k as int),
            { k < state || (k - state < length && q < length && k - state <= q) };
        push_grid(
            &mut out,
            padded,
            state + padded,
            &allowed,
            Ghost(|q: int, k: int| cell(length as int, q, k)),
        );
        proof {
            assert(lengths@.take(i + 1).drop_last() == lengths@.take(i as int));
            assert(lengths@.take(i + 1).last() == length);
        }
    }
    assert(lengths@.take(lengths@.len() as int) == lengths@);
    out
}

/// What a token may read of a padded state of this length.
///
/// A pad key is closed to every real query. A pad query keeps its diagonal, so that
/// no row of a softmax is empty; what it computes is discarded.
pub open spec fn padded_state_reads(length: int, query: int, key: int) -> bool {
    if query < length {
        key <= query && key < length
    } else {
        key == query
    }
}

/// The mask of a batch of states that are run together, padded to the longest.
pub fn prefill_batch_mask(lengths: &[usize], padded: usize) -> (out: Vec<bool>)
    ensures
        out@ == grids(
            lengths@,
            padded as nat,
            padded as nat,
            |length: int, q: int, k: int| padded_state_reads(length, q, k),
        ),
{
    let ghost cell = |length: int, q: int, k: int| padded_state_reads(length, q, k);
    let mut out: Vec<bool> = Vec::new();
    assert(lengths@.take(0) == Seq::<usize>::empty());
    for i in 0..lengths.len()
        invariant
            cell == (|length: int, q: int, k: int| padded_state_reads(length, q, k)),
            out@ == grids(lengths@.take(i as int), padded as nat, padded as nat, cell),
    {
        let length: usize = lengths[i];
        let allowed = |q: usize, k: usize| -> (yes: bool)
            ensures
                yes == padded_state_reads(length as int, q as int, k as int),
            {
                if q < length {
                    k <= q && k < length
                } else {
                    k == q
                }
            };
        push_grid(
            &mut out,
            padded,
            padded,
            &allowed,
            Ghost(|q: int, k: int| cell(length as int, q, k)),
        );
        proof {
            assert(lengths@.take(i + 1).drop_last() == lengths@.take(i as int));
            assert(lengths@.take(i + 1).last() == length);
        }
    }
    assert(lengths@.take(lengths@.len() as int) == lengths@);
    out
}

/// True at a row's real tokens and false at its padding.
///
/// A recurrence has no mask to hide padding behind: it walks the tokens. Stilling
/// it where this is false is what makes a padded row hand on the state it had at
/// its last real token.
pub fn real_mask(lengths: &[usize], padded: usize) -> (out: Vec<bool>)
    ensures
        out@ == grid(
            lengths@.len(),
            padded as nat,
            |row: int, token: int| token < lengths@[row],
        ),
{
    let mut out: Vec<bool> = Vec::new();
    let allowed = |row: usize, token: usize| -> (yes: bool)
        requires
            row < lengths@.len(),
        ensures
            yes == (token < lengths@[row as int]),
        { token < lengths[row] };
    push_grid(
        &mut out,
        lengths.len(),
        padded,
        &allowed,
        Ghost(|row: int, token: int| token < lengths@[row]),
    );
    assert(out@ =~= grid(
        lengths@.len(),
        padded as nat,
        |row: int, token: int| token < lengths@[row],
    ));
    out
}

/// The longest of these rows.
pub open spec fn longest(rows: Seq<Seq<u32>>) -> nat
    decreases rows.len(),
{
    if rows.len() == 0 {
        0
    } else {
        let before = longest(rows.drop_last());
        if before < rows.last().len() {
            rows.last().len()
        } else {
            before
        }
    }
}

/// A row with zeros behind it, up to this length.
pub open spec fn filled(row: Seq<u32>, padded: nat) -> Seq<u32> {
    row + Seq::new((padded - row.len()) as nat, |i: int| 0u32)
}

/// Rows one after the other, each with zeros behind it up to this length.
pub open spec fn side_by_side(rows: Seq<Seq<u32>>, padded: nat) -> Seq<u32>
    decreases rows.len(),
{
    if rows.len() == 0 {
        Seq::empty()
    } else {
        side_by_side(rows.drop_last(), padded) + filled(rows.last(), padded)
    }
}

/// The token ids of rows.
pub open spec fn ids_of(rows: Seq<(&[u32], &[u32])>) -> Seq<Seq<u32>> {
    Seq::new(rows.len(), |i: int| rows[i].0@)
}

/// The position ids of rows.
pub open spec fn positions_of(rows: Seq<(&[u32], &[u32])>) -> Seq<Seq<u32>> {
    Seq::new(rows.len(), |i: int| rows[i].1@)
}

/// Rows of a batch, padded to the longest.
#[derive(Debug)]
pub struct Padded {
    pub ids: Vec<u32>,
    pub positions: Vec<u32>,
    /// How long each row was.
    pub lengths: Vec<usize>,
    /// How long each row is now.
    pub padded: usize,
}

fn push_filled(out: &mut Vec<u32>, row: &[u32], padded: usize)
    requires
        row@.len() <= padded,
    ensures
        final(out)@ == old(out)@ + filled(row@, padded as nat),
{
    let ghost before = out@;
    for i in 0..row.len()
        invariant
            out@ == before + row@.take(i as int),
    {
        out.push(row[i]);
        assert(out@ =~= before + row@.take(i + 1));
    }
    assert(row@.take(row@.len() as int) == row@);
    for i in row.len()..padded
        invariant
            row@.len() <= padded,
            out@ == before + row@ + Seq::new((i - row@.len()) as nat, |j: int| 0u32),
    {
        out.push(0);
        assert(out@ =~= before + row@ + Seq::new((i + 1 - row@.len()) as nat, |j: int| 0u32));
    }
    assert(out@ =~= before + filled(row@, padded as nat));
}

proof fn lemma_longest(rows: Seq<Seq<u32>>, i: int)
    requires
        0 <= i < rows.len(),
    ensures
        rows[i].len() <= longest(rows),
    decreases rows.len(),
{
    if i < rows.len() - 1 {
        lemma_longest(rows.drop_last(), i);
    }
}

/// Token ids and position ids for a batch of rows, padded to the longest with
/// zeros. A pad token is a real token id as far as the model is concerned; what
/// keeps it out of the answers is the mask and the readout.
pub fn pad_rows(rows: &[(&[u32], &[u32])]) -> (out: Padded)
    requires
        forall|i: int|
            0 <= i < rows@.len() ==> (#[trigger] positions_of(rows@)[i]).len() <= longest(
                ids_of(rows@),
            ),
    ensures
        out.padded == longest(ids_of(rows@)),
        out.ids@ == side_by_side(ids_of(rows@), longest(ids_of(rows@))),
        out.positions@ == side_by_side(positions_of(rows@), longest(ids_of(rows@))),
        out.lengths@.len() == rows@.len(),
        forall|i: int|
            0 <= i < rows@.len() ==> #[trigger] out.lengths@[i] == ids_of(rows@)[i].len(),
{
    let ghost all = ids_of(rows@);
    let ghost places = positions_of(rows@);
    let mut padded: usize = 0;
    let mut lengths: Vec<usize> = Vec::new();
    assert(all.take(0) == Seq::<Seq<u32>>::empty());
    assert(places.take(0) == Seq::<Seq<u32>>::empty());
    for i in 0..rows.len()
        invariant
            all == ids_of(rows@),
            padded == longest(all.take(i as int)),
            lengths@.len() == i,
            forall|j: int| 0 <= j < i ==> #[trigger] lengths@[j] == all[j].len(),
    {
        let n: usize = rows[i].0.len();
        proof {
            assert(all.take(i + 1).drop_last() == all.take(i as int));
            assert(all.take(i + 1).last() == rows@[i as int].0@);
        }
        if padded < n {
            padded = n;
        }
        lengths.push(n);
    }
    assert(all.take(all.len() as int) == all);
    let mut ids: Vec<u32> = Vec::new();
    let mut positions: Vec<u32> = Vec::new();
    for i in 0..rows.len()
        invariant
            all == ids_of(rows@),
            places == positions_of(rows@),
            padded == longest(all),
            forall|j: int| 0 <= j < rows@.len() ==> (#[trigger] places[j]).len() <= padded,
            ids@ == side_by_side(all.take(i as int), padded as nat),
            positions@ == side_by_side(places.take(i as int), padded as nat),
    {
        proof {
            lemma_longest(all, i as int);
            assert(all.take(i + 1).drop_last() == all.take(i as int));
            assert(all.take(i + 1).last() == rows@[i as int].0@);
            assert(places.take(i + 1).drop_last() == places.take(i as int));
            assert(places.take(i + 1).last() == rows@[i as int].1@);
            assert(places[i as int].len() <= padded);
        }
        push_filled(&mut ids, rows[i].0, padded);
        push_filled(&mut positions, rows[i].1, padded);
    }
    assert(places.take(places.len() as int) == places);
    Padded { ids, positions, lengths, padded }
}

/// Where every token of a padded batch stands: row by row, each row its own tokens
/// and then zeros.
pub proof fn law_rows_keep_their_tokens(rows: Seq<Seq<u32>>, padded: nat, row: int, token: int)
    requires
        0 <= row < rows.len(),
        0 <= token < padded,
        forall|i: int| 0 <= i < rows.len() ==> (#[trigger] rows[i]).len() <= padded,
    ensures
        side_by_side(rows, padded).len() == rows.len() * padded,
        0 <= row * padded + token < rows.len() * padded,
        side_by_side(rows, padded)[row * padded + token] == if token < rows[row].len() {
            rows[row][token]
        } else {
            0
        },
    decreases rows.len(),
{
    let rest = rows.drop_last();
    let last = rows.len() - 1;
    lemma_side_by_side_len(rest, padded);
    lemma_side_by_side_len(rows, padded);
    assert(rows[last].len() <= padded);
    lemma_cell(rows.len(), padded, row, token);
    if row < last {
        assert forall|i: int| 0 <= i < rest.len() implies (#[trigger] rest[i]).len() <= padded by {
            assert(rest[i] == rows[i]);
        }
        law_rows_keep_their_tokens(rest, padded, row, token);
    } else {
        assert(rest.len() * padded == row * padded);
        assert(filled(rows.last(), padded)[token] == if token < rows[row].len() {
            rows[row][token]
        } else {
            0
        });
    }
}

proof fn lemma_side_by_side_len(rows: Seq<Seq<u32>>, padded: nat)
    requires
        forall|i: int| 0 <= i < rows.len() ==> (#[trigger] rows[i]).len() <= padded,
    ensures
        side_by_side(rows, padded).len() == rows.len() * padded,
    decreases rows.len(),
{
    if rows.len() == 0 {
        assert(0 * padded == 0) by (nonlinear_arith);
    } else {
        let rest = rows.drop_last();
        assert forall|i: int| 0 <= i < rest.len() implies (#[trigger] rest[i]).len() <= padded by {
            assert(rest[i] == rows[i]);
        }
        lemma_side_by_side_len(rest, padded);
        assert(rows[rows.len() - 1].len() <= padded);
        assert(rows.len() * padded == rest.len() * padded + padded) by (nonlinear_arith)
            requires
                rows.len() == rest.len() + 1,
        ;
    }
}

/// Padding stays out of the answers: a real token of a branch reads no padding, and
/// no row of a mask is empty.
pub proof fn law_padding_is_not_read(state: int, length: int, query: int, key: int)
    requires
        0 <= query,
        0 <= state,
    ensures
        query < length && padded_branch_reads(state, length, query, key) ==> key < state + length,
        query < length ==> padded_branch_reads(state, length, query, key) == (branch_reads(
            state,
            query,
            key,
        )),
        state > 0 ==> padded_branch_reads(state, length, query, 0),
        query < length && padded_state_reads(length, query, key) ==> key < length,
        query < length ==> padded_state_reads(length, query, key) == causal(query, key),
        padded_state_reads(length, query, query),
{
}

/// A question that continues from its state reads what it reads in its row, and so
/// what it reads in the whole pass: running the state once changes no answer's
/// reading.
pub proof fn law_continuing_reads_as_the_row_does(p: PassView, s: u32, query: int, key: int)
    requires
        p.options.len() == 0,
        layout::state_first(p),
        s > 0,
        0 <= query < p.segment(s).len(),
        0 <= key < (p.segment(0) + p.segment(s)).len(),
    ensures
        ({
            let state = p.segment(0).len() as int;
            let at = p.segment(0) + p.segment(s);
            &&& branch_reads(state, query, key) == p.row_part(s).reads(state + query, key)
            &&& branch_reads(state, query, key) == p.reads(at[state + query], at[key])
        }),
{
    let state = p.segment(0).len() as int;
    layout::law_rows_are_causal(p, s, state + query, key);
    layout::law_a_row_reads_as_the_pass_does(p, s, state + query, key);
}

/// A mask has one cell for every query and key, row by row: the cell of a pair says whether the
/// query reads the key.
pub proof fn law_a_mask_has_a_cell_for_every_pair(
    rows: nat,
    columns: nat,
    cell: spec_fn(int, int) -> bool,
    query: int,
    key: int,
)
    requires
        0 <= query < rows,
        0 <= key < columns,
    ensures
        grid(rows, columns, cell).len() == rows * columns,
        0 <= query * columns + key < rows * columns,
        grid(rows, columns, cell)[query * columns + key] == cell(query, key),
{
    lemma_cell(rows, columns, query, key);
}

/// The masks of a batch stand one behind the other, each by the length of its own row.
pub proof fn law_every_row_of_a_batch_has_its_own_mask(
    lengths: Seq<usize>,
    rows: nat,
    columns: nat,
    cell: spec_fn(int, int, int) -> bool,
    row: int,
    query: int,
    key: int,
)
    requires
        0 <= row < lengths.len(),
        0 <= query < rows,
        0 <= key < columns,
    ensures
        grids(lengths, rows, columns, cell).len() == lengths.len() * (rows * columns),
        0 <= row * (rows * columns) + (query * columns + key) < lengths.len() * (rows * columns),
        grids(lengths, rows, columns, cell)[row * (rows * columns) + (query * columns + key)]
            == cell(lengths[row] as int, query, key),
    decreases lengths.len(),
{
    let size = rows * columns;
    let fewer = lengths.drop_last();
    let n = fewer.len();
    lemma_cell(rows, columns, query, key);
    lemma_grids_len(fewer, rows, columns, cell);
    lemma_grids_len(lengths, rows, columns, cell);
    let at = query * columns + key;
    assert(lengths.len() * size == n * size + size) by (nonlinear_arith)
        requires
            lengths.len() == n + 1,
    ;
    if row == n {
        assert(grids(lengths, rows, columns, cell)[n * size + at] == grid(
            rows,
            columns,
            |q: int, k: int| cell(lengths.last() as int, q, k),
        )[at]);
        assert(0 <= n * size) by (nonlinear_arith)
            requires
                n >= 0,
                size >= 0,
        ;
    } else {
        law_every_row_of_a_batch_has_its_own_mask(fewer, rows, columns, cell, row, query, key);
        assert(fewer[row] == lengths[row]);
    }
}

proof fn lemma_grids_len(
    lengths: Seq<usize>,
    rows: nat,
    columns: nat,
    cell: spec_fn(int, int, int) -> bool,
)
    ensures
        grids(lengths, rows, columns, cell).len() == lengths.len() * (rows * columns),
    decreases lengths.len(),
{
    let size = rows * columns;
    if lengths.len() > 0 {
        let n = (lengths.len() - 1) as nat;
        lemma_grids_len(lengths.drop_last(), rows, columns, cell);
        assert((n + 1) * size == n * size + size) by (nonlinear_arith);
    } else {
        assert(0 * size == 0);
    }
}

/// A branch's token reads the whole state and, of its branch, itself and what comes before it. In
/// a batch what is only padding reads the state alone, and in a prefill only itself.
pub proof fn law_a_branch_reads_the_state_and_what_came_before(
    state: int,
    length: int,
    query: int,
    key: int,
)
    requires
        0 <= state,
        0 <= query,
        0 <= key,
    ensures
        causal(query, key) <==> key <= query,
        key < state ==> branch_reads(state, query, key) && padded_branch_reads(
            state,
            length,
            query,
            key,
        ),
        key >= state ==> (branch_reads(state, query, key) <==> key <= state + query),
        key >= state && query >= length ==> !padded_branch_reads(state, length, query, key),
        key >= state && query < length ==> (padded_branch_reads(state, length, query, key) <==> key
            <= state + query),
        query >= length ==> (padded_state_reads(length, query, key) <==> key == query),
        query < length ==> (padded_state_reads(length, query, key) <==> key <= query),
{
}

/// A batch is as wide as its longest row: no row is longer, and some row is just as long.
pub proof fn law_a_batch_is_as_wide_as_its_longest_row(rows: Seq<Seq<u32>>)
    ensures
        forall|i: int| 0 <= i < rows.len() ==> (#[trigger] rows[i]).len() <= longest(rows),
        rows.len() > 0 ==> exists|i: int|
            0 <= i < rows.len() && (#[trigger] rows[i]).len() == longest(rows),
        rows.len() == 0 ==> longest(rows) == 0,
    decreases rows.len(),
{
    if rows.len() > 0 {
        let fewer = rows.drop_last();
        law_a_batch_is_as_wide_as_its_longest_row(fewer);
        assert forall|i: int| 0 <= i < rows.len() implies (#[trigger] rows[i]).len() <= longest(
            rows,
        ) by {
            if i < fewer.len() {
                assert(fewer[i] == rows[i]);
            }
        }
        if longest(fewer) < rows.last().len() || fewer.len() == 0 {
            assert(rows[rows.len() - 1].len() == longest(rows));
        } else {
            let i = choose|i: int|
                0 <= i < fewer.len() && (#[trigger] fewer[i]).len() == longest(fewer);
            assert(rows[i].len() == longest(rows));
        }
    }
}

/// Rows are padded by their own tokens and positions, in order.
pub proof fn law_rows_are_seen_in_order(rows: Seq<(&[u32], &[u32])>, i: int)
    requires
        0 <= i < rows.len(),
    ensures
        ids_of(rows).len() == rows.len(),
        positions_of(rows).len() == rows.len(),
        ids_of(rows)[i] == rows[i].0@,
        positions_of(rows)[i] == rows[i].1@,
{
}

} // verus!
