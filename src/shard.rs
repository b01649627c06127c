//! The rows that one shard contributes, built from the encodings of its values.
use crate::error::TokenizeError;
use crate::table::{Encoded, Row, TokenTable};
use vstd::prelude::*;

verus! {

/// The rows that the encodings of a contiguous run of input rows contribute,
/// where the first of them is input row `base`: for each encoded value in turn,
/// one row per token, tagged with its input row.  Absent values contribute none.
pub open spec fn rows_of(encs: Seq<Option<Encoded>>, base: int) -> Seq<Row>
    decreases encs.len(),
{
    if encs.len() == 0 {
        Seq::empty()
    } else {
        rows_of(encs.drop_last(), base) + match encs.last() {
            Some(e) => e.rows((base + encs.len() - 1) as u32),
            None => Seq::empty(),
        }
    }
}

/// The number of tokens over all encoded values.
pub open spec fn token_count(encs: Seq<Option<Encoded>>) -> nat
    decreases encs.len(),
{
    if encs.len() == 0 {
        0
    } else {
        token_count(encs.drop_last()) + match encs.last() {
            Some(e) => e.ids@.len(),
            None => 0,
        }
    }
}

/// Every encoding before position `k` is consistent.
pub open spec fn consistent_before(encs: Seq<Option<Encoded>>, k: int) -> bool {
    forall|i: int| 0 <= i < k && (#[trigger] encs[i]) is Some ==> encs[i]->Some_0.consistent()
}

/// Every encoding is consistent.
pub open spec fn all_consistent(encs: Seq<Option<Encoded>>) -> bool {
    consistent_before(encs, encs.len() as int)
}

/// `encs` holds an encoding exactly where the column, from `offset` on, holds a value.
pub open spec fn nulls_match(encs: Seq<Option<Encoded>>, column: Seq<Option<String>>, offset: int) -> bool {
    forall|i: int| 0 <= i < encs.len() ==> ((#[trigger] encs[i]) is Some <==> column[offset + i] is Some)
}

/// Each encoding in `encs` is of the value at the same place of the column,
/// from `offset` on, encoded with special tokens exactly when
/// `add_special_tokens` holds.
pub open spec fn sourced(
    encs: Seq<Option<Encoded>>,
    column: Seq<Option<String>>,
    offset: int,
    add_special_tokens: bool,
) -> bool {
    forall|i: int|
        0 <= i < encs.len() && (#[trigger] encs[i]) is Some ==> encs[i]->Some_0.source@ == (
            column[offset + i]->Some_0@,
            add_special_tokens,
        )
}

/// Builds the table of one shard from the encodings of its values, the first of
/// which is input row `offset`.  Fails on the first encoding whose three
/// sequences differ in length.
#[verifier::loop_isolation(false)]
pub fn shard_table(encodings: &Vec<Option<Encoded>>, offset: usize) -> (r: Result<TokenTable, TokenizeError>)
    requires
        offset + encodings@.len() <= u32::MAX + 1,
    ensures
        all_consistent(encodings@) ==> r is Ok && r->Ok_0.wf() && r->Ok_0@ == rows_of(encodings@, offset as int),
        !all_consistent(encodings@) ==> exists|k: int|
            0 <= k < encodings@.len() && consistent_before(encodings@, k) && (#[trigger] encodings@[k]) is Some
                && !encodings@[k]->Some_0.consistent()
                && r == Err::<TokenTable, TokenizeError>(TokenizeError::Inconsistent { row: (offset + k) as usize }),
{
    let mut table = TokenTable::new();
    let n = encodings.len();
    let mut i: usize = 0;
    while i < n
        invariant
            i <= n,
            n == encodings@.len(),
            table.wf(),
            table@ == rows_of(encodings@.take(i as int), offset as int),
            consistent_before(encodings@, i as int),
        decreases n - i,
    {
        proof {
            let next = encodings@.take(i + 1);
            assert(next.drop_last() =~= encodings@.take(i as int));
            assert(next.last() == encodings@[i as int]);
        }
        match &encodings[i] {
            None => {
                assert(rows_of(encodings@.take(i + 1), offset as int) =~= table@);
            },
            Some(e) => {
                match table.append_encoding(offset + i, e) {
                    Ok(()) => {},
                    Err(err) => {
                        assert(!all_consistent(encodings@));
                        return Err(err);
                    },
                }
            },
        }
        i = i + 1;
    }
    assert(encodings@.take(n as int) =~= encodings@);
    Ok(table)
}

/// Rows of two runs of encodings, one after the other, are the rows of the
/// first followed by those of the second, whose input rows start where the
/// first run ends.
pub proof fn lemma_rows_of_concat(a: Seq<Option<Encoded>>, b: Seq<Option<Encoded>>, base: int)
    ensures
        rows_of(a + b, base) == rows_of(a, base) + rows_of(b, base + a.len()),
    decreases b.len(),
{
    if b.len() == 0 {
        assert(a + b =~= a);
        assert(rows_of(a, base) + rows_of(b, base + a.len()) =~= rows_of(a, base));
    } else {
        assert((a + b).drop_last() =~= a + b.drop_last());
        lemma_rows_of_concat(a, b.drop_last(), base);
        assert((a + b).last() == b.last());
        assert(rows_of(a + b, base) =~= rows_of(a, base) + rows_of(b, base + a.len()));
    }
}

/// The table of a run of encodings has one row per token of its encoded values.
pub proof fn lemma_row_count(encs: Seq<Option<Encoded>>, base: int)
    ensures
        rows_of(encs, base).len() == token_count(encs),
    decreases encs.len(),
{
    if encs.len() > 0 {
        lemma_row_count(encs.drop_last(), base);
    }
}

/// Every row of the table of a run of encodings starting at input row `base`
/// comes from an input row of the run that holds a value: absent values give no
/// rows, and no row names their index.
pub proof fn lemma_rows_provenance(encs: Seq<Option<Encoded>>, base: int)
    requires
        0 <= base,
        base + encs.len() <= u32::MAX + 1,
    ensures
        forall|k: int|
            0 <= k < rows_of(encs, base).len() ==> base <= (#[trigger] rows_of(encs, base)[k]).0 < base + encs.len()
                && encs[rows_of(encs, base)[k].0 - base] is Some,
    decreases encs.len(),
{
    if encs.len() > 0 {
        let prev = encs.drop_last();
        lemma_rows_provenance(prev, base);
        let rows = rows_of(encs, base);
        assert forall|k: int| 0 <= k < rows.len() implies base <= (#[trigger] rows[k]).0 < base + encs.len()
            && encs[rows[k].0 - base] is Some by {
            if k < rows_of(prev, base).len() {
                assert(rows[k] == rows_of(prev, base)[k]);
                assert(encs[rows[k].0 - base] == prev[rows[k].0 - base]);
            }
        }
    }
}

/// The rows of input row `base + i`, read in table order, are exactly the
/// tokens of its encoding, in the encoding's own order.
pub proof fn lemma_rows_of_one_input(encs: Seq<Option<Encoded>>, base: int, i: int)
    requires
        0 <= base,
        base + encs.len() <= u32::MAX + 1,
        0 <= i < encs.len(),
        encs[i] is Some,
    ensures
        rows_of(encs, base).filter(|r: Row| r.0 == (base + i) as u32) == encs[i]->Some_0.rows((base + i) as u32),
    decreases encs.len(),
{
    let pred = |r: Row| r.0 == (base + i) as u32;
    let prev = encs.drop_last();
    let last_rows = match encs.last() {
        Some(e) => e.rows((base + encs.len() - 1) as u32),
        None => Seq::<Row>::empty(),
    };
    Seq::filter_distributes_over_add(rows_of(prev, base), last_rows, pred);
    if i == encs.len() - 1 {
        lemma_rows_provenance(prev, base);
        lemma_filter_none(rows_of(prev, base), pred);
        lemma_filter_all(last_rows, pred);
        assert(rows_of(prev, base).filter(pred) + last_rows =~= last_rows);
    } else {
        lemma_rows_of_one_input(prev, base, i);
        lemma_filter_none(last_rows, pred);
        assert(prev[i] == encs[i]);
        assert(rows_of(prev, base).filter(pred) + Seq::<Row>::empty() =~= rows_of(prev, base).filter(pred));
    }
}

proof fn lemma_filter_all(s: Seq<Row>, pred: spec_fn(Row) -> bool)
    requires
        forall|k: int| 0 <= k < s.len() ==> pred(#[trigger] s[k]),
    ensures
        s.filter(pred) == s,
    decreases s.len(),
{
    reveal(Seq::filter);
    if s.len() > 0 {
        lemma_filter_all(s.drop_last(), pred);
        assert(s.drop_last().push(s.last()) =~= s);
    }
}

proof fn lemma_filter_none(s: Seq<Row>, pred: spec_fn(Row) -> bool)
    requires
        forall|k: int| 0 <= k < s.len() ==> !pred(#[trigger] s[k]),
    ensures
        s.filter(pred) == Seq::<Row>::empty(),
    decreases s.len(),
{
    reveal(Seq::filter);
    if s.len() > 0 {
        lemma_filter_none(s.drop_last(), pred);
    }
}

} // verus!
