//! Tokenizing a whole column: encode each shard on the worker pool, then merge.
use crate::engine::{definition_loads, encode_text, parse_tokenizer, worker_count};
use crate::error::TokenizeError;
use crate::partition::{lemma_split_covers, part_end, split_offsets, split_spec};
use crate::shard::{
    all_consistent, consistent_before, lemma_row_count, lemma_rows_of_concat, lemma_rows_of_one_input,
    lemma_rows_provenance, nulls_match, rows_of, shard_table, sourced, token_count,
};
use crate::table::{all_ok_before, assemble, concat_rows, ok_tables, views_of, Encoded, Row, TokenTable};
use rayon::iter::{IntoParallelRefIterator, ParallelIterator};
use tokenizers::Tokenizer;
use vstd::prelude::*;

verus! {

/// `e` names a row of the run `[offset, offset + len)` that holds a value.
pub open spec fn fails_at_value(e: TokenizeError, column: Seq<Option<String>>, offset: int, len: int) -> bool {
    match e.row() {
        Some(row) => offset <= row < offset + len && column[row as int] is Some,
        None => false,
    }
}

/// What holds of the result of tokenizing the run `[offset, offset + len)` of
/// `column`, whatever the engine returned: a table is the rows of consistent
/// encodings of exactly the values present, each encoded with the given flag,
/// in order; an error names a row of the run that holds a value.
pub open spec fn shard_outcome(
    column: Seq<Option<String>>,
    offset: int,
    len: int,
    add_special_tokens: bool,
    r: Result<TokenTable, TokenizeError>,
) -> bool {
    match r {
        Ok(t) => t.wf() && exists|encs: Seq<Option<Encoded>>|
            #![trigger rows_of(encs, offset)]
            encs.len() == len && nulls_match(encs, column, offset) && sourced(encs, column, offset, add_special_tokens)
                && all_consistent(encs) && t@ == rows_of(encs, offset),
        Err(e) => fails_at_value(e, column, offset, len),
    }
}

/// Loads a tokenizer from its JSON definition.
pub fn load_tokenizer(definition: &str) -> (r: Result<Tokenizer, TokenizeError>)
    ensures
        r is Ok <==> definition_loads(definition@),
        r is Err ==> r->Err_0 is Definition,
{
    match parse_tokenizer(definition) {
        Ok(t) => Ok(t),
        Err(message) => Err(TokenizeError::Definition { message }),
    }
}

/// Encodes, in order, every value present in the run `[offset, offset + len)`
/// of `column`; absent values stay absent.  Stops at the first value that
/// fails to encode.
pub fn encode_rows(
    tokenizer: &Tokenizer,
    column: &Vec<Option<String>>,
    offset: usize,
    len: usize,
    add_special_tokens: bool,
) -> (r: Result<Vec<Option<Encoded>>, TokenizeError>)
    requires
        offset + len <= column@.len(),
    ensures
        r is Ok ==> r->Ok_0@.len() == len && nulls_match(r->Ok_0@, column@, offset as int) && sourced(
            r->Ok_0@,
            column@,
            offset as int,
            add_special_tokens,
        ),
        r is Err ==> r->Err_0 is Tokenization && fails_at_value(r->Err_0, column@, offset as int, len as int),
{
    let m = column.len();
    let mut out: Vec<Option<Encoded>> = Vec::new();
    let mut i: usize = 0;
    while i < len
        invariant
            i <= len,
            m == column@.len(),
            offset + len <= column@.len(),
            out@.len() == i,
            nulls_match(out@, column@, offset as int),
            sourced(out@, column@, offset as int, add_special_tokens),
        decreases len - i,
    {
        match &column[offset + i] {
            None => {
                out.push(None);
            },
            Some(text) => {
                match encode_text(tokenizer, text.as_str(), add_special_tokens) {
                    Ok(e) => {
                        out.push(Some(e));
                    },
                    Err(message) => {
                        return Err(TokenizeError::Tokenization { row: offset + i, message });
                    },
                }
            },
        }
        i = i + 1;
        assert(nulls_match(out@, column@, offset as int));
        assert(sourced(out@, column@, offset as int, add_special_tokens));
    }
    Ok(out)
}

/// Tokenizes the run `[offset, offset + len)` of `column` into one shard table.
pub fn tokenize_shard(
    tokenizer: &Tokenizer,
    column: &Vec<Option<String>>,
    offset: usize,
    len: usize,
    add_special_tokens: bool,
) -> (r: Result<TokenTable, TokenizeError>)
    requires
        offset + len <= column@.len(),
        column@.len() <= u32::MAX + 1,
    ensures
        shard_outcome(column@, offset as int, len as int, add_special_tokens, r),
{
    match encode_rows(tokenizer, column, offset, len, add_special_tokens) {
        Err(e) => Err(e),
        Ok(encodings) => {
            let r = shard_table(&encodings, offset);
            proof {
                if !all_consistent(encodings@) {
                    let k = choose|k: int|
                        0 <= k < encodings@.len() && consistent_before(encodings@, k) && (#[trigger] encodings@[k]) is Some
                            && !encodings@[k]->Some_0.consistent()
                            && r == Err::<TokenTable, TokenizeError>(TokenizeError::Inconsistent { row: (offset + k) as usize });
                    assert(column@[offset + k] is Some);
                } else {
                    assert(rows_of(encodings@, offset as int) == r->Ok_0@);
                }
            }
            r
        },
    }
}

/// Relies on rayon's `par_iter().map(..).collect()` into a `Vec`: it runs
/// `tokenize_shard` once for each partition on the worker pool and keeps the
/// results in partition order.
#[verifier::external_body]
fn run_shards(
    tokenizer: &Tokenizer,
    column: &Vec<Option<String>>,
    parts: &Vec<(usize, usize)>,
    add_special_tokens: bool,
) -> (results: Vec<Result<TokenTable, TokenizeError>>)
    requires
        forall|p: int| 0 <= p < parts@.len() ==> part_end(#[trigger] parts@[p]) <= column@.len(),
        column@.len() <= u32::MAX + 1,
    ensures
        results@.len() == parts@.len(),
        forall|p: int|
            0 <= p < parts@.len() ==> shard_outcome(
                column@,
                parts@[p].0 as int,
                parts@[p].1 as int,
                add_special_tokens,
                #[trigger] results@[p],
            ),
{
    parts.par_iter().map(|&(offset, len)| tokenize_shard(tokenizer, column, offset, len, add_special_tokens)).collect()
}

/// Tokenizes `column` with `workers` shards (at least one), each encoded on
/// the worker pool, and merges the shard tables in partition order.  On
/// failure the error is that of the first failing shard.
pub fn tokenize_with(
    tokenizer: &Tokenizer,
    column: &Vec<Option<String>>,
    add_special_tokens: bool,
    workers: usize,
) -> (r: Result<TokenTable, TokenizeError>)
    requires
        column@.len() <= u32::MAX + 1,
    ensures
        shard_outcome(column@, 0, column@.len() as int, add_special_tokens, r),
{
    let n: usize = if workers == 0 {
        1
    } else {
        workers
    };
    let parts = split_offsets(column.len(), n);
    proof {
        lemma_split_covers(column@.len(), n as nat);
        lemma_parts_within(parts@, column@.len() as int);
    }
    let results = run_shards(tokenizer, column, &parts, add_special_tokens);
    let r = assemble(results);
    proof {
        if all_ok_before(results@, results@.len() as int) {
            let all = results@.len() as int;
            lemma_join_shards(column@, parts@, add_special_tokens, results@, all);
            assert(results@.take(all) =~= results@);
            assert(parts@[parts@.len() - 1] == parts@.last());
            let encs = choose|encs: Seq<Option<Encoded>>|
                #![trigger rows_of(encs, 0)]
                encs.len() == covered_end(parts@, all) && nulls_match(encs, column@, 0) && sourced(
                    encs,
                    column@,
                    0,
                    add_special_tokens,
                ) && all_consistent(encs) && concat_rows(views_of(ok_tables(results@.take(all)))) == rows_of(encs, 0);
            assert(encs.len() == column@.len());
            assert(r->Ok_0@ == rows_of(encs, 0));
        } else {
            let k = choose|k: int|
                0 <= k < results@.len() && all_ok_before(results@, k) && results@[k] is Err && r
                    == #[trigger] results@[k];
            assert(shard_outcome(column@, parts@[k].0 as int, parts@[k].1 as int, add_special_tokens, results@[k]));
            assert(part_end(parts@[k]) <= column@.len());
        }
    }
    r
}

/// Tokenizes `column` with the tokenizer defined by `definition`, using one
/// shard per worker of the pool.
pub fn tokenize(definition: &str, column: &Vec<Option<String>>, add_special_tokens: bool) -> (r: Result<
    TokenTable,
    TokenizeError,
>)
    requires
        column@.len() <= u32::MAX + 1,
    ensures
        (r is Err && r->Err_0 is Definition) <==> !definition_loads(definition@),
        match r {
            Err(TokenizeError::Definition { .. }) => true,
            _ => shard_outcome(column@, 0, column@.len() as int, add_special_tokens, r),
        },
{
    let tokenizer = match load_tokenizer(definition) {
        Ok(t) => t,
        Err(e) => return Err(e),
    };
    tokenize_with(&tokenizer, column, add_special_tokens, worker_count())
}

/// What a table returned for a whole column satisfies, for the encodings
/// the engine gave: it has one row per token of the values present; every row
/// names an input row that holds a value, so absent values give no rows; and
/// the rows of each input row, read in table order, are the tokens of its
/// encoding in their own order.
pub proof fn lemma_column_table(column: Seq<Option<String>>, add_special_tokens: bool, t: TokenTable)
    requires
        column.len() <= u32::MAX + 1,
        shard_outcome(column, 0, column.len() as int, add_special_tokens, Ok(t)),
    ensures
        exists|encs: Seq<Option<Encoded>>|
            #![trigger rows_of(encs, 0)]
            {
                &&& encs.len() == column.len()
                &&& nulls_match(encs, column, 0)
                &&& sourced(encs, column, 0, add_special_tokens)
                &&& t@ == rows_of(encs, 0)
                &&& t@.len() == token_count(encs)
                &&& forall|k: int|
                    0 <= k < t@.len() ==> (#[trigger] t@[k]).0 < column.len() && column[t@[k].0 as int] is Some
                &&& forall|i: int|
                    0 <= i < column.len() && (#[trigger] column[i]) is Some ==> t@.filter(
                        |r: Row| r.0 == i as u32,
                    ) == encs[i]->Some_0.rows(i as u32)
            },
{
    let encs = choose|encs: Seq<Option<Encoded>>|
        #![trigger rows_of(encs, 0)]
        encs.len() == column.len() && nulls_match(encs, column, 0) && sourced(encs, column, 0, add_special_tokens)
            && all_consistent(encs) && t@ == rows_of(encs, 0);
    lemma_row_count(encs, 0);
    lemma_rows_provenance(encs, 0);
    assert forall|k: int| 0 <= k < t@.len() implies (#[trigger] t@[k]).0 < column.len() && column[t@[k].0 as int] is Some by {
        assert(encs[rows_of(encs, 0)[k].0 - 0] is Some);
    }
    assert forall|i: int| 0 <= i < column.len() && (#[trigger] column[i]) is Some implies t@.filter(
        |r: Row| r.0 == i as u32,
    ) == encs[i]->Some_0.rows(i as u32) by {
        assert(encs[i] is Some);
        lemma_rows_of_one_input(encs, 0, i);
        assert((|r: Row| r.0 == (0 + i) as u32) =~= (|r: Row| r.0 == i as u32));
    }
}

/// Contiguous shards that start at zero and end at `m` each end within `[0, m]`.
proof fn lemma_parts_within(parts: Seq<(usize, usize)>, m: int)
    requires
        parts.len() >= 1,
        part_end(parts.last()) == m,
        forall|p: int, q: int| 0 <= p < q < parts.len() ==> part_end(#[trigger] parts[p]) <= #[trigger] parts[q].0,
    ensures
        forall|p: int| 0 <= p < parts.len() ==> part_end(#[trigger] parts[p]) <= m,
{
    assert forall|p: int| 0 <= p < parts.len() implies part_end(#[trigger] parts[p]) <= m by {
        if p < parts.len() - 1 {
            assert(part_end(parts[p]) <= parts[parts.len() - 1].0);
        }
    }
}

/// The input rows covered by the first `k` of contiguous shards starting at zero.
spec fn covered_end(parts: Seq<(usize, usize)>, k: int) -> int {
    if k == 0 {
        0
    } else {
        part_end(parts[k - 1])
    }
}

/// Joins the encodings behind the first `k` successful shard results into
/// encodings of the rows they cover, whose rows are the merged shard tables.
proof fn lemma_join_shards(
    column: Seq<Option<String>>,
    parts: Seq<(usize, usize)>,
    add_special_tokens: bool,
    results: Seq<Result<TokenTable, TokenizeError>>,
    k: int,
)
    requires
        parts.len() == results.len(),
        0 <= k <= parts.len(),
        parts.len() >= 1,
        parts[0].0 == 0,
        forall|p: int| 0 <= p < parts.len() - 1 ==> part_end(#[trigger] parts[p]) == parts[p + 1].0,
        forall|p: int|
            0 <= p < parts.len() ==> shard_outcome(
                column,
                parts[p].0 as int,
                parts[p].1 as int,
                add_special_tokens,
                #[trigger] results[p],
            ),
        all_ok_before(results, k),
    ensures
        exists|encs: Seq<Option<Encoded>>|
            #![trigger rows_of(encs, 0)]
            encs.len() == covered_end(parts, k) && nulls_match(encs, column, 0) && sourced(
                encs,
                column,
                0,
                add_special_tokens,
            ) && all_consistent(encs) && concat_rows(views_of(ok_tables(results.take(k)))) == rows_of(encs, 0),
    decreases k,
{
    if k == 0 {
        let encs = Seq::<Option<Encoded>>::empty();
        assert(views_of(ok_tables(results.take(0))) =~= Seq::<Seq<Row>>::empty());
        assert(rows_of(encs, 0) == concat_rows(views_of(ok_tables(results.take(k)))));
    } else {
        lemma_join_shards(column, parts, add_special_tokens, results, k - 1);
        let prev = choose|encs: Seq<Option<Encoded>>|
            #![trigger rows_of(encs, 0)]
            encs.len() == covered_end(parts, k - 1) && nulls_match(encs, column, 0) && sourced(
                encs,
                column,
                0,
                add_special_tokens,
            ) && all_consistent(encs) && concat_rows(views_of(ok_tables(results.take(k - 1)))) == rows_of(encs, 0);
        let part = parts[k - 1];
        assert(results[k - 1] is Ok);
        assert(shard_outcome(column, part.0 as int, part.1 as int, add_special_tokens, results[k - 1]));
        let t = results[k - 1]->Ok_0;
        let last = choose|encs: Seq<Option<Encoded>>|
            #![trigger rows_of(encs, part.0 as int)]
            encs.len() == part.1 && nulls_match(encs, column, part.0 as int) && sourced(
                encs,
                column,
                part.0 as int,
                add_special_tokens,
            ) && all_consistent(encs) && t@ == rows_of(encs, part.0 as int);
        if k >= 2 {
            assert(part_end(parts[k - 2]) == parts[k - 1].0);
        }
        assert(prev.len() == part.0);
        let encs = prev + last;
        lemma_rows_of_concat(prev, last, 0);
        assert forall|i: int| 0 <= i < encs.len() implies ((#[trigger] encs[i]) is Some <==> column[0 + i] is Some) by {
            if i >= prev.len() {
                assert(encs[i] == last[i - prev.len()]);
            }
        }
        assert forall|i: int| 0 <= i < encs.len() && (#[trigger] encs[i]) is Some implies encs[i]->Some_0.source@ == (
            column[0 + i]->Some_0@,
            add_special_tokens,
        ) by {
            if i >= prev.len() {
                assert(encs[i] == last[i - prev.len()]);
            } else {
                assert(encs[i] == prev[i]);
            }
        }
        assert forall|i: int| 0 <= i < encs.len() && (#[trigger] encs[i]) is Some implies encs[i]->Some_0.consistent() by {
            if i >= prev.len() {
                assert(encs[i] == last[i - prev.len()]);
            } else {
                assert(encs[i] == prev[i]);
            }
        }
        let views = views_of(ok_tables(results.take(k)));
        assert(views.drop_last() =~= views_of(ok_tables(results.take(k - 1))));
        assert(views.last() == t@);
        assert(concat_rows(views) == rows_of(encs, 0));
    }
}

/// Splitting a run of encodings into the shards of any worker count and
/// merging the shard tables in shard order gives the table of the whole run:
/// the result does not depend on the number of workers.
pub proof fn lemma_split_merge(encs: Seq<Option<Encoded>>, n: nat)
    requires
        n >= 1,
        encs.len() <= usize::MAX,
    ensures
        concat_rows(shard_rows(encs, split_spec(encs.len(), n))) == rows_of(encs, 0),
{
    let parts = split_spec(encs.len(), n);
    lemma_split_covers(encs.len(), n);
    lemma_parts_within(parts, encs.len() as int);
    lemma_merge_prefix(encs, parts, parts.len() as int);
    assert(shard_rows(encs, parts).take(parts.len() as int) =~= shard_rows(encs, parts));
    assert(parts[parts.len() - 1] == parts.last());
    assert(encs.take(encs.len() as int) =~= encs);
}

/// The rows of each shard of `encs`, shard by shard.
pub open spec fn shard_rows(encs: Seq<Option<Encoded>>, parts: Seq<(usize, usize)>) -> Seq<Seq<Row>> {
    parts.map_values(|p: (usize, usize)| rows_of(encs.subrange(p.0 as int, part_end(p)), p.0 as int))
}

proof fn lemma_merge_prefix(encs: Seq<Option<Encoded>>, parts: Seq<(usize, usize)>, k: int)
    requires
        0 <= k <= parts.len(),
        parts.len() >= 1,
        parts[0].0 == 0,
        forall|p: int| 0 <= p < parts.len() - 1 ==> part_end(#[trigger] parts[p]) == parts[p + 1].0,
        forall|p: int| 0 <= p < parts.len() ==> part_end(#[trigger] parts[p]) <= encs.len(),
    ensures
        concat_rows(shard_rows(encs, parts).take(k)) == rows_of(encs.take(covered_end(parts, k)), 0),
    decreases k,
{
    if k == 0 {
        assert(shard_rows(encs, parts).take(0) =~= Seq::<Seq<Row>>::empty());
        assert(encs.take(0) =~= Seq::<Option<Encoded>>::empty());
    } else {
        lemma_merge_prefix(encs, parts, k - 1);
        let part = parts[k - 1];
        if k >= 2 {
            assert(part_end(parts[k - 2]) == parts[k - 1].0);
        }
        let prev = encs.take(covered_end(parts, k - 1));
        let last = encs.subrange(part.0 as int, part_end(part));
        assert(prev + last =~= encs.take(covered_end(parts, k)));
        lemma_rows_of_concat(prev, last, 0);
        let rows = shard_rows(encs, parts).take(k);
        assert(rows.drop_last() =~= shard_rows(encs, parts).take(k - 1));
    }
}

} // verus!
