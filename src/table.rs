//! Encodings of single values and the four-column token table built from them.
use crate::error::TokenizeError;
use vstd::prelude::*;

verus! {

/// One output row: `(seq_id, tok_id, token, attend)`.
pub type Row = (u32, u32, Seq<char>, u32);

/// The encoding of one text value: token ids, token texts and attention bits.
#[derive(Clone)]
pub struct Encoded {
    pub ids: Vec<u32>,
    pub tokens: Vec<String>,
    pub attention_mask: Vec<u32>,
    /// The text that was encoded and whether special tokens were asked for.
    pub source: Ghost<(Seq<char>, bool)>,
}

impl Encoded {
    /// The encoding of `text`, with special tokens or not, made of the given parts.
    pub fn new(
        text: &str,
        add_special_tokens: bool,
        ids: Vec<u32>,
        tokens: Vec<String>,
        attention_mask: Vec<u32>,
    ) -> (e: Encoded)
        ensures
            e.ids == ids,
            e.tokens == tokens,
            e.attention_mask == attention_mask,
            e.source@ == (text@, add_special_tokens),
    {
        Encoded { ids, tokens, attention_mask, source: Ghost((text@, add_special_tokens)) }
    }

    /// The three sequences have one entry per token.
    pub open spec fn consistent(&self) -> bool {
        &&& self.ids@.len() == self.tokens@.len()
        &&& self.ids@.len() == self.attention_mask@.len()
    }

    /// The rows this encoding contributes for input row `seq_id`, in token order.
    pub open spec fn rows(&self, seq_id: u32) -> Seq<Row> {
        Seq::new(
            self.ids@.len(),
            |k: int| (seq_id, self.ids@[k], self.tokens@[k]@, self.attention_mask@[k]),
        )
    }
}

/// The output table: four columns of equal length.
#[derive(Debug, Clone)]
pub struct TokenTable {
    pub attend: Vec<u32>,
    pub seq_id: Vec<u32>,
    pub tok_id: Vec<u32>,
    pub token: Vec<String>,
}

impl View for TokenTable {
    type V = Seq<Row>;

    open spec fn view(&self) -> Seq<Row> {
        Seq::new(
            self.seq_id@.len(),
            |k: int| (self.seq_id@[k], self.tok_id@[k], self.token@[k]@, self.attend@[k]),
        )
    }
}

/// The rows of a sequence of tables, one table after another.
pub open spec fn concat_rows(tables: Seq<Seq<Row>>) -> Seq<Row>
    decreases tables.len(),
{
    if tables.len() == 0 {
        Seq::empty()
    } else {
        concat_rows(tables.drop_last()) + tables.last()
    }
}

/// The row sequences of a sequence of tables.
pub open spec fn views_of(tables: Seq<TokenTable>) -> Seq<Seq<Row>> {
    tables.map_values(|t: TokenTable| t@)
}

impl TokenTable {
    /// All four columns have the same length.
    pub open spec fn wf(&self) -> bool {
        &&& self.attend@.len() == self.seq_id@.len()
        &&& self.tok_id@.len() == self.seq_id@.len()
        &&& self.token@.len() == self.seq_id@.len()
    }

    /// A table with the four columns and no rows.
    pub fn new() -> (t: TokenTable)
        ensures
            t.wf(),
            t@ == Seq::<Row>::empty(),
    {
        let t = TokenTable { attend: Vec::new(), seq_id: Vec::new(), tok_id: Vec::new(), token: Vec::new() };
        assert(t@ =~= Seq::<Row>::empty());
        t
    }

    /// The number of rows.
    pub fn len(&self) -> (n: usize)
        requires
            self.wf(),
        ensures
            n == self@.len(),
    {
        self.seq_id.len()
    }

    /// Appends one row per token of `enc`, each with provenance `row`.  An
    /// encoding whose three sequences differ in length is refused and the table
    /// is left as it was.
    pub fn append_encoding(&mut self, row: usize, enc: &Encoded) -> (r: Result<(), TokenizeError>)
        requires
            old(self).wf(),
            row <= u32::MAX,
        ensures
            final(self).wf(),
            enc.consistent() ==> r is Ok && final(self)@ == old(self)@ + enc.rows(row as u32),
            !enc.consistent() ==> r == Err::<(), TokenizeError>(TokenizeError::Inconsistent { row })
                && final(self)@ == old(self)@,
    {
        let n = enc.ids.len();
        if enc.tokens.len() != n || enc.attention_mask.len() != n {
            return Err(TokenizeError::Inconsistent { row });
        }
        let seq_id = row as u32;
        let ghost start = self@;
        let mut k: usize = 0;
        while k < n
            invariant
                self.wf(),
                enc.consistent(),
                n == enc.ids@.len(),
                k <= n,
                self@ =~= start + enc.rows(seq_id).take(k as int),
            decreases n - k,
        {
            let ghost before = self@;
            self.attend.push(enc.attention_mask[k]);
            self.seq_id.push(seq_id);
            self.tok_id.push(enc.ids[k]);
            self.token.push(enc.tokens[k].clone());
            assert(self@ =~= before.push(enc.rows(seq_id)[k as int]));
            assert(enc.rows(seq_id).take(k + 1) =~= enc.rows(seq_id).take(k as int).push(
                enc.rows(seq_id)[k as int],
            ));
            k = k + 1;
        }
        assert(enc.rows(seq_id).take(n as int) =~= enc.rows(seq_id));
        Ok(())
    }

    /// Moves all rows of `other` to the end of this table.
    pub fn append_table(&mut self, other: &mut TokenTable)
        requires
            old(self).wf(),
            old(other).wf(),
        ensures
            final(self).wf(),
            final(self)@ == old(self)@ + old(other)@,
            final(other).wf(),
            final(other)@ == Seq::<Row>::empty(),
    {
        self.attend.append(&mut other.attend);
        self.seq_id.append(&mut other.seq_id);
        self.tok_id.append(&mut other.tok_id);
        self.token.append(&mut other.token);
        assert(self@ =~= old(self)@ + old(other)@);
        assert(other@ =~= Seq::<Row>::empty());
    }
}

/// Concatenates the shard tables in the order given, each keeping its own row
/// order.
pub fn merge(mut shards: Vec<TokenTable>) -> (t: TokenTable)
    requires
        forall|i: int| 0 <= i < shards@.len() ==> (#[trigger] shards@[i]).wf(),
    ensures
        t.wf(),
        t@ == concat_rows(views_of(shards@)),
{
    let ghost all = shards@;
    let mut out = TokenTable::new();
    let ghost mut i: int = 0;
    while shards.len() > 0
        invariant
            0 <= i <= all.len(),
            shards@ == all.subrange(i, all.len() as int),
            out.wf(),
            out@ == concat_rows(views_of(all.subrange(0, i))),
            forall|j: int| 0 <= j < all.len() ==> (#[trigger] all[j]).wf(),
        decreases shards@.len(),
    {
        let mut next = shards.remove(0);
        proof {
            assert(next == all[i]);
            let a = views_of(all.subrange(0, i + 1));
            assert(a.drop_last() =~= views_of(all.subrange(0, i)));
            assert(a.last() == next@);
        }
        out.append_table(&mut next);
        proof {
            i = i + 1;
        }
        assert(shards@ =~= all.subrange(i, all.len() as int));
    }
    assert(all.subrange(0, i) =~= all);
    out
}

/// Whether every result before index `k` is `Ok`.
pub open spec fn all_ok_before(results: Seq<Result<TokenTable, TokenizeError>>, k: int) -> bool {
    forall|j: int| 0 <= j < k ==> (#[trigger] results[j]) is Ok
}

/// The tables of a sequence of results that are all `Ok`.
pub open spec fn ok_tables(results: Seq<Result<TokenTable, TokenizeError>>) -> Seq<TokenTable> {
    results.map_values(|r: Result<TokenTable, TokenizeError>| r->Ok_0)
}

/// Joins the shard results in order: the merged table when every shard
/// succeeded, otherwise the error of the first shard that failed.
#[verifier::loop_isolation(false)]
pub fn assemble(mut results: Vec<Result<TokenTable, TokenizeError>>) -> (r: Result<TokenTable, TokenizeError>)
    requires
        forall|i: int| 0 <= i < results@.len() && (#[trigger] results@[i]) is Ok ==> results@[i]->Ok_0.wf(),
    ensures
        all_ok_before(results@, results@.len() as int) ==> r is Ok && r->Ok_0.wf()
            && r->Ok_0@ == concat_rows(views_of(ok_tables(results@))),
        !all_ok_before(results@, results@.len() as int) ==> exists|k: int|
            0 <= k < results@.len() && all_ok_before(results@, k) && results@[k] is Err && r == #[trigger] results@[k],
{
    let ghost all = results@;
    let mut tables: Vec<TokenTable> = Vec::new();
    let ghost mut i: int = 0;
    while results.len() > 0
        invariant
            0 <= i <= all.len(),
            results@ == all.subrange(i, all.len() as int),
            all_ok_before(all, i),
            tables@ == ok_tables(all.subrange(0, i)),
            forall|j: int| 0 <= j < all.len() && (#[trigger] all[j]) is Ok ==> all[j]->Ok_0.wf(),
        decreases results@.len(),
    {
        let next = results.remove(0);
        assert(next == all[i]);
        match next {
            Ok(t) => {
                tables.push(t);
                proof {
                    i = i + 1;
                }
                assert(tables@ =~= ok_tables(all.subrange(0, i)));
                assert(results@ =~= all.subrange(i, all.len() as int));
            },
            Err(e) => {
                assert(!all_ok_before(all, all.len() as int));
                assert(all_ok_before(all, i) && all[i] == Err::<TokenTable, TokenizeError>(e));
                return Err(e);
            },
        }
    }
    assert(all.subrange(0, i) =~= all);
    Ok(merge(tables))
}

} // verus!
