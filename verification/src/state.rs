use vstd::prelude::*;

verus! {

/// The mathematical content of one indexed document: its term-frequency map,
/// its total number of term occurrences, and the timestamp it was indexed at.
#[verifier::ext_equal]
pub ghost struct DocView {
    pub tf: Map<Seq<char>, nat>,
    pub count: nat,
    pub last_modified: u64,
}

/// The mathematical content of the whole index: the per-document records and
/// the corpus-wide document-frequency table.
#[verifier::ext_equal]
pub ghost struct ModelView {
    pub docs: Map<Seq<char>, DocView>,
    pub df: Map<Seq<char>, nat>,
}

impl ModelView {
    pub open spec fn empty() -> ModelView {
        ModelView { docs: Map::empty(), df: Map::empty() }
    }
}

/// The character sequences of a sequence of strings.
pub open spec fn views_of(ts: Seq<String>) -> Seq<Seq<char>> {
    ts.map_values(|t: String| t@)
}

/// How often term `t` occurs in the token sequence.
pub open spec fn occ(tokens: Seq<Seq<char>>, t: Seq<char>) -> nat
    decreases tokens.len(),
{
    if tokens.len() == 0 {
        0
    } else {
        occ(tokens.drop_last(), t) + (if tokens.last() == t {
            1nat
        } else {
            0nat
        })
    }
}

/// The term-frequency map of a token sequence: each term that occurs, mapped
/// to its number of occurrences.
pub open spec fn counts_of(tokens: Seq<Seq<char>>) -> Map<Seq<char>, nat> {
    Map::new(|t: Seq<char>| tokens.contains(t), |t: Seq<char>| occ(tokens, t))
}

/// The record that indexing a token sequence at a given timestamp produces.
pub open spec fn doc_view_of(tokens: Seq<Seq<char>>, last_modified: u64) -> DocView {
    DocView { tf: counts_of(tokens), count: tokens.len(), last_modified }
}

/// Whether the document stored under `id` contains term `t`.
pub open spec fn has_term_pred(docs: Map<Seq<char>, DocView>, t: Seq<char>) -> spec_fn(
    Seq<char>,
) -> bool {
    |id: Seq<char>| docs.contains_key(id) && docs[id].tf.contains_key(t)
}

/// The identifiers of the documents that contain term `t`.
pub open spec fn docs_with(docs: Map<Seq<char>, DocView>, t: Seq<char>) -> Set<Seq<char>> {
    docs.dom().filter(has_term_pred(docs, t))
}

/// The number of documents that contain term `t`: the document frequency.
pub open spec fn ndocs_with(docs: Map<Seq<char>, DocView>, t: Seq<char>) -> nat {
    docs_with(docs, t).len()
}

/// The document-frequency table after one document containing exactly the
/// terms `ts` has left the corpus: each such term loses one document, and a
/// term whose count would reach zero is deleted outright.
pub open spec fn df_minus(df: Map<Seq<char>, nat>, ts: Set<Seq<char>>) -> Map<Seq<char>, nat> {
    Map::new(
        |t: Seq<char>| df.contains_key(t) && !(ts.contains(t) && df[t] <= 1),
        |t: Seq<char>|
            if ts.contains(t) {
                (df[t] - 1) as nat
            } else {
                df[t]
            },
    )
}

/// The document-frequency table after one document containing exactly the
/// terms `ts` has entered the corpus: each such term gains one document.
pub open spec fn df_plus(df: Map<Seq<char>, nat>, ts: Set<Seq<char>>) -> Map<Seq<char>, nat> {
    Map::new(
        |t: Seq<char>| df.contains_key(t) || ts.contains(t),
        |t: Seq<char>|
            if ts.contains(t) {
                ((if df.contains_key(t) {
                    df[t]
                } else {
                    0nat
                }) + 1) as nat
            } else {
                df[t]
            },
    )
}

/// What removing a document does to the whole index state: a no-op for an
/// unknown identifier, otherwise the record leaves and the document-frequency
/// table loses one document for each of the record's terms.
pub open spec fn remove_transition(s: ModelView, id: Seq<char>) -> ModelView {
    if s.docs.contains_key(id) {
        ModelView { docs: s.docs.remove(id), df: df_minus(s.df, s.docs[id].tf.dom()) }
    } else {
        s
    }
}

/// What adding a document does to the whole index state: any prior record for
/// the identifier leaves first, then the freshly built record enters.
pub open spec fn add_transition(
    s: ModelView,
    id: Seq<char>,
    last_modified: u64,
    tokens: Seq<Seq<char>>,
) -> ModelView {
    let s1 = remove_transition(s, id);
    let d = doc_view_of(tokens, last_modified);
    ModelView { docs: s1.docs.insert(id, d), df: df_plus(s1.df, d.tf.dom()) }
}

/// The central invariant: the document-frequency table has a term exactly when
/// some current document contains it, and then its count is exactly the number
/// of current documents that contain it.
pub open spec fn df_consistent(s: ModelView) -> bool {
    &&& s.docs.dom().finite()
    &&& forall|t: Seq<char>|
        #![trigger s.df.contains_key(t)]
        s.df.contains_key(t) ==> ndocs_with(s.docs, t) > 0 && s.df[t] == ndocs_with(s.docs, t)
    &&& forall|t: Seq<char>|
        #![trigger ndocs_with(s.docs, t)]
        ndocs_with(s.docs, t) > 0 ==> s.df.contains_key(t)
}

/// The set of documents containing a term is finite and no larger than the
/// corpus.
pub proof fn lemma_ndocs_le(docs: Map<Seq<char>, DocView>, t: Seq<char>)
    requires
        docs.dom().finite(),
    ensures
        docs_with(docs, t).finite(),
        ndocs_with(docs, t) <= docs.dom().len(),
{
    docs.dom().lemma_len_filter(has_term_pred(docs, t));
}

pub(crate) proof fn lemma_occ_nonmember(tokens: Seq<Seq<char>>, t: Seq<char>)
    requires
        !tokens.contains(t),
    ensures
        occ(tokens, t) == 0,
    decreases tokens.len(),
{
    if tokens.len() > 0 {
        assert(!tokens.drop_last().contains(t)) by {
            if tokens.drop_last().contains(t) {
                let i = choose|i: int|
                    0 <= i < tokens.drop_last().len() && tokens.drop_last()[i] == t;
                assert(tokens[i] == t);
            }
        }
        lemma_occ_nonmember(tokens.drop_last(), t);
        assert(tokens.last() != t) by {
            assert(tokens[tokens.len() - 1] == tokens.last());
        }
    }
}

/// Counting the tokens of `ts.push(t)` counts the tokens of `ts` and then one
/// more occurrence of `t`.
pub(crate) proof fn lemma_counts_push(ts: Seq<Seq<char>>, t: Seq<char>)
    ensures
        counts_of(ts.push(t)) == counts_of(ts).insert(t, occ(ts, t) + 1),
{
    let ex = ts.push(t);
    assert(ex.drop_last() =~= ts);
    assert(ex.last() == t);
    assert forall|x: Seq<char>| #![trigger occ(ex, x)] occ(ex, x) == occ(ts, x) + (if x == t {
        1nat
    } else {
        0nat
    }) by {}
    assert forall|x: Seq<char>| #![trigger ex.contains(x)]
        ex.contains(x) == (ts.contains(x) || x == t) by {
        if ex.contains(x) {
            let i = choose|i: int| 0 <= i < ex.len() && ex[i] == x;
            if i < ts.len() {
                assert(ts[i] == x);
            }
        }
        if ts.contains(x) {
            let i = choose|i: int| 0 <= i < ts.len() && ts[i] == x;
            assert(ex[i] == x);
        }
        if x == t {
            assert(ex[ts.len() as int] == x);
        }
    }
    assert(counts_of(ex) =~= counts_of(ts).insert(t, occ(ts, t) + 1)) by {
        assert forall|x: Seq<char>|
            counts_of(ex).contains_key(x) == counts_of(ts).insert(
                t,
                occ(ts, t) + 1,
            ).contains_key(x) by {
            assert(ex.contains(x) == (ts.contains(x) || x == t));
        }
        assert forall|x: Seq<char>| counts_of(ex).contains_key(x) implies counts_of(ex)[x]
            == counts_of(ts).insert(t, occ(ts, t) + 1)[x] by {
            assert(occ(ex, x) == occ(ts, x) + (if x == t {
                1nat
            } else {
                0nat
            }));
            if x != t {
                assert(ts.contains(x));
            }
        }
    }
}

/// Raising the document frequency of one more term `k` extends `df_plus` to
/// the key set with `k` inserted.
pub(crate) proof fn lemma_df_plus_step(df: Map<Seq<char>, nat>, ts: Set<Seq<char>>, k: Seq<char>)
    requires
        !ts.contains(k),
    ensures
        df_plus(df, ts).contains_key(k) ==> df_plus(df, ts.insert(k)) == df_plus(df, ts).insert(
            k,
            (df_plus(df, ts)[k] + 1) as nat,
        ),
        !df_plus(df, ts).contains_key(k) ==> df_plus(df, ts.insert(k)) == df_plus(df, ts).insert(
            k,
            1nat,
        ),
{
    let x = df_plus(df, ts);
    let z = df_plus(df, ts.insert(k));
    if x.contains_key(k) {
        assert(z =~= x.insert(k, (x[k] + 1) as nat));
    } else {
        assert(z =~= x.insert(k, 1nat));
    }
}

/// Lowering the document frequency of one more term `k` extends `df_minus` to
/// the key set with `k` inserted.
pub(crate) proof fn lemma_df_minus_step(df: Map<Seq<char>, nat>, ts: Set<Seq<char>>, k: Seq<char>)
    requires
        !ts.contains(k),
    ensures
        df_minus(df, ts).contains_key(k) && df_minus(df, ts)[k] <= 1 ==> df_minus(df, ts.insert(k))
            == df_minus(df, ts).remove(k),
        df_minus(df, ts).contains_key(k) && df_minus(df, ts)[k] > 1 ==> df_minus(df, ts.insert(k))
            == df_minus(df, ts).insert(k, (df_minus(df, ts)[k] - 1) as nat),
        !df_minus(df, ts).contains_key(k) ==> df_minus(df, ts.insert(k)) == df_minus(df, ts),
{
    let x = df_minus(df, ts);
    let z = df_minus(df, ts.insert(k));
    if x.contains_key(k) {
        if x[k] <= 1 {
            assert(z =~= x.remove(k));
        } else {
            assert(z =~= x.insert(k, (x[k] - 1) as nat));
        }
    } else {
        assert(z =~= x);
    }
}

/// Walking one key further through a key sequence inserts that key into the
/// set of keys walked so far.
pub(crate) proof fn lemma_prefix_to_set_step(ks: Seq<Seq<char>>, j: int)
    requires
        0 <= j < ks.len(),
    ensures
        ks.subrange(0, j + 1).to_set() == ks.subrange(0, j).to_set().insert(ks[j]),
{
    assert forall|x: Seq<char>|
        ks.subrange(0, j + 1).to_set().contains(x) == ks.subrange(0, j).to_set().insert(
            ks[j],
        ).contains(x) by {
        if ks.subrange(0, j + 1).contains(x) {
            let i = choose|i: int| 0 <= i < j + 1 && #[trigger] ks.subrange(0, j + 1)[i] == x;
            if i < j {
                assert(ks.subrange(0, j)[i] == x);
                assert(ks.subrange(0, j).contains(x));
            } else {
                assert(x == ks[j]);
            }
        }
        if ks.subrange(0, j).contains(x) {
            let i = choose|i: int| 0 <= i < j && #[trigger] ks.subrange(0, j)[i] == x;
            assert(ks.subrange(0, j + 1)[i] == x);
            assert(ks.subrange(0, j + 1).contains(x));
        }
        if x == ks[j] {
            assert(ks.subrange(0, j + 1)[j] == x);
            assert(ks.subrange(0, j + 1).contains(x));
        }
    }
    assert(ks.subrange(0, j + 1).to_set() =~= ks.subrange(0, j).to_set().insert(ks[j]));
}

/// Removing a document keeps the document-frequency table consistent.  This is
/// the inductive step of the corpus invariant for `remove_document`.
pub proof fn lemma_remove_keeps_df_consistent(s: ModelView, id: Seq<char>)
    requires
        df_consistent(s),
    ensures
        df_consistent(remove_transition(s, id)),
{
    if s.docs.contains_key(id) {
        let d0 = s.docs[id];
        let docs2 = s.docs.remove(id);
        let s2 = remove_transition(s, id);
        assert(s2.docs == docs2);
        assert(docs2.dom() == s.docs.dom().remove(id));
        assert forall|t: Seq<char>|
            #![trigger ndocs_with(docs2, t)]
            (if d0.tf.contains_key(t) {
                ndocs_with(docs2, t) + 1 == ndocs_with(s.docs, t)
            } else {
                ndocs_with(docs2, t) == ndocs_with(s.docs, t)
            }) by {
            lemma_ndocs_le(s.docs, t);
            lemma_ndocs_le(docs2, t);
            if d0.tf.contains_key(t) {
                assert(docs_with(s.docs, t).contains(id));
                assert(docs_with(docs2, t) =~= docs_with(s.docs, t).remove(id));
            } else {
                assert(docs_with(docs2, t) =~= docs_with(s.docs, t));
            }
        }
        assert forall|t: Seq<char>|
            #![trigger s2.df.contains_key(t)]
            s2.df.contains_key(t) implies ndocs_with(s2.docs, t) > 0 && s2.df[t] == ndocs_with(
            s2.docs,
            t,
        ) by {
            assert(s.df.contains_key(t));
            assert(s.df[t] == ndocs_with(s.docs, t));
        }
        assert forall|t: Seq<char>|
            #![trigger ndocs_with(s2.docs, t)]
            ndocs_with(s2.docs, t) > 0 implies s2.df.contains_key(t) by {
            assert(ndocs_with(s.docs, t) > 0);
            assert(s.df.contains_key(t));
        }
    }
}

/// Inserting a record under a fresh identifier keeps the document-frequency
/// table consistent.  This is the inductive step of the corpus invariant for
/// the insertion half of `add_document`.
pub proof fn lemma_insert_keeps_df_consistent(s: ModelView, id: Seq<char>, d: DocView)
    requires
        df_consistent(s),
        !s.docs.contains_key(id),
    ensures
        df_consistent(ModelView { docs: s.docs.insert(id, d), df: df_plus(s.df, d.tf.dom()) }),
{
    let docs2 = s.docs.insert(id, d);
    let s2 = ModelView { docs: docs2, df: df_plus(s.df, d.tf.dom()) };
    assert(docs2.dom() == s.docs.dom().insert(id));
    assert forall|t: Seq<char>|
        #![trigger ndocs_with(docs2, t)]
        (if d.tf.contains_key(t) {
            ndocs_with(docs2, t) == ndocs_with(s.docs, t) + 1
        } else {
            ndocs_with(docs2, t) == ndocs_with(s.docs, t)
        }) by {
        lemma_ndocs_le(s.docs, t);
        lemma_ndocs_le(docs2, t);
        assert(!docs_with(s.docs, t).contains(id));
        if d.tf.contains_key(t) {
            assert(docs_with(docs2, t) =~= docs_with(s.docs, t).insert(id));
        } else {
            assert(docs_with(docs2, t) =~= docs_with(s.docs, t));
        }
    }
    assert forall|t: Seq<char>|
        #![trigger s2.df.contains_key(t)]
        s2.df.contains_key(t) implies ndocs_with(s2.docs, t) > 0 && s2.df[t] == ndocs_with(
        s2.docs,
        t,
    ) by {
        if s.df.contains_key(t) {
            assert(s.df[t] == ndocs_with(s.docs, t));
        } else {
            assert(ndocs_with(s.docs, t) == 0) by {
                if ndocs_with(s.docs, t) > 0 {
                    assert(s.df.contains_key(t));
                }
            }
        }
    }
    assert forall|t: Seq<char>|
        #![trigger ndocs_with(s2.docs, t)]
        ndocs_with(s2.docs, t) > 0 implies s2.df.contains_key(t) by {
        if !d.tf.contains_key(t) {
            assert(ndocs_with(s.docs, t) > 0);
            assert(s.df.contains_key(t));
        }
    }
}

/// Adding a document keeps the document-frequency table consistent: together
/// with `lemma_remove_keeps_df_consistent` and the empty starting state, the
/// invariant holds after any sequence of additions and removals.
pub proof fn lemma_add_keeps_df_consistent(
    s: ModelView,
    id: Seq<char>,
    last_modified: u64,
    tokens: Seq<Seq<char>>,
)
    requires
        df_consistent(s),
    ensures
        df_consistent(add_transition(s, id, last_modified, tokens)),
{
    lemma_remove_keeps_df_consistent(s, id);
    let s1 = remove_transition(s, id);
    assert(!s1.docs.contains_key(id));
    lemma_insert_keeps_df_consistent(s1, id, doc_view_of(tokens, last_modified));
}

/// Raising the frequency of a set of terms and then lowering it again changes
/// nothing, provided no stored count was zero to begin with.
proof fn lemma_df_round_trip(df: Map<Seq<char>, nat>, ts: Set<Seq<char>>)
    requires
        forall|t: Seq<char>| #[trigger] df.contains_key(t) ==> df[t] >= 1,
    ensures
        df_minus(df_plus(df, ts), ts) == df,
{
    let p = df_plus(df, ts);
    let m = df_minus(p, ts);
    assert forall|t: Seq<char>| m.contains_key(t) == df.contains_key(t) by {
        if ts.contains(t) && df.contains_key(t) {
            assert(p[t] == df[t] + 1);
        }
    }
    assert forall|t: Seq<char>| m.contains_key(t) implies m[t] == df[t] by {
        if ts.contains(t) {
            assert(p[t] == df[t] + 1);
        }
    }
    assert(m =~= df);
}

/// After an addition, removing and re-raising the same term set restores the
/// document-frequency table of the first addition, with no assumption on the
/// starting table.
proof fn lemma_df_plus_absorbs(df: Map<Seq<char>, nat>, ts: Set<Seq<char>>)
    ensures
        df_plus(df_minus(df_plus(df, ts), ts), ts) == df_plus(df, ts),
{
    let p = df_plus(df, ts);
    let y = df_minus(p, ts);
    let z = df_plus(y, ts);
    assert forall|t: Seq<char>| z.contains_key(t) == p.contains_key(t) by {}
    assert forall|t: Seq<char>| z.contains_key(t) implies z[t] == p[t] by {
        if ts.contains(t) {
            if df.contains_key(t) && df[t] >= 1 {
                assert(p[t] == df[t] + 1);
                assert(y.contains_key(t) && y[t] == df[t]);
            } else {
                if df.contains_key(t) {
                    assert(p[t] == df[t] + 1);
                } else {
                    assert(p[t] == 1);
                }
                assert(!y.contains_key(t));
            }
        }
    }
    assert(z =~= p);
}

/// Idempotence of indexing: adding the same document twice in a row, with the
/// same identifier, timestamp and tokens, leaves exactly the state that adding
/// it once leaves.
pub proof fn lemma_add_idempotent(
    s: ModelView,
    id: Seq<char>,
    last_modified: u64,
    tokens: Seq<Seq<char>>,
)
    ensures
        add_transition(add_transition(s, id, last_modified, tokens), id, last_modified, tokens)
            == add_transition(s, id, last_modified, tokens),
{
    let r = remove_transition(s, id);
    let d = doc_view_of(tokens, last_modified);
    let s1 = add_transition(s, id, last_modified, tokens);
    assert(!r.docs.contains_key(id));
    assert(s1.docs.contains_key(id) && s1.docs[id] == d);
    let s2 = remove_transition(s1, id);
    assert(s2.docs =~= r.docs);
    lemma_df_plus_absorbs(r.df, d.tf.dom());
    assert(s2.df == df_minus(df_plus(r.df, d.tf.dom()), d.tf.dom()));
    assert(add_transition(s1, id, last_modified, tokens).docs =~= s1.docs);
    assert(add_transition(s1, id, last_modified, tokens).df == s1.df);
    assert(add_transition(s1, id, last_modified, tokens) =~= s1);
}

/// Round trip: adding a document under a fresh identifier and then removing it
/// restores the whole index state, the document-frequency table included.
pub proof fn lemma_add_remove_round_trip(
    s: ModelView,
    id: Seq<char>,
    last_modified: u64,
    tokens: Seq<Seq<char>>,
)
    requires
        df_consistent(s),
        !s.docs.contains_key(id),
    ensures
        remove_transition(add_transition(s, id, last_modified, tokens), id) == s,
{
    let d = doc_view_of(tokens, last_modified);
    let s1 = add_transition(s, id, last_modified, tokens);
    assert(remove_transition(s, id) == s);
    assert(s1.docs.contains_key(id) && s1.docs[id] == d);
    assert forall|t: Seq<char>| #[trigger] s.df.contains_key(t) implies s.df[t] >= 1 by {
        assert(ndocs_with(s.docs, t) > 0);
    }
    lemma_df_round_trip(s.df, d.tf.dom());
    assert(remove_transition(s1, id).docs =~= s.docs);
    assert(remove_transition(s1, id) =~= s);
}

} // verus!
