use vstd::prelude::*;

use crate::state::DocView;
use crate::state::ModelView;
use crate::state::df_consistent;
use crate::state::lemma_remove_keeps_df_consistent;
use crate::state::remove_transition;
use crate::term_table::TermTable;
use crate::term_table::keys_distinct;

verus! {

/// One indexed document: its term-frequency table, the total number of term
/// occurrences in it, and the timestamp its content carried when indexed.
pub struct Doc {
    tf: TermTable,
    count: usize,
    last_modified: u64,
}

impl View for Doc {
    type V = DocView;

    closed spec fn view(&self) -> DocView {
        DocView { tf: self.tf@, count: self.count as nat, last_modified: self.last_modified }
    }
}

impl Doc {
    /// The term table loses no entry and its counts add up to the total:
    /// `count == sum(tf.values())`.
    pub closed spec fn wf(self) -> bool {
        &&& self.tf.wf()
        &&& self.tf.sum() == self.count
    }

    /// The total number of term occurrences in the document, duplicates
    /// included.
    pub fn total_terms(&self) -> (n: usize)
        ensures
            n as nat == self@.count,
    {
        self.count
    }

    /// The timestamp the document's content carried when it was indexed.
    pub fn last_modified(&self) -> (t: u64)
        ensures
            t == self@.last_modified,
    {
        self.last_modified
    }

    /// How often the given term occurs in the document; zero if absent.
    pub fn term_count(&self, term: &String) -> (n: usize)
        requires
            self.wf(),
        ensures
            n as nat == (if self@.tf.contains_key(term@) {
                self@.tf[term@]
            } else {
                0nat
            }),
    {
        match self.tf.get(term) {
            Some(v) => v,
            None => 0,
        }
    }

    /// A copy of the document's term-frequency table as (term, count) pairs.
    pub fn term_counts(&self) -> (r: Vec<(String, usize)>)
        requires
            self.wf(),
        ensures
            r@.len() == self@.tf.dom().len(),
            forall|i: int|
                0 <= i < r@.len() ==> #[trigger] self@.tf.contains_key(r@[i].0@) && r@[i].1 as nat
                    == self@.tf[r@[i].0@],
            forall|i: int, j: int| 0 <= i < j < r@.len() ==> r@[i].0@ != r@[j].0@,
    {
        self.tf.items()
    }
}

/// The map denoted by the document storage: identifier to record content.
pub open spec fn dmap(s: Seq<(String, Doc)>) -> Map<Seq<char>, DocView>
    decreases s.len(),
{
    if s.len() == 0 {
        Map::empty()
    } else {
        dmap(s.drop_last()).insert(s.last().0@, s.last().1@)
    }
}

proof fn lemma_dmap_contains(s: Seq<(String, Doc)>, k: Seq<char>)
    ensures
        dmap(s).contains_key(k) <==> (exists|i: int| 0 <= i < s.len() && s[i].0@ == k),
    decreases s.len(),
{
    if s.len() > 0 {
        lemma_dmap_contains(s.drop_last(), k);
        if s.last().0@ == k {
            assert(s[s.len() - 1].0@ == k);
        } else {
            if exists|i: int| 0 <= i < s.drop_last().len() && s.drop_last()[i].0@ == k {
                let i = choose|i: int| 0 <= i < s.drop_last().len() && s.drop_last()[i].0@ == k;
                assert(s[i].0@ == k);
            }
            if exists|i: int| 0 <= i < s.len() && s[i].0@ == k {
                let i = choose|i: int| 0 <= i < s.len() && s[i].0@ == k;
                assert(i < s.len() - 1);
                assert(s.drop_last()[i].0@ == k);
            }
        }
    }
}

proof fn lemma_dmap_at(s: Seq<(String, Doc)>, i: int)
    requires
        keys_distinct(s),
        0 <= i < s.len(),
    ensures
        dmap(s).contains_key(s[i].0@),
        dmap(s)[s[i].0@] == s[i].1@,
    decreases s.len(),
{
    if i < s.len() - 1 {
        assert(keys_distinct(s.drop_last()));
        lemma_dmap_at(s.drop_last(), i);
        assert(s.drop_last()[i] == s[i]);
        assert(s[i].0@ != s.last().0@);
    }
}

proof fn lemma_dmap_push(s: Seq<(String, Doc)>, p: (String, Doc))
    ensures
        dmap(s.push(p)) == dmap(s).insert(p.0@, p.1@),
{
    assert(s.push(p).drop_last() =~= s);
    assert(s.push(p).last() == p);
}

proof fn lemma_dmap_remove(s: Seq<(String, Doc)>, i: int)
    requires
        keys_distinct(s),
        0 <= i < s.len(),
    ensures
        dmap(s.remove(i)) == dmap(s).remove(s[i].0@),
        keys_distinct(s.remove(i)),
    decreases s.len(),
{
    assert forall|a: int, b: int| 0 <= a < b < s.remove(i).len() implies s.remove(i)[a].0@
        != s.remove(i)[b].0@ by {
        let a0: int = if a < i {
            a
        } else {
            a + 1
        };
        let b0: int = if b < i {
            b
        } else {
            b + 1
        };
        assert(s.remove(i)[a] == s[a0]);
        assert(s.remove(i)[b] == s[b0]);
    }
    if i == s.len() - 1 {
        assert(s.remove(i) =~= s.drop_last());
        lemma_dmap_contains(s.drop_last(), s[i].0@);
        assert(!dmap(s.drop_last()).contains_key(s[i].0@));
        assert(dmap(s.drop_last()).remove(s[i].0@) =~= dmap(s.drop_last()));
        assert(dmap(s).remove(s[i].0@) =~= dmap(s.drop_last()));
    } else {
        assert(keys_distinct(s.drop_last()));
        lemma_dmap_remove(s.drop_last(), i);
        assert(s.remove(i).drop_last() =~= s.drop_last().remove(i));
        assert(s.remove(i).last() == s.last());
        assert(s.remove(i).len() > 0);
        assert(s[i].0@ != s.last().0@);
        assert(dmap(s.drop_last()).remove(s[i].0@).insert(s.last().0@, s.last().1@) =~= dmap(
            s.drop_last(),
        ).insert(s.last().0@, s.last().1@).remove(s[i].0@));
    }
}

proof fn lemma_dmap_dom(s: Seq<(String, Doc)>)
    requires
        keys_distinct(s),
    ensures
        dmap(s).dom().finite(),
        dmap(s).dom().len() == s.len(),
    decreases s.len(),
{
    if s.len() > 0 {
        assert(keys_distinct(s.drop_last()));
        lemma_dmap_dom(s.drop_last());
        lemma_dmap_contains(s.drop_last(), s.last().0@);
        assert(!dmap(s.drop_last()).contains_key(s.last().0@));
        assert(dmap(s).dom() == dmap(s.drop_last()).dom().insert(s.last().0@));
    }
}

/// The exact inputs from which one query term's contribution to one
/// document's TF-IDF score is computed: the term frequency as a fraction
/// `tf_num / tf_den` (an empty document contributes `0 / 1`, never a division
/// by zero), and the document frequency `df` with the smoothing fallback of
/// one for terms no current document contains.
#[derive(Clone, Copy, Debug, PartialEq, Eq, Structural)]
pub struct ScoreInput {
    pub tf_num: usize,
    pub tf_den: usize,
    pub df: usize,
}

/// What the score inputs of term `t` must be for a document with content `d`
/// in index state `s`.
pub open spec fn score_input_matches(w: ScoreInput, s: ModelView, d: DocView, t: Seq<char>) -> bool {
    &&& w.tf_num as nat == (if d.count == 0 {
        0nat
    } else if d.tf.contains_key(t) {
        d.tf[t]
    } else {
        0nat
    })
    &&& w.tf_den as nat == (if d.count == 0 {
        1nat
    } else {
        d.count
    })
    &&& w.df as nat == (if s.df.contains_key(t) {
        s.df[t]
    } else {
        1nat
    })
}

/// The incremental TF-IDF index: the document records and the corpus-wide
/// document-frequency table, kept consistent with each other.
pub struct Model {
    docs: Vec<(String, Doc)>,
    df: TermTable,
}

impl View for Model {
    type V = ModelView;

    closed spec fn view(&self) -> ModelView {
        ModelView { docs: dmap(self.docs@), df: self.df@ }
    }
}

fn find_doc(docs: &Vec<(String, Doc)>, k: &String) -> (r: Option<usize>)
    ensures
        match r {
            Some(i) => i < docs@.len() && docs@[i as int].0@ == k@,
            None => forall|j: int| 0 <= j < docs@.len() ==> docs@[j].0@ != k@,
        },
{
    let n = docs.len();
    let mut i: usize = 0;
    while i < n
        invariant
            i <= n,
            n == docs@.len(),
            forall|j: int| 0 <= j < i ==> docs@[j].0@ != k@,
        decreases n - i,
    {
        if docs[i].0 == *k {
            return Some(i);
        }
        i += 1;
    }
    None
}

impl Model {
    /// Representation invariant: identifiers are pairwise distinct, every
    /// stored record is well formed, and so is the document-frequency table.
    pub closed spec fn wf(self) -> bool {
        &&& keys_distinct(self.docs@)
        &&& self.df.wf()
        &&& forall|i: int| 0 <= i < self.docs@.len() ==> #[trigger] self.docs@[i].1.wf()
    }

    /// The index invariant: a well-formed representation whose
    /// document-frequency table agrees with the documents.
    pub open spec fn inv(self) -> bool {
        &&& self.wf()
        &&& df_consistent(self@)
    }

    /// A fresh, empty index.
    pub fn new() -> (m: Model)
        ensures
            m.inv(),
            m@ == ModelView::empty(),
    {
        let m = Model { docs: Vec::new(), df: TermTable::new() };
        proof {
            assert(m@ =~~= ModelView::empty());
            assert forall|t: Seq<char>| #![trigger crate::state::ndocs_with(m@.docs, t)]
                crate::state::ndocs_with(m@.docs, t) == 0 by {
                assert(crate::state::docs_with(m@.docs, t) =~= Set::<Seq<char>>::empty());
            }
        }
        m
    }

    /// The number of currently indexed documents.
    pub fn doc_count(&self) -> (n: usize)
        requires
            self.inv(),
        ensures
            n as nat == self@.docs.dom().len(),
    {
        proof {
            lemma_dmap_dom(self.docs@);
        }
        self.docs.len()
    }

    /// Whether a record is currently stored under the given identifier.
    pub fn contains_document(&self, file_path: &String) -> (r: bool)
        requires
            self.inv(),
        ensures
            r == self@.docs.contains_key(file_path@),
    {
        proof {
            lemma_dmap_contains(self.docs@, file_path@);
        }
        match find_doc(&self.docs, file_path) {
            Some(_) => true,
            None => false,
        }
    }

    /// The stored record for the given identifier, if any.
    pub fn get_doc(&self, file_path: &String) -> (r: Option<&Doc>)
        requires
            self.inv(),
        ensures
            match r {
                Some(d) => self@.docs.contains_key(file_path@) && d@ == self@.docs[file_path@]
                    && d.wf(),
                None => !self@.docs.contains_key(file_path@),
            },
    {
        proof {
            lemma_dmap_contains(self.docs@, file_path@);
        }
        match find_doc(&self.docs, file_path) {
            Some(i) => {
                proof {
                    lemma_dmap_at(self.docs@, i as int);
                }
                Some(&self.docs[i].1)
            },
            None => None,
        }
    }

    /// The document frequency stored for a term: in how many current
    /// documents the term occurs, or `None` if in none.
    pub fn doc_frequency(&self, term: &String) -> (r: Option<usize>)
        requires
            self.inv(),
        ensures
            match r {
                Some(v) => self@.df.contains_key(term@) && v as nat == self@.df[term@],
                None => !self@.df.contains_key(term@),
            },
    {
        self.df.get(term)
    }

    /// A copy of the whole document-frequency table as (term, count) pairs.
    pub fn doc_frequencies(&self) -> (r: Vec<(String, usize)>)
        requires
            self.inv(),
        ensures
            r@.len() == self@.df.dom().len(),
            forall|i: int|
                0 <= i < r@.len() ==> #[trigger] self@.df.contains_key(r@[i].0@) && r@[i].1 as nat
                    == self@.df[r@[i].0@],
            forall|i: int, j: int| 0 <= i < j < r@.len() ==> r@[i].0@ != r@[j].0@,
    {
        self.df.items()
    }

    /// Whether a known document must be re-indexed: true exactly when a record
    /// is stored for the identifier and its stored timestamp is strictly older
    /// than the candidate one.  Unknown identifiers always answer `false`.
    pub fn requires_reindexing(&self, file_path: &String, last_modified: u64) -> (r: bool)
        requires
            self.inv(),
        ensures
            r == (self@.docs.contains_key(file_path@)
                && self@.docs[file_path@].last_modified < last_modified),
    {
        proof {
            lemma_dmap_contains(self.docs@, file_path@);
        }
        match find_doc(&self.docs, file_path) {
            Some(i) => {
                proof {
                    lemma_dmap_at(self.docs@, i as int);
                }
                self.docs[i].1.last_modified < last_modified
            },
            None => false,
        }
    }

    /// Removes the record stored under the identifier, if any, and takes its
    /// contribution out of the document-frequency table: every term of the
    /// record loses one document, and a term thereby losing its last document
    /// is deleted from the table.  A no-op for an unknown identifier.
    #[verifier::loop_isolation(false)]
    pub fn remove_document(&mut self, file_path: &String)
        requires
            old(self).inv(),
        ensures
            final(self).inv(),
            final(self)@ == remove_transition(old(self)@, file_path@),
    {
        let ghost s0 = self@;
        let ghost docs0 = self.docs@;
        proof {
            lemma_dmap_contains(docs0, file_path@);
            lemma_remove_keeps_df_consistent(s0, file_path@);
        }
        match find_doc(&self.docs, file_path) {
            None => {
                proof {
                    assert(!s0.docs.contains_key(file_path@));
                }
            },
            Some(i) => {
                proof {
                    lemma_dmap_at(docs0, i as int);
                    lemma_dmap_remove(docs0, i as int);
                }
                let (_key, doc) = self.docs.remove(i);
                let ghost docs1 = self.docs@;
                proof {
                    assert(docs1 =~= docs0.remove(i as int));
                    assert forall|a: int| 0 <= a < docs1.len() implies #[trigger] docs1[a].1.wf() by {
                        let a0: int = if a < i {
                            a
                        } else {
                            a + 1
                        };
                        assert(docs1[a] == docs0[a0]);
                    }
                    assert(doc.wf());
                    doc.tf.lemma_keys();
                }
                let ghost ks = doc.tf.keys();
                let ghost df0 = self.df@;
                let tflen = doc.tf.len();
                let mut j: usize = 0;
                while j < tflen
                    invariant
                        j <= tflen,
                        self.docs@ == docs1,
                        self.df.wf(),
                        self.df@ == crate::state::df_minus(
                            df0,
                            ks.subrange(0, j as int).to_set(),
                        ),
                    decreases tflen - j,
                {
                    let ghost pfx = ks.subrange(0, j as int);
                    proof {
                        assert(!pfx.contains(ks[j as int])) by {
                            if pfx.contains(ks[j as int]) {
                                let a = choose|a: int|
                                    0 <= a < pfx.len() && #[trigger] pfx[a] == ks[j as int];
                                assert(ks[a] == ks[j as int]);
                            }
                        }
                        crate::state::lemma_df_minus_step(df0, pfx.to_set(), ks[j as int]);
                        crate::state::lemma_prefix_to_set_step(ks, j as int);
                    }
                    let k = doc.tf.key_at(j);
                    self.df.decrement_or_remove(k);
                    j += 1;
                }
                proof {
                    assert(ks.subrange(0, tflen as int) =~= ks);
                    assert(self.df@ == crate::state::df_minus(df0, doc.tf@.dom()));
                    assert(self@ =~~= remove_transition(s0, file_path@));
                }
            },
        }
    }

    /// Adds (or re-adds) a document: any prior record under the identifier is
    /// removed first, a fresh record is built by counting the given tokens,
    /// and every distinct term of the record gains one document in the
    /// document-frequency table.  Re-indexing is therefore idempotent.
    #[verifier::loop_isolation(false)]
    pub fn add_document(&mut self, file_path: String, last_modified: u64, content: &Vec<String>)
        requires
            old(self).inv(),
            old(self)@.docs.dom().len() < usize::MAX,
        ensures
            final(self).inv(),
            final(self)@ == crate::state::add_transition(
                old(self)@,
                file_path@,
                last_modified,
                crate::state::views_of(content@),
            ),
    {
        let ghost s0 = self@;
        let ghost idv = file_path@;
        let ghost toks = crate::state::views_of(content@);
        self.remove_document(&file_path);
        let ghost s1 = self@;
        let ghost docs1 = self.docs@;
        proof {
            assert(!s1.docs.contains_key(idv));
            assert(s1.docs.dom().len() < usize::MAX);
            assert(s1.df == self.df@);
            assert forall|t: Seq<char>| #[trigger] s1.df.contains_key(t) implies s1.df[t]
                < usize::MAX by {
                crate::state::lemma_ndocs_le(s1.docs, t);
            }
        }
        let mut tf = TermTable::new();
        let n = content.len();
        let mut i: usize = 0;
        while i < n
            invariant
                i <= n,
                tf.wf(),
                tf.sum() == i as nat,
                tf@ == crate::state::counts_of(toks.subrange(0, i as int)),
            decreases n - i,
        {
            let ghost pre = toks.subrange(0, i as int);
            let t = &content[i];
            proof {
                assert(toks[i as int] == t@);
                if tf@.contains_key(t@) {
                    tf.lemma_value_le_sum(t@);
                }
                crate::state::lemma_counts_push(pre, t@);
                assert(toks.subrange(0, i as int + 1) =~= pre.push(toks[i as int]));
                if !pre.contains(t@) {
                    crate::state::lemma_occ_nonmember(pre, t@);
                }
            }
            tf.increment(t);
            proof {
                assert(tf@ == crate::state::counts_of(toks.subrange(0, i as int + 1)));
            }
            i += 1;
        }
        proof {
            assert(toks.subrange(0, n as int) =~= toks);
        }
        let doc = Doc { tf, count: n, last_modified };
        proof {
            assert(doc.wf());
            assert(doc@ == crate::state::doc_view_of(toks, last_modified));
            doc.tf.lemma_keys();
        }
        let ghost ks = doc.tf.keys();
        let ghost df1 = self.df@;
        let m = doc.tf.len();
        let mut j: usize = 0;
        while j < m
            invariant
                j <= m,
                self.docs@ == docs1,
                self.df.wf(),
                self.df@ == crate::state::df_plus(df1, ks.subrange(0, j as int).to_set()),
            decreases m - j,
        {
            let ghost pfx = ks.subrange(0, j as int);
            proof {
                assert(!pfx.contains(ks[j as int])) by {
                    if pfx.contains(ks[j as int]) {
                        let a = choose|a: int|
                            0 <= a < pfx.len() && #[trigger] pfx[a] == ks[j as int];
                        assert(ks[a] == ks[j as int]);
                    }
                }
                crate::state::lemma_prefix_to_set_step(ks, j as int);
                crate::state::lemma_df_plus_step(df1, pfx.to_set(), ks[j as int]);
            }
            let k = doc.tf.key_at(j);
            self.df.increment(k);
            j += 1;
        }
        proof {
            assert(ks.subrange(0, m as int) =~= ks);
            assert(self.df@ == crate::state::df_plus(df1, doc.tf@.dom()));
            lemma_dmap_contains(docs1, idv);
        }
        self.docs.push((file_path, doc));
        proof {
            assert(self.docs@ =~= docs1.push(self.docs@.last()));
            lemma_dmap_push(docs1, self.docs@.last());
            assert forall|a: int, b: int| 0 <= a < b < self.docs@.len() implies self.docs@[a].0@
                != self.docs@[b].0@ by {
                if b == self.docs@.len() - 1 {
                    assert(self.docs@[a] == docs1[a]);
                    assert(docs1[a].0@ != idv);
                }
            }
            assert forall|a: int| 0 <= a < self.docs@.len() implies #[trigger] self.docs@[a].1.wf()
                by {
                if a < self.docs@.len() - 1 {
                    assert(self.docs@[a] == docs1[a]);
                }
            }
            assert(self@ =~~= crate::state::add_transition(s0, idv, last_modified, toks));
            crate::state::lemma_add_keeps_df_consistent(s0, idv, last_modified, toks);
        }
    }

    /// For every currently indexed document, the exact inputs from which its
    /// score for the given query is computed: one entry per query token, in
    /// query order, holding the term-frequency fraction and the document
    /// frequency with its fallback of one for unseen terms.
    #[verifier::loop_isolation(false)]
    pub fn score_inputs(&self, query: &Vec<String>) -> (r: Vec<(String, Vec<ScoreInput>)>)
        requires
            self.inv(),
        ensures
            r@.len() == self@.docs.dom().len(),
            forall|i: int| 0 <= i < r@.len() ==> #[trigger] self@.docs.contains_key(r@[i].0@),
            forall|i: int, j: int| 0 <= i < j < r@.len() ==> r@[i].0@ != r@[j].0@,
            forall|i: int| 0 <= i < r@.len() ==> #[trigger] r@[i].1@.len() == query@.len(),
            forall|i: int, j: int|
                #![trigger r@[i].1@[j]]
                0 <= i < r@.len() && 0 <= j < query@.len() ==> score_input_matches(
                    r@[i].1@[j],
                    self@,
                    self@.docs[r@[i].0@],
                    query@[j]@,
                ),
    {
        proof {
            lemma_dmap_dom(self.docs@);
        }
        let n = self.docs.len();
        let q = query.len();
        let mut r: Vec<(String, Vec<ScoreInput>)> = Vec::new();
        let mut i: usize = 0;
        while i < n
            invariant
                i <= n,
                r@.len() == i,
                forall|a: int| 0 <= a < i ==> #[trigger] r@[a].0@ == self.docs@[a].0@,
                forall|a: int| 0 <= a < i ==> #[trigger] r@[a].1@.len() == query@.len(),
                forall|a: int, b: int|
                    #![trigger r@[a].1@[b]]
                    0 <= a < i && 0 <= b < query@.len() ==> score_input_matches(
                        r@[a].1@[b],
                        self@,
                        self@.docs[r@[a].0@],
                        query@[b]@,
                    ),
            decreases n - i,
        {
            proof {
                lemma_dmap_at(self.docs@, i as int);
            }
            let d = &self.docs[i].1;
            let dc = d.total_terms();
            let mut sv: Vec<ScoreInput> = Vec::new();
            let mut j: usize = 0;
            while j < q
                invariant
                    j <= q,
                    sv@.len() == j,
                    forall|b: int|
                        0 <= b < j ==> score_input_matches(
                            #[trigger] sv@[b],
                            self@,
                            d@,
                            query@[b]@,
                        ),
                decreases q - j,
            {
                let t = &query[j];
                let num: usize = if dc == 0 {
                    0
                } else {
                    d.term_count(t)
                };
                let den: usize = if dc == 0 {
                    1
                } else {
                    dc
                };
                let dfv: usize = match self.df.get(t) {
                    Some(v) => v,
                    None => 1,
                };
                sv.push(ScoreInput { tf_num: num, tf_den: den, df: dfv });
                j += 1;
            }
            r.push((self.docs[i].0.clone(), sv));
            i += 1;
        }
        proof {
            assert forall|a: int| 0 <= a < r@.len() implies #[trigger] self@.docs.contains_key(
                r@[a].0@,
            ) by {
                lemma_dmap_at(self.docs@, a);
            }
        }
        r
    }

    /// The identifiers of all currently indexed documents.
    #[verifier::loop_isolation(false)]
    pub fn doc_ids(&self) -> (r: Vec<String>)
        requires
            self.inv(),
        ensures
            r@.len() == self@.docs.dom().len(),
            forall|i: int| 0 <= i < r@.len() ==> #[trigger] self@.docs.contains_key(r@[i]@),
            forall|i: int, j: int| 0 <= i < j < r@.len() ==> r@[i]@ != r@[j]@,
    {
        proof {
            lemma_dmap_dom(self.docs@);
        }
        let n = self.docs.len();
        let mut r: Vec<String> = Vec::new();
        let mut i: usize = 0;
        while i < n
            invariant
                i <= n,
                r@.len() == i,
                forall|a: int| 0 <= a < i ==> #[trigger] r@[a]@ == self.docs@[a].0@,
            decreases n - i,
        {
            r.push(self.docs[i].0.clone());
            i += 1;
        }
        proof {
            assert forall|a: int| 0 <= a < r@.len() implies #[trigger] self@.docs.contains_key(
                r@[a]@,
            ) by {
                lemma_dmap_at(self.docs@, a);
            }
        }
        r
    }
}

impl Default for Model {
    /// The empty index.
    fn default() -> (m: Model)
        ensures
            m.inv(),
            m@ == ModelView::empty(),
    {
        Model::new()
    }
}

} // verus!
