//! The shortcut resolver: an identity → document-path index over a directory
//! of shortcut documents, queried with exact-then-fuzzy semantics.
//!
//! The index is built from one [`DocumentRecord`] per scanned file: the
//! file's stem, its path, and the identity metadata parsed out of it, if the
//! document parsed at all. A document that failed to parse still contributes
//! its filename-derived key — malformed documents degrade gracefully. Keys
//! are normalized (trimmed, lowercased) and later records overwrite earlier
//! ones on collision.
//!
//! A query first looks for an exact key match; failing that, it returns the
//! path of the lexicographically least key that contains the query or is
//! contained in it — the sorted-first rule, deterministic and reproducible
//! whatever the insertion order, even when a shorter unrelated key wins.

use vstd::prelude::*;

use crate::text::contains_seq;
use crate::text::lemma_seq_le_trans;
use crate::text::lemma_seq_lt_total;
use crate::text::chars_contains;
use crate::text::chars_eq;
use crate::text::chars_lt;
use crate::text::norm_of;
use crate::text::normalize;
use crate::text::seq_le;
use crate::text::str_chars;

verus! {

/// Identity metadata declared inside a shortcut document: an optional
/// primary identity and zero or more aliases.
pub struct DocMeta {
    pub app_id: Option<String>,
    pub app_ids: Vec<String>,
}

/// The mathematical view of [`DocMeta`].
pub ghost struct DocMetaView {
    pub app_id: Option<Seq<char>>,
    pub app_ids: Seq<Seq<char>>,
}

impl DeepView for DocMeta {
    type V = DocMetaView;

    open spec fn deep_view(&self) -> DocMetaView {
        DocMetaView { app_id: self.app_id.deep_view(), app_ids: self.app_ids.deep_view() }
    }
}

/// One scanned document file: its filename stem, its path, and the identity
/// metadata parsed from its contents — absent when the document failed to
/// parse.
pub struct DocumentRecord {
    pub stem: String,
    pub path: String,
    pub meta: Option<DocMeta>,
}

/// The mathematical view of [`DocumentRecord`].
pub ghost struct DocumentRecordView {
    pub stem: Seq<char>,
    pub path: Seq<char>,
    pub meta: Option<DocMetaView>,
}

impl DeepView for DocumentRecord {
    type V = DocumentRecordView;

    open spec fn deep_view(&self) -> DocumentRecordView {
        DocumentRecordView {
            stem: self.stem@,
            path: self.path@,
            meta: self.meta.deep_view(),
        }
    }
}

/// One index entry: a normalized identity key and the document path it maps
/// to.
pub struct IndexEntry {
    pub key: Vec<char>,
    pub path: String,
}

/// Whether some index entry carries this key.
pub open spec fn index_contains_key(s: Seq<IndexEntry>, k: Seq<char>) -> bool {
    exists|i: int| 0 <= i < s.len() && (#[trigger] s[i]).key@ == k
}

/// The position of the entry carrying this key.
pub open spec fn index_position(s: Seq<IndexEntry>, k: Seq<char>) -> int {
    choose|i: int| 0 <= i < s.len() && (#[trigger] s[i]).key@ == k
}

/// No two index entries carry the same key.
pub open spec fn index_unique(s: Seq<IndexEntry>) -> bool {
    forall|i: int, j: int|
        0 <= i < s.len() && 0 <= j < s.len() && (#[trigger] s[i]).key@ == (#[trigger] s[j]).key@
            ==> i == j
}

/// The index as a map from normalized key to document path.
pub open spec fn index_view(s: Seq<IndexEntry>) -> Map<Seq<char>, Seq<char>> {
    Map::new(|k: Seq<char>| index_contains_key(s, k), |k: Seq<char>| s[index_position(s, k)].path@)
}

proof fn lemma_index_push(s: Seq<IndexEntry>, e: IndexEntry)
    requires
        index_unique(s),
        !index_contains_key(s, e.key@),
    ensures
        index_unique(s.push(e)),
        index_view(s.push(e)) == index_view(s).insert(e.key@, e.path@),
{
    let s2 = s.push(e);
    assert forall|i: int, j: int|
        0 <= i < s2.len() && 0 <= j < s2.len() && (s2[i]).key@ == (s2[j]).key@ implies i == j by {
        if i < s.len() && j == s.len() {
            assert(s[i].key@ == e.key@);
        } else if i == s.len() && j < s.len() {
            assert(s[j].key@ == e.key@);
        }
    }
    assert(s2[s.len() as int].key@ == e.key@);
    assert forall|k: Seq<char>| #[trigger] index_contains_key(s2, k) && k != e.key@ implies
    index_contains_key(s, k) && s2[index_position(s2, k)].path@ == s[index_position(s, k)].path@ by {
        let i2 = index_position(s2, k);
        assert(0 <= i2 < s2.len() && s2[i2].key@ == k);
        assert(i2 < s.len());
        assert(s[i2].key@ == k);
        let i1 = index_position(s, k);
        assert(0 <= i1 < s.len() && s[i1].key@ == k);
        assert(i1 == i2);
    }
    assert forall|k: Seq<char>| index_contains_key(s, k) implies #[trigger] index_contains_key(
        s2,
        k,
    ) by {
        let i = choose|i: int| 0 <= i < s.len() && (#[trigger] s[i]).key@ == k;
        assert(s2[i].key@ == k);
    }
    assert(index_contains_key(s2, e.key@));
    let ie = index_position(s2, e.key@);
    assert(0 <= ie < s2.len() && s2[ie].key@ == e.key@);
    assert(ie == s.len() as int);
    assert(index_view(s2) =~= index_view(s).insert(e.key@, e.path@));
}

proof fn lemma_index_update(s: Seq<IndexEntry>, i: int, e: IndexEntry)
    requires
        index_unique(s),
        0 <= i < s.len(),
        s[i].key@ == e.key@,
    ensures
        index_unique(s.update(i, e)),
        index_view(s.update(i, e)) == index_view(s).insert(e.key@, e.path@),
{
    let s2 = s.update(i, e);
    assert forall|p: int, q: int|
        0 <= p < s2.len() && 0 <= q < s2.len() && (s2[p]).key@ == (s2[q]).key@ implies p == q by {
        assert(s2[p].key@ == s[p].key@ && s2[q].key@ == s[q].key@);
    }
    assert forall|k: Seq<char>| #[trigger] index_contains_key(s2, k) implies index_contains_key(
        s,
        k,
    ) by {
        let p = choose|p: int| 0 <= p < s2.len() && (#[trigger] s2[p]).key@ == k;
        assert(s[p].key@ == k);
    }
    assert forall|k: Seq<char>| index_contains_key(s, k) implies #[trigger] index_contains_key(
        s2,
        k,
    ) by {
        let p = choose|p: int| 0 <= p < s.len() && (#[trigger] s[p]).key@ == k;
        assert(s2[p].key@ == k);
    }
    assert forall|k: Seq<char>| #[trigger] index_contains_key(s2, k) && k != e.key@ implies s2[
        index_position(s2, k)
    ].path@ == s[index_position(s, k)].path@ by {
        let i2 = index_position(s2, k);
        assert(0 <= i2 < s2.len() && s2[i2].key@ == k);
        assert(i2 != i);
        assert(s[i2].key@ == k);
        let i1 = index_position(s, k);
        assert(0 <= i1 < s.len() && s[i1].key@ == k);
        assert(i1 == i2);
    }
    assert(index_contains_key(s2, e.key@));
    let ie = index_position(s2, e.key@);
    assert(0 <= ie < s2.len() && s2[ie].key@ == e.key@);
    assert(s[ie].key@ == e.key@);
    assert(ie == i);
    assert(index_view(s2) =~= index_view(s).insert(e.key@, e.path@));
}

/// The index entries one alias list contributes, in declaration order:
/// each normalized alias mapped to the document's path, later aliases
/// overwriting earlier ones.
pub open spec fn alias_inserts(
    m: Map<Seq<char>, Seq<char>>,
    aliases: Seq<Seq<char>>,
    path: Seq<char>,
) -> Map<Seq<char>, Seq<char>>
    decreases aliases.len(),
{
    if aliases.len() == 0 {
        m
    } else {
        alias_inserts(m, aliases.drop_last(), path).insert(norm_of(aliases.last()), path)
    }
}

/// The index entries one document contributes: its filename-derived key
/// first, then — when its metadata parsed — the primary identity and the
/// aliases, all normalized and mapped to the document's path.
pub open spec fn doc_index(
    m: Map<Seq<char>, Seq<char>>,
    d: DocumentRecordView,
) -> Map<Seq<char>, Seq<char>> {
    let m1 = m.insert(norm_of(d.stem), d.path);
    match d.meta {
        None => m1,
        Some(meta) => {
            let m2 = match meta.app_id {
                None => m1,
                Some(id) => m1.insert(norm_of(id), d.path),
            };
            alias_inserts(m2, meta.app_ids, d.path)
        },
    }
}

/// The whole index a directory scan builds: documents processed in scan
/// order, later entries overwriting earlier ones on key collision.
pub open spec fn index_of_docs(docs: Seq<DocumentRecordView>) -> Map<Seq<char>, Seq<char>>
    decreases docs.len(),
{
    if docs.len() == 0 {
        Map::empty()
    } else {
        doc_index(index_of_docs(docs.drop_last()), docs.last())
    }
}

/// A key and a query match fuzzily when either contains the other.
pub open spec fn fuzzy_matches(key: Seq<char>, q: Seq<char>) -> bool {
    contains_seq(key, q) || contains_seq(q, key)
}

/// Some key of the index matches the query fuzzily.
pub open spec fn some_fuzzy_match(m: Map<Seq<char>, Seq<char>>, q: Seq<char>) -> bool {
    exists|k: Seq<char>| #[trigger] m.dom().contains(k) && fuzzy_matches(k, q)
}

/// `k` is the fuzzy match the sorted-first rule picks: it matches, and no
/// matching key sorts before it.
pub open spec fn is_best_fuzzy_key(
    m: Map<Seq<char>, Seq<char>>,
    q: Seq<char>,
    k: Seq<char>,
) -> bool {
    &&& m.dom().contains(k)
    &&& fuzzy_matches(k, q)
    &&& forall|k2: Seq<char>|
        #[trigger] m.dom().contains(k2) && fuzzy_matches(k2, q) ==> seq_le(k, k2)
}

/// Law: the sorted-first rule is deterministic — at most one key of the
/// index can be the best fuzzy match, so the fuzzy clause of
/// [`ShortcutResolver::resolve`]'s contract pins the result down. With the
/// exact-match clause, resolution depends on the normalized query alone.
pub proof fn lemma_best_fuzzy_key_unique(
    m: Map<Seq<char>, Seq<char>>,
    q: Seq<char>,
    k1: Seq<char>,
    k2: Seq<char>,
)
    requires
        is_best_fuzzy_key(m, q, k1),
        is_best_fuzzy_key(m, q, k2),
    ensures
        k1 == k2,
{
    assert(seq_le(k1, k2));
    assert(seq_le(k2, k1));
    if k1 != k2 {
        crate::text::lemma_seq_lt_asym(k1, k2);
    }
}

/// The identity → document-path index, rebuilt from directory scans and
/// queried by [`ShortcutResolver::resolve`].
pub struct ShortcutResolver {
    index: Vec<IndexEntry>,
}

impl View for ShortcutResolver {
    type V = Map<Seq<char>, Seq<char>>;

    closed spec fn view(&self) -> Map<Seq<char>, Seq<char>> {
        index_view(self.index@)
    }
}

impl ShortcutResolver {
    /// Internal well-formedness: index keys are unique.
    pub closed spec fn wf(self) -> bool {
        index_unique(self.index@)
    }

    /// Builds a resolver over the given directory scan.
    pub fn new(docs: &Vec<DocumentRecord>) -> (r: ShortcutResolver)
        ensures
            r.wf(),
            r@ == index_of_docs(docs.deep_view()),
    {
        let mut r = ShortcutResolver { index: Vec::new() };
        r.rebuild_index(docs);
        r
    }

    fn find_key(&self, k: &Vec<char>) -> (r: Option<usize>)
        ensures
            match r {
                Some(i) => i < self.index@.len() && self.index@[i as int].key@ == k@,
                None => !index_contains_key(self.index@, k@),
            },
    {
        let n = self.index.len();
        let mut i: usize = 0;
        while i < n
            invariant
                n == self.index@.len(),
                i <= n,
                forall|p: int| 0 <= p < i ==> (#[trigger] self.index@[p]).key@ != k@,
            decreases n - i,
        {
            let e = &self.index[i];
            if chars_eq(&e.key, k) {
                return Some(i);
            }
            i = i + 1;
        }
        None
    }

    /// Maps `key` to `path`, overwriting any entry with the same key.
    fn insert_key(&mut self, key: Vec<char>, path: String)
        requires
            old(self).wf(),
        ensures
            final(self).wf(),
            final(self)@ == old(self)@.insert(key@, path@),
    {
        let pos = self.find_key(&key);
        let e = IndexEntry { key, path };
        match pos {
            Some(i) => {
                proof {
                    lemma_index_update(self.index@, i as int, e);
                }
                self.index[i] = e;
            },
            None => {
                proof {
                    lemma_index_push(self.index@, e);
                }
                self.index.push(e);
            },
        }
    }

    /// Adds one key per declared alias, all mapped to the same path.
    fn insert_aliases(&mut self, aliases: &Vec<String>, path: &String)
        requires
            old(self).wf(),
        ensures
            final(self).wf(),
            final(self)@ == alias_inserts(old(self)@, aliases.deep_view(), path@),
    {
        let n = aliases.len();
        let mut i: usize = 0;
        while i < n
            invariant
                n == aliases@.len(),
                i <= n,
                self.wf(),
                self@ == alias_inserts(old(self)@, aliases.deep_view().subrange(0, i as int), path@),
            decreases n - i,
        {
            let a = &aliases[i];
            let norm = normalize(a.as_str());
            let kc = str_chars(norm.as_str());
            self.insert_key(kc, path.clone());
            i = i + 1;
            proof {
                let av = aliases.deep_view();
                assert(av.subrange(0, i as int).drop_last() =~= av.subrange(0, i as int - 1));
                assert(av.subrange(0, i as int).last() == av[i as int - 1]);
                assert(av[i as int - 1] == aliases@[i as int - 1]@);
            }
        }
        proof {
            assert(aliases.deep_view().subrange(0, n as int) =~= aliases.deep_view());
        }
    }

    /// Clears the index and rebuilds it from one directory scan: every
    /// record contributes its filename-derived key; a record whose document
    /// parsed contributes its primary identity and aliases as well. Later
    /// records overwrite earlier ones on key collision.
    pub fn rebuild_index(&mut self, docs: &Vec<DocumentRecord>)
        requires
            old(self).wf(),
        ensures
            final(self).wf(),
            final(self)@ == index_of_docs(docs.deep_view()),
    {
        self.index.clear();
        proof {
            assert(index_view(self.index@) =~= Map::<Seq<char>, Seq<char>>::empty());
            assert(docs.deep_view().subrange(0, 0) =~= Seq::<DocumentRecordView>::empty());
        }
        let n = docs.len();
        let mut i: usize = 0;
        while i < n
            invariant
                n == docs@.len(),
                i <= n,
                self.wf(),
                self@ == index_of_docs(docs.deep_view().subrange(0, i as int)),
            decreases n - i,
        {
            let ghost before = self@;
            let d = &docs[i];
            let stem_norm = normalize(d.stem.as_str());
            let stem_chars = str_chars(stem_norm.as_str());
            self.insert_key(stem_chars, d.path.clone());
            match &d.meta {
                None => {},
                Some(m) => {
                    match &m.app_id {
                        None => {},
                        Some(id) => {
                            let id_norm = normalize(id.as_str());
                            let id_chars = str_chars(id_norm.as_str());
                            self.insert_key(id_chars, d.path.clone());
                        },
                    }
                    self.insert_aliases(&m.app_ids, &d.path);
                },
            }
            i = i + 1;
            proof {
                let dv = docs.deep_view();
                assert(dv.subrange(0, i as int).drop_last() =~= dv.subrange(0, i as int - 1));
                assert(dv.subrange(0, i as int).last() == dv[i as int - 1]);
                assert(dv[i as int - 1] == docs@[i as int - 1].deep_view());
                assert(self@ == doc_index(before, dv[i as int - 1]));
            }
        }
        proof {
            assert(docs.deep_view().subrange(0, n as int) =~= docs.deep_view());
        }
    }

    /// Resolves an application identity to a document path.
    ///
    /// The identity is normalized; an exact key match wins outright. Failing
    /// that, of all keys that contain the query or are contained in it, the
    /// lexicographically least is taken — the sorted-first rule. `None` when
    /// no key matches either way.
    pub fn resolve(&self, app_id: &str) -> (r: Option<String>)
        requires
            self.wf(),
        ensures
            self@.contains_key(norm_of(app_id@)) ==> (r matches Some(p) && p@ == self@[norm_of(
                app_id@,
            )]),
            !self@.contains_key(norm_of(app_id@)) && some_fuzzy_match(self@, norm_of(app_id@))
                ==> (r matches Some(p) && exists|k: Seq<char>|
                #[trigger] is_best_fuzzy_key(self@, norm_of(app_id@), k) && p@ == self@[k]),
            !self@.contains_key(norm_of(app_id@)) && !some_fuzzy_match(self@, norm_of(app_id@))
                ==> r is None,
    {
        let q = normalize(app_id);
        let qc = str_chars(q.as_str());
        if let Some(i) = self.find_key(&qc) {
            proof {
                assert(index_contains_key(self.index@, qc@));
                let p = index_position(self.index@, qc@);
                assert(0 <= p < self.index@.len() && self.index@[p].key@ == qc@);
                assert(p == i as int);
            }
            let e = &self.index[i];
            return Some(e.path.clone());
        }
        let n = self.index.len();
        let mut best: Option<usize> = None;
        let mut i: usize = 0;
        while i < n
            invariant
                n == self.index@.len(),
                i <= n,
                self.wf(),
                match best {
                    None => forall|j: int|
                        0 <= j < i ==> !fuzzy_matches((#[trigger] self.index@[j]).key@, qc@),
                    Some(b) => b < i && fuzzy_matches(self.index@[b as int].key@, qc@)
                        && forall|j: int|
                        0 <= j < i && fuzzy_matches((#[trigger] self.index@[j]).key@, qc@)
                            ==> seq_le(self.index@[b as int].key@, self.index@[j].key@),
                },
            decreases n - i,
        {
            let e = &self.index[i];
            let is_match = chars_contains(&e.key, &qc) || chars_contains(&qc, &e.key);
            if is_match {
                match best {
                    None => {
                        best = Some(i);
                    },
                    Some(b) => {
                        let eb = &self.index[b];
                        if chars_lt(&e.key, &eb.key) {
                            proof {
                                assert forall|j: int|
                                    0 <= j < i + 1 && fuzzy_matches(
                                        (#[trigger] self.index@[j]).key@,
                                        qc@,
                                    ) implies seq_le(
                                    self.index@[i as int].key@,
                                    self.index@[j].key@,
                                ) by {
                                    if j < i {
                                        lemma_seq_le_trans(
                                            self.index@[i as int].key@,
                                            self.index@[b as int].key@,
                                            self.index@[j].key@,
                                        );
                                    }
                                }
                            }
                            best = Some(i);
                        } else {
                            proof {
                                lemma_seq_lt_total(
                                    self.index@[i as int].key@,
                                    self.index@[b as int].key@,
                                );
                            }
                        }
                    },
                }
            }
            i = i + 1;
        }
        match best {
            None => {
                proof {
                    assert forall|k: Seq<char>| #[trigger] self@.dom().contains(k) implies
                    !fuzzy_matches(k, qc@) by {
                        let j = index_position(self.index@, k);
                        assert(0 <= j < self.index@.len() && self.index@[j].key@ == k);
                    }
                }
                None
            },
            Some(b) => {
                proof {
                    let bk = self.index@[b as int].key@;
                    assert(index_contains_key(self.index@, bk));
                    let p = index_position(self.index@, bk);
                    assert(0 <= p < self.index@.len() && self.index@[p].key@ == bk);
                    assert(p == b as int);
                    assert(self@.dom().contains(bk));
                    assert forall|k2: Seq<char>|
                        #[trigger] self@.dom().contains(k2) && fuzzy_matches(k2, qc@) implies seq_le(
                        bk,
                        k2,
                    ) by {
                        let j = index_position(self.index@, k2);
                        assert(0 <= j < self.index@.len() && self.index@[j].key@ == k2);
                    }
                    assert(is_best_fuzzy_key(self@, qc@, bk));
                    assert(self@[bk] == self.index@[b as int].path@);
                }
                let e = &self.index[b];
                Some(e.path.clone())
            },
        }
    }
}

} // verus!
