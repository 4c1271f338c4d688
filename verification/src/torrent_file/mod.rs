//! The data of a `.torrent` metainfo file, with the mathematical models that
//! the parsers' contracts speak of.
use crate::primitives::{
    bytes_eq, bytes_lt, lemma_lex_irreflexive, lemma_lex_total,
    lemma_lex_transitive, lex_lt,
};
use vstd::prelude::*;

pub mod keys;
pub mod parser;
pub mod skip_values;

verus! {

// ---------------------------------------------------------------------------
// A map keyed by byte strings
// ---------------------------------------------------------------------------
/// A map from byte strings (borrowed from the input) to values, kept in the
/// lexicographic order of its keys, each key at most once.
///
/// This stands where a `BTreeMap<&[u8], V>` would: the same keys, values and
/// iteration order, with contracts over the map it holds. vstd specifies
/// `BTreeMap` only for keys whose ordering Verus can read, which byte slices
/// are not, so the map is kept here as a sorted `Vec`; lookups and
/// insertions take linear rather than logarithmic time.
#[derive(Debug, PartialEq)]
pub struct ByteMap<'a, V> {
    entries: Vec<(&'a [u8], V)>,
}

/// The keys of `es` stand in strictly increasing lexicographic order.
pub open spec fn keys_sorted<'a, V>(es: Seq<(&'a [u8], V)>) -> bool {
    forall|i: int, j: int| 0 <= i < j < es.len() ==> lex_lt(#[trigger] es[i].0@, #[trigger] es[j].0@)
}

/// The map that the entries `es` stand for, a later entry taking precedence
/// over an earlier one with the same key.
pub open spec fn entries_map<'a, V>(es: Seq<(&'a [u8], V)>) -> Map<Seq<u8>, V>
    decreases es.len(),
{
    if es.len() == 0 {
        Map::empty()
    } else {
        entries_map(es.drop_last()).insert(es.last().0@, es.last().1)
    }
}

/// The keys of `entries_map(es)` are those of the entries.
pub proof fn lemma_entries_map_dom<'a, V>(es: Seq<(&'a [u8], V)>, k: Seq<u8>)
    ensures
        entries_map(es).contains_key(k) <==> exists|j: int| 0 <= j < es.len() && #[trigger] es[j].0@ == k,
    decreases es.len(),
{
    if es.len() > 0 {
        lemma_entries_map_dom(es.drop_last(), k);
        if entries_map(es).contains_key(k) && k != es.last().0@ {
            let j = choose|j: int| 0 <= j < es.len() - 1 && #[trigger] es.drop_last()[j].0@ == k;
            assert(es[j].0@ == k);
        }
        if exists|j: int| 0 <= j < es.len() && #[trigger] es[j].0@ == k {
            let j = choose|j: int| 0 <= j < es.len() && #[trigger] es[j].0@ == k;
            if j < es.len() - 1 {
                assert(es.drop_last()[j].0@ == k);
            }
        }
    }
}

/// With sorted keys, the map holds each entry's value under its key.
pub proof fn lemma_entries_map_at<'a, V>(es: Seq<(&'a [u8], V)>, j: int)
    requires
        keys_sorted(es),
        0 <= j < es.len(),
    ensures
        entries_map(es).contains_key(es[j].0@),
        entries_map(es)[es[j].0@] == es[j].1,
    decreases es.len(),
{
    if j < es.len() - 1 {
        assert(lex_lt(es[j].0@, es[es.len() - 1].0@));
        lemma_lex_irreflexive(es[j].0@);
        assert(es.drop_last()[j] == es[j]);
        lemma_entries_map_at(es.drop_last(), j);
    }
}

/// Two sorted entry sequences that hold the same keys with the same values
/// stand for the same map.
proof fn lemma_entries_map_ext<'a, V>(es: Seq<(&'a [u8], V)>, m: Map<Seq<u8>, V>)
    requires
        keys_sorted(es),
        forall|k: Seq<u8>|
            m.contains_key(k) <==> exists|j: int| 0 <= j < es.len() && #[trigger] es[j].0@ == k,
        forall|j: int| 0 <= j < es.len() ==> m.contains_key(#[trigger] es[j].0@) && m[es[j].0@] == es[j].1,
    ensures
        entries_map(es) == m,
{
    assert forall|k: Seq<u8>| #[trigger] entries_map(es).contains_key(k) <==> m.contains_key(k) by {
        lemma_entries_map_dom(es, k);
    }
    assert forall|k: Seq<u8>| #[trigger] entries_map(es).contains_key(k) implies entries_map(es)[k] == m[k] by {
        lemma_entries_map_dom(es, k);
        let j = choose|j: int| 0 <= j < es.len() && #[trigger] es[j].0@ == k;
        lemma_entries_map_at(es, j);
    }
    assert(entries_map(es) =~= m);
}

impl<'a, V: Clone> Clone for ByteMap<'a, V> {
    /// A map with the same keys, each value cloned.
    fn clone(&self) -> (c: Self)
        ensures
            c@.dom() == self@.dom(),
            forall|k: Seq<u8>| #[trigger] c@.contains_key(k) ==> cloned::<V>(self@[k], c@[k]),
    {
        proof {
            use_type_invariant(self);
        }
        let mut es: Vec<(&'a [u8], V)> = Vec::new();
        let n = self.entries.len();
        let mut i: usize = 0;
        while i < n
            invariant
                n == self.entries@.len(),
                i <= n,
                es@.len() == i,
                keys_sorted(self.entries@),
                forall|j: int| 0 <= j < i ==> (#[trigger] es@[j]).0 == self.entries@[j].0,
                forall|j: int| 0 <= j < i ==> cloned::<V>(self.entries@[j].1, #[trigger] es@[j].1),
            decreases n - i,
        {
            let e = &self.entries[i];
            let v = e.1.clone();
            es.push((e.0, v));
            i = i + 1;
        }
        proof {
            assert forall|a: int, b: int| 0 <= a < b < es@.len() implies lex_lt(
                #[trigger] es@[a].0@,
                #[trigger] es@[b].0@,
            ) by {
                assert(lex_lt(self.entries@[a].0@, self.entries@[b].0@));
            }
            assert forall|k: Seq<u8>| #[trigger] entries_map(es@).contains_key(k) <==> entries_map(self.entries@).contains_key(k) by {
                lemma_entries_map_dom(es@, k);
                lemma_entries_map_dom(self.entries@, k);
                if exists|j: int| 0 <= j < es@.len() && #[trigger] es@[j].0@ == k {
                    let j = choose|j: int| 0 <= j < es@.len() && #[trigger] es@[j].0@ == k;
                    assert(self.entries@[j].0@ == k);
                }
                if exists|j: int| 0 <= j < self.entries@.len() && #[trigger] self.entries@[j].0@ == k {
                    let j = choose|j: int| 0 <= j < self.entries@.len() && #[trigger] self.entries@[j].0@ == k;
                    assert(es@[j].0@ == k);
                }
            }
            assert(entries_map(es@).dom() =~= entries_map(self.entries@).dom());
            assert forall|k: Seq<u8>| #[trigger] entries_map(es@).contains_key(k) implies cloned::<V>(
                entries_map(self.entries@)[k],
                entries_map(es@)[k],
            ) by {
                lemma_entries_map_dom(es@, k);
                let j = choose|j: int| 0 <= j < es@.len() && #[trigger] es@[j].0@ == k;
                lemma_entries_map_at(es@, j);
                lemma_entries_map_at(self.entries@, j);
            }
        }
        ByteMap { entries: es }
    }
}

impl<'a, V> View for ByteMap<'a, V> {
    type V = Map<Seq<u8>, V>;

    /// The map from key bytes to values.
    closed spec fn view(&self) -> Map<Seq<u8>, V> {
        entries_map(self.entries@)
    }
}

impl<'a, V> ByteMap<'a, V> {
    #[verifier::type_invariant]
    spec fn sorted(self) -> bool {
        keys_sorted(self.entries@)
    }

    /// The entries in increasing order of their keys.
    pub closed spec fn entries(self) -> Seq<(&'a [u8], V)> {
        self.entries@
    }

    /// An empty map.
    pub fn new() -> (m: Self)
        ensures
            m@ == Map::<Seq<u8>, V>::empty(),
            m.entries() == Seq::<(&'a [u8], V)>::empty(),
    {
        ByteMap { entries: Vec::new() }
    }

    /// The number of keys.
    pub fn len(&self) -> (n: usize)
        ensures
            n == self@.len(),
            n == self.entries().len(),
    {
        proof {
            use_type_invariant(self);
            self.lemma_len();
        }
        self.entries.len()
    }

    proof fn lemma_len(self)
        requires
            keys_sorted(self.entries@),
        ensures
            self@.len() == self.entries@.len(),
    {
        let es = self.entries@;
        let keys = es.map_values(|e: (&'a [u8], V)| e.0@);
        assert forall|i: int, j: int| 0 <= i < j < keys.len() implies keys[i] != keys[j] by {
            assert(lex_lt(es[i].0@, es[j].0@));
            lemma_lex_irreflexive(es[i].0@);
        }
        keys.unique_seq_to_set();
        assert forall|k: Seq<u8>| #[trigger] self@.dom().contains(k) <==> keys.to_set().contains(k) by {
            lemma_entries_map_dom(es, k);
            if keys.to_set().contains(k) {
                let j = choose|j: int| 0 <= j < keys.len() && keys[j] == k;
                assert(es[j].0@ == k);
            }
            if self@.dom().contains(k) {
                let j = choose|j: int| 0 <= j < es.len() && #[trigger] es[j].0@ == k;
                assert(keys[j] == k);
            }
        }
        assert(self@.dom() =~= keys.to_set());
    }

    /// The entries in increasing order of their keys.
    pub fn as_slice(&self) -> (s: &[(&'a [u8], V)])
        ensures
            s@ == self.entries(),
            keys_sorted(s@),
            entries_map(s@) == self@,
    {
        proof {
            use_type_invariant(self);
        }
        self.entries.as_slice()
    }

    /// The value stored under `key`, if any.
    pub fn get(&self, key: &[u8]) -> (r: Option<&V>)
        ensures
            match r {
                Some(v) => self@.contains_key(key@) && *v == self@[key@],
                None => !self@.contains_key(key@),
            },
    {
        proof {
            use_type_invariant(self);
        }
        let n = self.entries.len();
        let mut i: usize = 0;
        while i < n
            invariant
                n == self.entries@.len(),
                i <= n,
                keys_sorted(self.entries@),
                forall|j: int| 0 <= j < i ==> #[trigger] self.entries@[j].0@ != key@,
            decreases n - i,
        {
            if bytes_eq(self.entries[i].0, key) {
                proof {
                    lemma_entries_map_at(self.entries@, i as int);
                }
                return Some(&self.entries[i].1);
            }
            i = i + 1;
        }
        proof {
            lemma_entries_map_dom(self.entries@, key@);
        }
        None
    }

    /// Stores `value` under `key`, replacing the value that was there.
    pub fn insert(&mut self, key: &'a [u8], value: V)
        ensures
            final(self)@ == old(self)@.insert(key@, value),
    {
        proof {
            use_type_invariant(&*self);
        }
        let mut es: Vec<(&'a [u8], V)> = Vec::new();
        std::mem::swap(&mut es, &mut self.entries);
        let ghost old_es = es@;
        let n = es.len();
        let mut i: usize = 0;
        while i < n
            invariant
                n == es@.len(),
                i <= n,
                es@ == old_es,
                old_es == old(self).entries@,
                keys_sorted(old_es),
                forall|j: int| 0 <= j < i ==> lex_lt(#[trigger] old_es[j].0@, key@),
            decreases n - i,
        {
            let k = es[i].0;
            if bytes_eq(k, key) {
                proof {
                    lemma_replace(old_es, i as int, key, value);
                }
                es.set(i, (key, value));
                self.entries = es;
                return ;
            }
            if bytes_lt(key, k) {
                proof {
                    lemma_insert_at(old_es, i as int, key, value);
                }
                es.insert(i, (key, value));
                self.entries = es;
                return ;
            }
            proof {
                lemma_lex_total(k@, key@);
            }
            i = i + 1;
        }
        proof {
            let new_es = old_es.push((key, value));
            assert forall|a: int, b: int| 0 <= a < b < new_es.len() implies lex_lt(
                #[trigger] new_es[a].0@,
                #[trigger] new_es[b].0@,
            ) by {
                if b == new_es.len() - 1 {
                    assert(new_es[a] == old_es[a]);
                } else {
                    assert(new_es[a] == old_es[a]);
                    assert(new_es[b] == old_es[b]);
                }
            }
            assert(new_es.drop_last() =~= old_es);
        }
        es.push((key, value));
        self.entries = es;
    }
}

    /// Replacing the entry at `i`, whose key has the bytes of `key`, keeps the
    /// order and stores `value` under `key`.
proof fn lemma_replace<'a, V>(es: Seq<(&'a [u8], V)>, i: int, key: &'a [u8], value: V)
        requires
            keys_sorted(es),
            0 <= i < es.len(),
            es[i].0@ == key@,
        ensures
            keys_sorted(es.update(i, (key, value))),
            entries_map(es.update(i, (key, value))) == entries_map(es).insert(key@, value),
    {
        let new_es = es.update(i, (key, value));
        assert forall|a: int, b: int| 0 <= a < b < new_es.len() implies lex_lt(
            #[trigger] new_es[a].0@,
            #[trigger] new_es[b].0@,
        ) by {
            assert(lex_lt(es[a].0@, es[b].0@));
        }
        let m = entries_map(es).insert(key@, value);
        assert forall|k: Seq<u8>|
            m.contains_key(k) <==> exists|j: int| 0 <= j < new_es.len() && #[trigger] new_es[j].0@ == k by {
            lemma_entries_map_dom(es, k);
            if exists|j: int| 0 <= j < es.len() && #[trigger] es[j].0@ == k {
                let j = choose|j: int| 0 <= j < es.len() && #[trigger] es[j].0@ == k;
                assert(new_es[j].0@ == k);
            }
            if exists|j: int| 0 <= j < new_es.len() && #[trigger] new_es[j].0@ == k {
                let j = choose|j: int| 0 <= j < new_es.len() && #[trigger] new_es[j].0@ == k;
                assert(es[j].0@ == k);
            }
        }
        assert forall|j: int| 0 <= j < new_es.len() implies m.contains_key(#[trigger] new_es[j].0@)
            && m[new_es[j].0@] == new_es[j].1 by {
            if j != i {
                lemma_entries_map_at(es, j);
                assert(lex_lt(es[j].0@, es[i].0@) || lex_lt(es[i].0@, es[j].0@));
                if lex_lt(es[j].0@, es[i].0@) {
                    lemma_lex_irreflexive(es[j].0@);
                } else {
                    lemma_lex_irreflexive(es[i].0@);
                }
            }
        }
        lemma_entries_map_ext(new_es, m);
    }

    /// Inserting a new entry at `i`, between the keys before and after it,
    /// keeps the order and adds `value` under `key`.
proof fn lemma_insert_at<'a, V>(es: Seq<(&'a [u8], V)>, i: int, key: &'a [u8], value: V)
        requires
            keys_sorted(es),
            0 <= i < es.len(),
            forall|j: int| 0 <= j < i ==> lex_lt(#[trigger] es[j].0@, key@),
            lex_lt(key@, es[i].0@),
        ensures
            keys_sorted(es.insert(i, (key, value))),
            entries_map(es.insert(i, (key, value))) == entries_map(es).insert(key@, value),
    {
        let new_es = es.insert(i, (key, value));
        assert forall|a: int, b: int| 0 <= a < b < new_es.len() implies lex_lt(
            #[trigger] new_es[a].0@,
            #[trigger] new_es[b].0@,
        ) by {
            if a < i && b < i {
                assert(lex_lt(es[a].0@, es[b].0@));
            } else if a < i && b == i {
            } else if a < i {
                assert(lex_lt(es[a].0@, es[b - 1].0@));
            } else if a == i {
                if b - 1 > i {
                    assert(lex_lt(es[i].0@, es[b - 1].0@));
                    lemma_lex_transitive(key@, es[i].0@, es[b - 1].0@);
                }
            } else {
                assert(lex_lt(es[a - 1].0@, es[b - 1].0@));
            }
        }
        let m = entries_map(es).insert(key@, value);
        assert forall|k: Seq<u8>|
            m.contains_key(k) <==> exists|j: int| 0 <= j < new_es.len() && #[trigger] new_es[j].0@ == k by {
            lemma_entries_map_dom(es, k);
            if exists|j: int| 0 <= j < es.len() && #[trigger] es[j].0@ == k {
                let j = choose|j: int| 0 <= j < es.len() && #[trigger] es[j].0@ == k;
                if j < i {
                    assert(new_es[j].0@ == k);
                } else {
                    assert(new_es[j + 1].0@ == k);
                }
            }
            if k == key@ {
                assert(new_es[i].0@ == k);
            }
            if exists|j: int| 0 <= j < new_es.len() && #[trigger] new_es[j].0@ == k {
                let j = choose|j: int| 0 <= j < new_es.len() && #[trigger] new_es[j].0@ == k;
                if j < i {
                    assert(es[j].0@ == k);
                } else if j > i {
                    assert(es[j - 1].0@ == k);
                }
            }
        }
        assert forall|j: int| 0 <= j < new_es.len() implies m.contains_key(#[trigger] new_es[j].0@)
            && m[new_es[j].0@] == new_es[j].1 by {
            if j < i {
                lemma_entries_map_at(es, j);
                lemma_lex_irreflexive(key@);
            } else if j > i {
                lemma_entries_map_at(es, j - 1);
                if j - 1 > i {
                    assert(lex_lt(es[i].0@, es[j - 1].0@));
                    lemma_lex_transitive(key@, es[i].0@, es[j - 1].0@);
                }
                lemma_lex_irreflexive(key@);
            }
        }
        lemma_entries_map_ext(new_es, m);
    }

// ---------------------------------------------------------------------------
// The metainfo
// ---------------------------------------------------------------------------
/// A parsed `.torrent` file; its byte strings are borrowed from the input.
#[derive(Debug, Clone, PartialEq)]
pub struct Torrent<'a> {
    pub announce: &'a [u8],
    pub info: Info<'a>,
    pub piece_layers: Option<ByteMap<'a, &'a [u8]>>,
    /// Optional fields
    pub announce_list: Option<Vec<Vec<&'a [u8]>>>,
    pub comment: Option<&'a [u8]>,
    pub created_by: Option<&'a [u8]>,
    pub creation_date: Option<i64>,
    /// Raw info bytes for hashing
    pub raw_info: &'a [u8],
}

/// The `info` dictionary of a torrent.
#[derive(Debug, Clone, PartialEq)]
pub struct Info<'a> {
    pub name: Option<&'a [u8]>,
    pub piece_length: usize,
    pub meta_version: Option<i64>,
    pub file_layout: FileLayout<'a>,
}

/// How the content of a torrent is laid out: as in version 1 of the format
/// (one file, or a list of files), as in version 2 (a file tree), or both.
#[derive(Debug, Clone, PartialEq)]
pub enum FileLayout<'a> {
    V1SingleFile { pieces: &'a [u8], length: usize },
    V1MultiFile { pieces: &'a [u8], files: Vec<FileV1<'a>> },
    V2 { file_tree: ByteMap<'a, FileTreeNode<'a>> },
    Hybrid {
        pieces: &'a [u8],
        files: Vec<FileV1<'a>>,
        file_tree: ByteMap<'a, FileTreeNode<'a>>,
    },
}

/// A file of a version 1 multi-file torrent.
#[derive(Debug, Clone, PartialEq)]
pub struct FileV1<'a> {
    pub length: usize,
    pub path: Vec<&'a [u8]>,
}

/// A node of a version 2 file tree.
#[derive(Debug, PartialEq)]
pub enum FileTreeNode<'a> {
    Directory(ByteMap<'a, FileTreeNode<'a>>),
    File { length: usize, pieces_root: Option<&'a [u8]> },
}

// ---------------------------------------------------------------------------
// Models
// ---------------------------------------------------------------------------
/// The model of a `FileV1`.
pub struct FileV1Model {
    pub length: usize,
    pub path: Seq<Seq<u8>>,
}

/// The model of a `FileTreeNode`.
pub enum NodeModel {
    Directory(Map<Seq<u8>, NodeModel>),
    File { length: usize, pieces_root: Option<Seq<u8>> },
}

/// The model of a `FileLayout`.
pub enum LayoutModel {
    V1SingleFile { pieces: Seq<u8>, length: usize },
    V1MultiFile { pieces: Seq<u8>, files: Seq<FileV1Model> },
    V2 { file_tree: Map<Seq<u8>, NodeModel> },
    Hybrid { pieces: Seq<u8>, files: Seq<FileV1Model>, file_tree: Map<Seq<u8>, NodeModel> },
}

/// The model of an `Info`.
pub struct InfoModel {
    pub name: Option<Seq<u8>>,
    pub piece_length: usize,
    pub meta_version: Option<i64>,
    pub file_layout: LayoutModel,
}

/// A well-formed file tree node: a file has no pieces root or one of 32
/// bytes, and a directory holds at least one entry, each well-formed.
pub open spec fn node_wf(n: NodeModel) -> bool
    decreases n,
{
    match n {
        NodeModel::File { length: _, pieces_root } => match pieces_root {
            Some(r) => r.len() == 32,
            None => true,
        },
        NodeModel::Directory(m) => (exists|k: Seq<u8>| m.contains_key(k)) && forall|k: Seq<u8>|
            #[trigger] m.contains_key(k) ==> node_wf(m[k]),
    }
}

/// A well-formed file tree: every node in it is well-formed.
pub open spec fn tree_wf(m: Map<Seq<u8>, NodeModel>) -> bool {
    forall|k: Seq<u8>| #[trigger] m.contains_key(k) ==> node_wf(m[k])
}

/// A well-formed info dictionary: its pieces are a whole number of 20-byte
/// hashes, its file list (if any) is not empty, and its file tree (if any)
/// is well-formed.
pub open spec fn info_wf(i: InfoModel) -> bool {
    match i.file_layout {
        LayoutModel::V1SingleFile { pieces, length: _ } => pieces.len() % 20 == 0,
        LayoutModel::V1MultiFile { pieces, files } => pieces.len() % 20 == 0 && files.len() > 0,
        LayoutModel::V2 { file_tree } => tree_wf(file_tree),
        LayoutModel::Hybrid { pieces, files, file_tree } => pieces.len() % 20 == 0 && files.len()
            > 0 && tree_wf(file_tree),
    }
}

/// The bytes of an optional byte string.
pub open spec fn opt_bytes(o: Option<&[u8]>) -> Option<Seq<u8>> {
    match o {
        Some(b) => Some(b@),
        None => None,
    }
}

/// The model of a file tree node.
pub open spec fn node_model<'a>(n: FileTreeNode<'a>) -> NodeModel
    decreases n,
{
    match n {
        FileTreeNode::Directory(m) => NodeModel::Directory(tree_model(m)),
        FileTreeNode::File { length, pieces_root } => NodeModel::File {
            length,
            pieces_root: opt_bytes(pieces_root),
        },
    }
}

/// The model of a file tree: each name mapped to the model of its node.
pub closed spec fn tree_model<'a>(m: ByteMap<'a, FileTreeNode<'a>>) -> Map<Seq<u8>, NodeModel>
    decreases m,
{
    entries_tree_model(m.entries@)
}

spec fn entries_tree_model<'a>(es: Seq<(&'a [u8], FileTreeNode<'a>)>) -> Map<Seq<u8>, NodeModel>
    decreases es,
{
    if es.len() == 0 {
        Map::empty()
    } else {
        entries_tree_model(es.subrange(0, es.len() - 1)).insert(
            es[es.len() - 1].0@,
            node_model(es[es.len() - 1].1),
        )
    }
}

/// The model of a file tree is its map with each node taken by its model.
pub proof fn lemma_tree_model<'a>(m: ByteMap<'a, FileTreeNode<'a>>)
    ensures
        tree_model(m) == m@.map_values(|n: FileTreeNode<'a>| node_model(n)),
{
    lemma_entries_tree_model(m.entries@);
}

proof fn lemma_entries_tree_model<'a>(es: Seq<(&'a [u8], FileTreeNode<'a>)>)
    ensures
        entries_tree_model(es) == entries_map(es).map_values(|n: FileTreeNode<'a>| node_model(n)),
    decreases es.len(),
{
    if es.len() > 0 {
        lemma_entries_tree_model(es.drop_last());
        assert(es.subrange(0, es.len() - 1) == es.drop_last());
        assert(entries_tree_model(es) =~= entries_map(es).map_values(
            |n: FileTreeNode<'a>| node_model(n),
        ));
    } else {
        assert(entries_tree_model(es) =~= entries_map(es).map_values(
            |n: FileTreeNode<'a>| node_model(n),
        ));
    }
}

/// The model of a list of files.
pub open spec fn files_model<'a>(files: Seq<FileV1<'a>>) -> Seq<FileV1Model> {
    files.map_values(|f: FileV1<'a>| f@)
}

impl<'a> View for FileV1<'a> {
    type V = FileV1Model;

    open spec fn view(&self) -> FileV1Model {
        FileV1Model { length: self.length, path: self.path.deep_view() }
    }
}

impl<'a> View for FileTreeNode<'a> {
    type V = NodeModel;

    open spec fn view(&self) -> NodeModel {
        node_model(*self)
    }
}

impl<'a> View for FileLayout<'a> {
    type V = LayoutModel;

    open spec fn view(&self) -> LayoutModel {
        match *self {
            FileLayout::V1SingleFile { pieces, length } => LayoutModel::V1SingleFile {
                pieces: pieces@,
                length,
            },
            FileLayout::V1MultiFile { pieces, files } => LayoutModel::V1MultiFile {
                pieces: pieces@,
                files: files_model(files@),
            },
            FileLayout::V2 { file_tree } => LayoutModel::V2 { file_tree: tree_model(file_tree) },
            FileLayout::Hybrid { pieces, files, file_tree } => LayoutModel::Hybrid {
                pieces: pieces@,
                files: files_model(files@),
                file_tree: tree_model(file_tree),
            },
        }
    }
}

impl<'a> View for Info<'a> {
    type V = InfoModel;

    open spec fn view(&self) -> InfoModel {
        InfoModel {
            name: opt_bytes(self.name),
            piece_length: self.piece_length,
            meta_version: self.meta_version,
            file_layout: self.file_layout@,
        }
    }
}

impl<'a> Clone for FileTreeNode<'a> {
    /// A copy with the same model.
    fn clone(&self) -> (c: Self)
        ensures
            c@ == self@,
    {
        clone_node(self)
    }
}

/// A copy of a file tree node, with the same model.
fn clone_node<'a>(n: &FileTreeNode<'a>) -> (c: FileTreeNode<'a>)
    ensures
        node_model(c) == node_model(*n),
    decreases n,
{
    match n {
        FileTreeNode::Directory(m) => FileTreeNode::Directory(clone_tree(m)),
        FileTreeNode::File { length, pieces_root } => FileTreeNode::File {
            length: *length,
            pieces_root: *pieces_root,
        },
    }
}

/// A copy of a file tree, with the same model.
fn clone_tree<'a>(m: &ByteMap<'a, FileTreeNode<'a>>) -> (c: ByteMap<'a, FileTreeNode<'a>>)
    ensures
        tree_model(c) == tree_model(*m),
    decreases m,
{
    proof {
        use_type_invariant(m);
    }
    let mut es: Vec<(&'a [u8], FileTreeNode<'a>)> = Vec::new();
    let n = m.entries.len();
    let mut i: usize = 0;
    while i < n
        invariant
            n == m.entries@.len(),
            i <= n,
            es@.len() == i,
            keys_sorted(m.entries@),
            forall|j: int|
                0 <= j < i ==> (#[trigger] es@[j]).0 == m.entries@[j].0 && node_model(es@[j].1)
                    == node_model(m.entries@[j].1),
        decreases n - i,
    {
        let e = &m.entries[i];
        assert(decreases_to!(*m => m.entries@[i as int].1));
        let c = clone_node(&e.1);
        es.push((e.0, c));
        i = i + 1;
    }
    proof {
        assert forall|a: int, b: int| 0 <= a < b < es@.len() implies lex_lt(
            #[trigger] es@[a].0@,
            #[trigger] es@[b].0@,
        ) by {
            assert(lex_lt(m.entries@[a].0@, m.entries@[b].0@));
        }
        lemma_entries_tree_model_pointwise(es@, m.entries@);
    }
    ByteMap { entries: es }
}

/// Entries with the same keys and nodes of the same models give the same tree model.
proof fn lemma_entries_tree_model_pointwise<'a>(
    es: Seq<(&'a [u8], FileTreeNode<'a>)>,
    fs: Seq<(&'a [u8], FileTreeNode<'a>)>,
)
    requires
        es.len() == fs.len(),
        forall|j: int|
            0 <= j < es.len() ==> (#[trigger] es[j]).0 == fs[j].0 && node_model(es[j].1)
                == node_model(fs[j].1),
    ensures
        entries_tree_model(es) == entries_tree_model(fs),
    decreases es.len(),
{
    if es.len() > 0 {
        let es2 = es.subrange(0, es.len() - 1);
        let fs2 = fs.subrange(0, fs.len() - 1);
        assert forall|j: int| 0 <= j < es2.len() implies (#[trigger] es2[j]).0 == fs2[j].0
            && node_model(es2[j].1) == node_model(fs2[j].1) by {
            assert(es2[j] == es[j]);
            assert(fs2[j] == fs[j]);
        }
        lemma_entries_tree_model_pointwise(es2, fs2);
        assert(es[es.len() - 1].0 == fs[fs.len() - 1].0);
    }
}

} // verus!
