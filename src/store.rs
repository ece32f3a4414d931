//! The document cache: one entry per document, holding its text with the line index and the
//! syntax tree built from that text.
use vstd::prelude::*;
use vstd::string::StringSliceAdditionalSpecFns;
use vstd::utf8::encode_utf8;
use rustc_hash::FxHashMap;
use crate::line_index::LineIndex;
use crate::syntax::{SyntaxTree, parse_css, stylesheet_nodes};

verus! {

/// A document as the editor sends it.
#[derive(Clone, Debug, PartialEq, Eq)]
pub struct TextDocumentItem {
    pub uri: String,
    pub language_id: String,
    pub version: i32,
    pub text: String,
}

/// A cached document with what was built from its text.
pub struct StoreEntry {
    pub document: TextDocumentItem,
    pub line_index: LineIndex,
    pub css_tree: SyntaxTree,
}

impl StoreEntry {
    /// Whether the line index and the syntax tree were built from the stored text.
    pub open spec fn wf(&self) -> bool {
        &&& self.line_index.indexes(encode_utf8(self.document.text@))
        &&& self.css_tree.nodes@ == stylesheet_nodes(encode_utf8(self.document.text@))
        &&& self.css_tree.fits(encode_utf8(self.document.text@).len() as int)
    }

    pub fn new(document: TextDocumentItem, line_index: LineIndex, css_tree: SyntaxTree) -> (r: Self)
        ensures
            r.document == document,
            r.line_index == line_index,
            r.css_tree == css_tree,
    {
        StoreEntry { document, line_index, css_tree }
    }

    /// Builds the line index and the syntax tree of `document`'s text.
    pub fn analyze(document: TextDocumentItem) -> (r: Self)
        ensures
            r.document == document,
            r.wf(),
    {
        let line_index = LineIndex::new(document.text.as_str());
        let css_tree = parse_css(document.text.as_str());
        StoreEntry::new(document, line_index, css_tree)
    }
}

/// The entries of the cache by document URI. vstd states what `HashMap`'s operations do only
/// for key types and hashers that it knows to behave, and it knows neither `String` keys nor
/// `FxBuildHasher`; so the map stays in this private field and the functions below state what
/// each of its operations does.
#[verifier::external_body]
pub struct DocumentMap {
    map: FxHashMap<String, StoreEntry>,
}

/// No entry at all.
pub open spec fn no_entries() -> Map<Seq<char>, StoreEntry> {
    Map::empty()
}

/// The entries that a `DocumentMap` holds, by URI.
pub uninterp spec fn document_map_entries(m: DocumentMap) -> Map<Seq<char>, StoreEntry>;

impl DocumentMap {
    /// Relies on FxHashMap::default, an empty map.
    #[verifier::external_body]
    fn empty() -> (r: Self)
        ensures
            document_map_entries(r) == no_entries(),
    {
        DocumentMap { map: FxHashMap::default() }
    }

    /// Relies on HashMap::get, the entry stored under a key equal to `uri`.
    #[verifier::external_body]
    fn get(&self, uri: &str) -> (r: Option<&StoreEntry>)
        ensures
            r.is_some() == document_map_entries(*self).contains_key(uri@),
            r.is_some() ==> *r.unwrap() == document_map_entries(*self)[uri@],
    {
        self.map.get(uri)
    }

    /// Relies on HashMap::insert, which stores `entry` under `uri` in place of any entry
    /// there.
    #[verifier::external_body]
    fn insert(&mut self, uri: String, entry: StoreEntry)
        ensures
            document_map_entries(*final(self)) == document_map_entries(*old(self)).insert(uri@, entry),
    {
        self.map.insert(uri, entry);
    }

    /// Relies on HashMap::remove, which drops the entry under `uri` if there is one.
    #[verifier::external_body]
    fn remove(&mut self, uri: &str)
        ensures
            document_map_entries(*final(self)) == document_map_entries(*old(self)).remove(uri@),
    {
        self.map.remove(uri);
    }
}

/// Whether a cache with entries `before` holds an entry of the same version as `document`.
pub open spec fn cache_hit(before: Map<Seq<char>, StoreEntry>, document: TextDocumentItem) -> bool {
    before.contains_key(document.uri@) && before[document.uri@].document.version == document.version
}

/// What a request for `document` does to a cache with entries `before`: on a hit nothing
/// changes, else an entry built from `document` takes the place of any other under its URI.
pub open spec fn cache_updated(
    before: Map<Seq<char>, StoreEntry>,
    after: Map<Seq<char>, StoreEntry>,
    document: TextDocumentItem,
) -> bool {
    &&& after.contains_key(document.uri@)
    &&& after[document.uri@].document.version == document.version
    &&& if cache_hit(before, document) {
        after == before
    } else {
        &&& after[document.uri@].document == document
        &&& after == before.insert(document.uri@, after[document.uri@])
    }
}

/// The count of builds after a request that found a cached entry (`hit`) or built one.
pub open spec fn builds_after(builds: u64, hit: bool) -> u64 {
    if hit {
        builds
    } else if builds < u64::MAX {
        (builds + 1) as u64
    } else {
        u64::MAX
    }
}

/// One entry per open document, rebuilt whole when a new version of the document comes.
pub struct DocumentStore {
    documents: DocumentMap,
    builds: u64,
}

impl View for DocumentStore {
    type V = Map<Seq<char>, StoreEntry>;

    closed spec fn view(&self) -> Map<Seq<char>, StoreEntry> {
        document_map_entries(self.documents)
    }
}

impl DocumentStore {
    /// Every entry is stored under its document's URI, with an index and a tree built from its
    /// text.
    pub open spec fn wf(&self) -> bool {
        forall|uri: Seq<char>|
            #[trigger] self@.contains_key(uri) ==> self@[uri].wf() && self@[uri].document.uri@ == uri
    }

    /// How many times an entry was built, up to `u64::MAX`.
    pub closed spec fn spec_builds(&self) -> u64 {
        self.builds
    }

    pub fn new() -> (r: Self)
        ensures
            r.wf(),
            r@ == no_entries(),
            r.spec_builds() == 0,
    {
        DocumentStore { documents: DocumentMap::empty(), builds: 0 }
    }

    /// How many times an entry was built, up to `u64::MAX`.
    pub fn builds(&self) -> (r: u64)
        ensures
            r == self.spec_builds(),
    {
        self.builds
    }

    /// The entry of `document`: the cached one when it holds the same version, else a new one
    /// built from `document`, which takes the place of any older entry.
    pub fn get_or_update_document(&mut self, document: TextDocumentItem) -> (r: &StoreEntry)
        requires
            old(self).wf(),
        ensures
            final(self).wf(),
            r.wf(),
            *r == final(self)@[document.uri@],
            cache_updated(old(self)@, final(self)@, document),
            final(self).spec_builds() == builds_after(old(self).spec_builds(), cache_hit(old(self)@, document)),
    {
        let uri = document.uri.clone();
        let rebuild = match self.documents.get(uri.as_str()) {
            Some(entry) => entry.document.version != document.version,
            None => true,
        };
        if rebuild {
            let entry = StoreEntry::analyze(document);
            let ghost before = self@;
            let ghost built = entry;
            self.documents.insert(uri.clone(), entry);
            assert(self@ == before.insert(uri@, built));
            assert forall|k: Seq<char>| #[trigger] self@.contains_key(k) implies self@[k].wf()
                && self@[k].document.uri@ == k by {
                if k != uri@ {
                    assert(before.contains_key(k));
                }
            }
            if self.builds < u64::MAX {
                self.builds = self.builds + 1;
            }
        }
        assert(self@.contains_key(uri@));
        self.documents.get(uri.as_str()).unwrap()
    }

    /// Drops the entry of `uri`, if there is one.
    pub fn remove(&mut self, uri: &str)
        requires
            old(self).wf(),
        ensures
            final(self).wf(),
            final(self)@ == old(self)@.remove(uri@),
            final(self).spec_builds() == old(self).spec_builds(),
    {
        let ghost before = self@;
        self.documents.remove(uri);
        assert forall|k: Seq<char>| #[trigger] self@.contains_key(k) implies self@[k].wf()
            && self@[k].document.uri@ == k by {
            assert(before.contains_key(k));
        }
    }
}

impl Default for DocumentStore {
    fn default() -> (r: Self)
        ensures
            r.wf(),
            r@ == no_entries(),
            r.spec_builds() == 0,
    {
        DocumentStore::new()
    }
}

} // verus!
