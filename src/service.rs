//! The entry point of the analysis: a document cache and the position encoding of the session.
use vstd::prelude::*;
use vstd::utf8::encode_utf8;
use crate::colors::{ColorInformation, document_colors_of, find_document_colors};
use crate::folding::{FoldingRange, compute_folding_ranges, folding_ranges_of};
use crate::line_index::{PositionEncoding, Range};
use crate::syntax::stylesheet_nodes;
use crate::presentation::{ColorPresentation, PresentationColor, compute_color_presentations, presentation_texts};
use crate::store::{
    DocumentStore, StoreEntry, TextDocumentItem, builds_after, cache_hit, cache_updated, no_entries,
};

verus! {

/// Answers color and folding requests for the documents of one session.
pub struct LanguageService {
    store: DocumentStore,
    encoding: PositionEncoding,
}

impl LanguageService {
    /// Whether every cached entry holds an index and a tree built from its text.
    pub closed spec fn wf(&self) -> bool {
        self.store.wf()
    }

    /// The cached documents, by URI.
    pub closed spec fn documents(&self) -> Map<Seq<char>, StoreEntry> {
        self.store@
    }

    /// The encoding in which columns are counted in this session.
    pub closed spec fn spec_encoding(&self) -> PositionEncoding {
        self.encoding
    }

    /// How many times a document was analyzed, up to `u64::MAX`.
    pub closed spec fn spec_builds(&self) -> u64 {
        self.store.spec_builds()
    }

    pub fn new(encoding: PositionEncoding) -> (r: Self)
        ensures
            r.wf(),
            r.documents() == no_entries(),
            r.spec_encoding() == encoding,
            r.spec_builds() == 0,
    {
        LanguageService { store: DocumentStore::new(), encoding }
    }

    pub fn encoding(&self) -> (r: PositionEncoding)
        ensures
            r == self.spec_encoding(),
    {
        self.encoding
    }

    /// How many times a document was analyzed, up to `u64::MAX`.
    pub fn builds(&self) -> (r: u64)
        ensures
            r == self.spec_builds(),
    {
        self.store.builds()
    }

    /// Drops the cached entry of `uri`, as when the editor closes the document.
    pub fn close_document(&mut self, uri: &str)
        requires
            old(self).wf(),
        ensures
            final(self).wf(),
            final(self).documents() == old(self).documents().remove(uri@),
            final(self).spec_encoding() == old(self).spec_encoding(),
    {
        self.store.remove(uri);
    }

    /// The colors of `document`, read from the cached entry of its version.
    pub fn get_document_colors(&mut self, document: TextDocumentItem) -> (r: Vec<ColorInformation>)
        requires
            old(self).wf(),
        ensures
            final(self).wf(),
            final(self).spec_encoding() == old(self).spec_encoding(),
            cache_updated(old(self).documents(), final(self).documents(), document),
            final(self).spec_builds() == builds_after(old(self).spec_builds(), cache_hit(old(self).documents(), document)),
            ({
                let e = final(self).documents()[document.uri@];
                let t = encode_utf8(e.document.text@);
                r@ == document_colors_of(t, stylesheet_nodes(t), old(self).spec_encoding())
            }),
    {
        let encoding = self.encoding;
        let entry = self.store.get_or_update_document(document);
        find_document_colors(&entry.css_tree, entry.document.text.as_str(), &entry.line_index, encoding)
    }

    /// The four presentations of `color` (see `compute_color_presentations`).
    pub fn get_color_presentations(&self, color: PresentationColor, range: Range) -> (r: Vec<
        ColorPresentation,
    >)
        ensures
            r@.len() == 4,
            forall|k: int|
                0 <= k < 4 ==> {
                    &&& (#[trigger] r@[k]).label@ == presentation_texts(color)[k]
                    &&& r@[k].text_edit.new_text@ == presentation_texts(color)[k]
                    &&& r@[k].text_edit.range == range
                },
    {
        compute_color_presentations(color, range)
    }

    /// The folding ranges of `document`, read from the cached entry of its version.
    pub fn get_folding_ranges(&mut self, document: TextDocumentItem) -> (r: Vec<FoldingRange>)
        requires
            old(self).wf(),
        ensures
            final(self).wf(),
            final(self).spec_encoding() == old(self).spec_encoding(),
            cache_updated(old(self).documents(), final(self).documents(), document),
            final(self).spec_builds() == builds_after(old(self).spec_builds(), cache_hit(old(self).documents(), document)),
            r@ == folding_ranges_of(encode_utf8(final(self).documents()[document.uri@].document.text@)),
    {
        let entry = self.store.get_or_update_document(document);
        compute_folding_ranges(entry.document.text.as_str(), &entry.line_index)
    }
}

impl Default for LanguageService {
    /// A service that counts columns in UTF-16 code units, the protocol's default.
    fn default() -> (r: Self)
        ensures
            r.wf(),
            r.documents() == no_entries(),
            r.spec_encoding() == PositionEncoding::Utf16,
            r.spec_builds() == 0,
    {
        LanguageService::new(PositionEncoding::Utf16)
    }
}

} // verus!
