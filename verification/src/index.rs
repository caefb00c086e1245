//! The full-text search index.
//!
//! The index holds one document per note — `{id, title, content}` — in an
//! embedded inverted-index engine. Writes are staged in the engine's write
//! buffer and become visible to searches only when a commit runs; the
//! facade keeps a pending-writes flag so that a periodic committer (driven
//! from outside this crate) commits only when something is staged. This
//! trades search recency for write throughput: an update is never slowed
//! by a per-write commit, at the cost of a bounded staleness window.
//!
//! The model is two maps from note id to `(title, content)` text: the
//! committed documents, which searches see, and the buffered documents,
//! which the next commit folds into them.

use vstd::prelude::*;
use crate::content::{flat_blocks, view_blocks};
use crate::id::ZettelId;
use crate::record::ZettelRecord;
use tantivy::schema::Value;
use tantivy::schema::{FAST, INDEXED, STORED, TEXT};

verus! {

/// Why an index operation failed: the engine reported an I/O or internal
/// error. Fatal for the operation in progress; never recovered silently.
#[derive(Clone, Copy, Debug, PartialEq, Eq, Structural)]
pub enum IndexError {
    Io,
}

/// Why a search failed.
#[derive(Clone, Copy, Debug, PartialEq, Eq, Structural)]
pub enum SearchError {
    /// The query text does not parse in the engine's query syntax.
    /// Recoverable: surfaced to the caller, no results returned.
    BadQuery,
    /// The engine reported an I/O or internal error.
    Io,
}

/// The inverted-index engine and its session objects. Opaque to
/// verification; the two document maps below name what it holds.
#[verifier::external_body]
pub struct SearchEngine {
    index: tantivy::Index,
    id_field: tantivy::schema::Field,
    title_field: tantivy::schema::Field,
    content_field: tantivy::schema::Field,
    writer: tantivy::IndexWriter,
    parser: tantivy::query::QueryParser,
}

/// The documents searches currently see: one per id, committed.
pub uninterp spec fn committed_docs(e: SearchEngine) -> Map<u64, (Seq<char>, Seq<char>)>;

/// The documents staged in the write buffer, which the next commit makes
/// visible, replacing any committed document with the same id.
pub uninterp spec fn buffered_docs(e: SearchEngine) -> Map<u64, (Seq<char>, Seq<char>)>;

/// Whether the engine's query parser accepts this query text. Parsing
/// depends on the query text alone (the schema and default fields are
/// fixed at construction).
pub uninterp spec fn query_parses(q: Seq<char>) -> bool;

/// Relies on tantivy's `Schema::builder` (`id` indexed/fast/stored, `title`
/// and `content` as tokenized text), `Index::open_or_create` over
/// `MmapDirectory::open`, `Index::writer` and `QueryParser::for_index`.
/// A freshly created writer has no staged operations.
#[verifier::external_body]
fn engine_open(path: &str) -> (r: Result<SearchEngine, IndexError>)
    ensures
        match r {
            Ok(e) => buffered_docs(e) == Map::<u64, (Seq<char>, Seq<char>)>::empty(),
            Err(_) => true,
        },
{
    let mut b = tantivy::schema::Schema::builder();
    let id_field = b.add_u64_field("id", INDEXED | FAST | STORED);
    let title_field = b.add_text_field("title", TEXT);
    let content_field = b.add_text_field("content", TEXT);
    let dir = tantivy::directory::MmapDirectory::open(path).map_err(|_| IndexError::Io)?;
    let index = tantivy::Index::open_or_create(dir, b.build()).map_err(|_| IndexError::Io)?;
    let writer = index.writer(50_000_000).map_err(|_| IndexError::Io)?;
    let parser = tantivy::query::QueryParser::for_index(&index, vec![title_field, content_field]);
    Ok(SearchEngine { index, id_field, title_field, content_field, writer, parser })
}

/// Relies on tantivy's `Index::create_in_ram` with the same schema,
/// writer and parser as `engine_open`: a fresh in-memory index holds no
/// documents and its writer has no staged operations.
#[verifier::external_body]
fn engine_in_ram() -> (r: Result<SearchEngine, IndexError>)
    ensures
        match r {
            Ok(e) => committed_docs(e) == Map::<u64, (Seq<char>, Seq<char>)>::empty()
                && buffered_docs(e) == Map::<u64, (Seq<char>, Seq<char>)>::empty(),
            Err(_) => true,
        },
{
    let mut b = tantivy::schema::Schema::builder();
    let id_field = b.add_u64_field("id", INDEXED | FAST | STORED);
    let title_field = b.add_text_field("title", TEXT);
    let content_field = b.add_text_field("content", TEXT);
    let index = tantivy::Index::create_in_ram(b.build());
    let writer = index.writer(50_000_000).map_err(|_| IndexError::Io)?;
    let parser = tantivy::query::QueryParser::for_index(&index, vec![title_field, content_field]);
    Ok(SearchEngine { index, id_field, title_field, content_field, writer, parser })
}

/// Relies on tantivy's `IndexWriter::delete_term` for the id term followed
/// by `IndexWriter::add_document`: together the engine's replace primitive.
/// Both only stage operations; nothing is visible until a commit. On an
/// error the staged state is unspecified, but committed documents are
/// untouched.
#[verifier::external_body]
fn engine_replace(e: &mut SearchEngine, id: u64, title: &str, content: &str) -> (r: Result<
    (),
    IndexError,
>)
    ensures
        match r {
            Ok(_) => buffered_docs(*final(e)) == buffered_docs(*old(e)).insert(
                id,
                (title@, content@),
            ) && committed_docs(*final(e)) == committed_docs(*old(e)),
            Err(_) => committed_docs(*final(e)) == committed_docs(*old(e)),
        },
{
    e.writer.delete_term(tantivy::Term::from_field_u64(e.id_field, id));
    let mut doc = tantivy::TantivyDocument::new();
    doc.add_u64(e.id_field, id);
    doc.add_text(e.title_field, title);
    doc.add_text(e.content_field, content);
    match e.writer.add_document(doc) {
        Ok(_) => Ok(()),
        Err(_) => Err(IndexError::Io),
    }
}

/// Relies on tantivy's `IndexWriter::commit`: all staged operations become
/// visible to subsequent searches, the staged ops replacing same-id
/// documents. On an error nothing is promised.
#[verifier::external_body]
fn engine_commit(e: &mut SearchEngine) -> (r: Result<(), IndexError>)
    ensures
        match r {
            Ok(_) => committed_docs(*final(e)) == committed_docs(*old(e)).union_prefer_right(
                buffered_docs(*old(e)),
            ) && buffered_docs(*final(e)) == Map::<u64, (Seq<char>, Seq<char>)>::empty(),
            Err(_) => true,
        },
{
    match e.writer.commit() {
        Ok(_) => Ok(()),
        Err(_) => Err(IndexError::Io),
    }
}

/// Relies on tantivy's `Index::reader`, `QueryParser::parse_query`,
/// `Searcher::search` with `TopDocs::with_limit(10).order_by_score()`, and
/// `Searcher::doc`:
/// at most ten results, each the stored id of a committed document, best
/// scores first. `BadQuery` exactly when the query text does not parse.
#[verifier::external_body]
fn engine_search(e: &SearchEngine, q: &str) -> (r: Result<Vec<u64>, SearchError>)
    ensures
        match r {
            Ok(v) => v@.len() <= 10 && (forall|k: int|
                0 <= k < v@.len() ==> committed_docs(*e).dom().contains(v@[k]))
                && query_parses(q@),
            Err(SearchError::BadQuery) => !query_parses(q@),
            Err(SearchError::Io) => true,
        },
{
    let searcher = e.index.reader().map_err(|_| SearchError::Io)?.searcher();
    let query = e.parser.parse_query(q).map_err(|_| SearchError::BadQuery)?;
    let top = searcher.search(&query, &tantivy::collector::TopDocs::with_limit(10).order_by_score()).map_err(
        |_| SearchError::Io,
    )?;
    let mut out = Vec::new();
    for (_score, addr) in top {
        let doc: tantivy::TantivyDocument = searcher.doc(addr).map_err(|_| SearchError::Io)?;
        out.push(doc.get_first(e.id_field).and_then(|v| v.as_u64()).ok_or(SearchError::Io)?);
    }
    Ok(out)
}

/// The search index facade: the engine plus the pending-writes flag that
/// the periodic committer reads.
pub struct Index {
    engine: SearchEngine,
    commit_needed: bool,
}

impl Index {
    /// The documents searches currently see.
    pub closed spec fn committed(self) -> Map<u64, (Seq<char>, Seq<char>)> {
        committed_docs(self.engine)
    }

    /// The documents staged for the next commit.
    pub closed spec fn buffered(self) -> Map<u64, (Seq<char>, Seq<char>)> {
        buffered_docs(self.engine)
    }

    /// Whether a commit is pending.
    pub closed spec fn pending(self) -> bool {
        self.commit_needed
    }

    /// Open (or create) the directory-backed index at the fixed path the
    /// process uses.
    pub fn create() -> (r: Result<Index, IndexError>)
        ensures
            match r {
                Ok(ix) => ix.buffered() == Map::<u64, (Seq<char>, Seq<char>)>::empty()
                    && !ix.pending(),
                Err(_) => true,
            },
    {
        let engine = engine_open("index/")?;
        Ok(Index { engine, commit_needed: false })
    }

    /// A fresh in-memory index: empty, nothing staged, nothing pending.
    pub fn create_in_ram() -> (r: Result<Index, IndexError>)
        ensures
            match r {
                Ok(ix) => ix.committed() == Map::<u64, (Seq<char>, Seq<char>)>::empty()
                    && ix.buffered() == Map::<u64, (Seq<char>, Seq<char>)>::empty()
                    && !ix.pending(),
                Err(_) => true,
            },
    {
        let engine = engine_in_ram()?;
        Ok(Index { engine, commit_needed: false })
    }

    /// Stage the replacement document for a note: its title and the
    /// flattened text of its content tree. Not visible to searches until
    /// the next commit; the pending flag is raised.
    pub fn update_zettel(&mut self, id: ZettelId, record: &ZettelRecord) -> (r: Result<
        (),
        IndexError,
    >)
        ensures
            match r {
                Ok(_) => final(self).buffered() == old(self).buffered().insert(
                    id.0,
                    (record.title@, flat_blocks(view_blocks(record.content@))),
                ) && final(self).committed() == old(self).committed() && final(self).pending(),
                Err(_) => final(self).committed() == old(self).committed() && final(self).pending()
                    == old(self).pending(),
            },
    {
        let text = crate::content::index_text(&record.content);
        engine_replace(&mut self.engine, id.0, record.title.as_str(), text.as_str())?;
        self.commit_needed = true;
        Ok(())
    }

    /// Parse the query and return the ids of the best-matching committed
    /// documents, at most ten, best first, each id at most once. An empty
    /// query matches nothing, and answering it cannot fail; a nonempty
    /// query that yields results is one the engine's syntax accepts.
    pub fn search(&self, query: &str) -> (r: Result<Vec<ZettelId>, SearchError>)
        ensures
            match r {
                Ok(ids) => ids@.len() <= 10 && (forall|k: int|
                    0 <= k < ids@.len() ==> self.committed().dom().contains(ids@[k].0)) && (
                query@.len() == 0 ==> ids@.len() == 0) && (query@.len() != 0 ==> query_parses(
                    query@,
                )) && (forall|k1: int, k2: int|
                    0 <= k1 < k2 < ids@.len() ==> ids@[k1].0 != ids@[k2].0),
                Err(SearchError::BadQuery) => !query_parses(query@),
                Err(SearchError::Io) => true,
            },
            query@.len() == 0 ==> r is Ok,
    {
        if query.unicode_len() == 0 {
            return Ok(Vec::new());
        }
        let raw = engine_search(&self.engine, query)?;
        let mut out: Vec<ZettelId> = Vec::new();
        let mut i: usize = 0;
        while i < raw.len()
            invariant
                i <= raw@.len(),
                raw@.len() <= 10,
                out@.len() <= i,
                forall|k: int|
                    0 <= k < out@.len() ==> committed_docs(self.engine).dom().contains(
                        (#[trigger] out@[k]).0,
                    ),
                forall|k1: int, k2: int|
                    0 <= k1 < k2 < out@.len() ==> (#[trigger] out@[k1]).0 != (
                    #[trigger] out@[k2]).0,
                forall|k: int|
                    0 <= k < raw@.len() ==> committed_docs(self.engine).dom().contains(raw@[k]),
            decreases raw@.len() - i,
        {
            let v = raw[i];
            let mut dup = false;
            let mut j: usize = 0;
            while j < out.len()
                invariant
                    j <= out@.len(),
                    dup <==> (exists|k: int| 0 <= k < j && (#[trigger] out@[k]).0 == v),
                decreases out@.len() - j,
            {
                if out[j].0 == v {
                    dup = true;
                }
                j += 1;
            }
            if !dup {
                out.push(ZettelId(v));
            }
            i += 1;
        }
        Ok(out)
    }

    /// The committer's step: if writes are pending, commit them — staged
    /// documents replace committed ones with the same id and become
    /// visible to searches — and lower the flag. Returns whether a commit
    /// ran. On an engine error the flag stays raised, so the write is not
    /// lost but waits for the next tick.
    pub fn commit_if_needed(&mut self) -> (r: Result<bool, IndexError>)
        ensures
            match r {
                Ok(true) => old(self).pending() && final(self).committed() == old(
                    self,
                ).committed().union_prefer_right(old(self).buffered()) && final(self).buffered()
                    == Map::<u64, (Seq<char>, Seq<char>)>::empty() && !final(self).pending(),
                Ok(false) => !old(self).pending() && *final(self) == *old(self),
                Err(_) => final(self).pending() == old(self).pending(),
            },
            !old(self).pending() ==> r == Ok::<bool, IndexError>(false),
    {
        if !self.commit_needed {
            return Ok(false);
        }
        engine_commit(&mut self.engine)?;
        self.commit_needed = false;
        Ok(true)
    }
}

/// Search staleness, the guaranteed half: a search executed while `id` is
/// only staged (not yet committed) cannot return `id`. This is the
/// composition of `update_zettel`, which changes only the buffered map,
/// with `search`, whose results all lie in the committed map. The
/// no-committed-document premise is necessary: a note that already has a
/// committed document matching the query is returned regardless of what
/// sits in the buffer. The other half — that after the committer runs a
/// search for the new title does find `id` — depends on the engine's
/// tokenizer and scoring and is exercised by tests instead.
pub proof fn lemma_search_staleness(
    committed: Map<u64, (Seq<char>, Seq<char>)>,
    id: u64,
    results: Seq<ZettelId>,
)
    requires
        !committed.dom().contains(id),
        forall|k: int| 0 <= k < results.len() ==> committed.dom().contains(results[k].0),
    ensures
        forall|k: int| 0 <= k < results.len() ==> results[k].0 != id,
{
}

/// After a commit, a staged document for `id` is in the committed map —
/// the positive half of the staleness property at the model level.
pub proof fn lemma_commit_publishes(
    committed: Map<u64, (Seq<char>, Seq<char>)>,
    buffered: Map<u64, (Seq<char>, Seq<char>)>,
    id: u64,
)
    requires
        buffered.dom().contains(id),
    ensures
        committed.union_prefer_right(buffered).dom().contains(id),
        committed.union_prefer_right(buffered)[id] == buffered[id],
{
}

} // verus!
