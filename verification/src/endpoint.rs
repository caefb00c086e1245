//! The value shapes exchanged with the request layer.
//!
//! These carry query results and fetched notes across the API boundary;
//! the request layer itself (routing, serialization formats) lives outside
//! this crate and hands these plain values back and forth.

use vstd::prelude::*;
use crate::content::{view_blocks, Block};
use crate::id::ZettelId;
use crate::record::{view_record, ZettelRecord};

verus! {

/// A fetched note as the API returns it: title and content, without the
/// internal mentions.
#[derive(Debug, PartialEq)]
pub struct Zettel {
    pub title: String,
    pub content: Vec<Block>,
}

impl Zettel {
    /// The API shape of a stored record: the same title and content.
    pub fn of_record(record: ZettelRecord) -> (r: Zettel)
        ensures
            r.title@ == view_record(record).title,
            view_blocks(r.content@) == view_record(record).content,
    {
        let ZettelRecord { title, content, .. } = record;
        Zettel { title, content }
    }
}

/// One row of a listing: the note's id with its title and content.
#[derive(Debug, PartialEq)]
pub struct QueryResult {
    pub id: ZettelId,
    pub title: String,
    pub content: Vec<Block>,
}

impl QueryResult {
    /// The listing row for one stored record.
    pub fn of_entry(id: ZettelId, record: ZettelRecord) -> (r: QueryResult)
        ensures
            r.id == id,
            r.title@ == view_record(record).title,
            view_blocks(r.content@) == view_record(record).content,
    {
        let ZettelRecord { title, content, .. } = record;
        QueryResult { id, title, content }
    }
}

/// A fetched note, as the fetch endpoint returns it.
#[derive(Debug, PartialEq)]
pub struct FoundZettel {
    pub title: String,
    pub content: Vec<Block>,
}

impl FoundZettel {
    /// The fetch-endpoint shape of a stored record.
    pub fn of_record(record: ZettelRecord) -> (r: FoundZettel)
        ensures
            r.title@ == view_record(record).title,
            view_blocks(r.content@) == view_record(record).content,
    {
        let ZettelRecord { title, content, .. } = record;
        FoundZettel { title, content }
    }
}

/// The query parameters of a search request.
#[derive(Debug, PartialEq)]
pub struct SearchParams {
    pub query: String,
}

} // verus!
