//! The sync use case: fetch → decode → save for each source. The fetching
//! and saving are the caller's work; this module decides what follows each
//! of them, so that one source's failure never stops the others.

use vstd::prelude::*;
use std::sync::Arc;
use crate::config::Source;
use crate::decoder::{
    decode_failure, decode_if_needed, decoded_text, is_encoded, is_uri_list,
};
use crate::error::Error;
use crate::text::{byte_len, is_blank, str_byte_len};

verus! {

/// What came of one source.
#[derive(Debug)]
pub enum Outcome {
    /// Saved: the files written, whether the content was base64 and the
    /// size of the decoded content in bytes.
    Synced { id: String, paths: Vec<String>, was_encoded: bool, bytes: usize },
    /// Failed: which source, and why.
    Failed { id: String, url: String, error: Error },
}

impl Outcome {
    /// Whether the source was saved.
    pub fn is_ok(&self) -> (b: bool)
        ensures
            b == (self is Synced),
    {
        match self {
            Outcome::Synced { .. } => true,
            Outcome::Failed { .. } => false,
        }
    }

    /// The id of the source.
    pub fn id(&self) -> (id: &str)
        ensures
            id@ == match self {
                Outcome::Synced { id, .. } => id@,
                Outcome::Failed { id, .. } => id@,
            },
    {
        match self {
            Outcome::Synced { id, .. } => id.as_str(),
            Outcome::Failed { id, .. } => id.as_str(),
        }
    }
}

/// The sync service over a fetcher and a saver, shared by the tasks that
/// handle the sources.
pub struct SyncService<F, S> {
    pub fetcher: Arc<F>,
    pub saver: Arc<S>,
}

impl<F, S> SyncService<F, S> {
    /// A service over `fetcher` and `saver`.
    pub fn new(fetcher: F, saver: S) -> (s: Self)
        ensures
            *s.fetcher == fetcher,
            *s.saver == saver,
    {
        SyncService { fetcher: Arc::new(fetcher), saver: Arc::new(saver) }
    }
}

/// What follows a fetch: save the decoded content, or stop with an outcome.
#[derive(Debug)]
pub enum SyncStep {
    Save { content: String, was_encoded: bool },
    Finished(Outcome),
}

/// `o` reports that `source` failed with `error`.
pub open spec fn failed_with(o: Outcome, source: Source, error: Error) -> bool {
    match o {
        Outcome::Failed { id, url, error: e } => id@ == source.id@ && url@ == source.url@ && e
            == error,
        _ => false,
    }
}

/// Decides what follows the fetch of `source`: a failed fetch ends the
/// source with that error; fetched content that cannot be decoded ends it
/// with the decoding error; decoded content is to be saved, with a note of
/// whether it was base64.
pub fn after_fetch(source: &Source, fetched: Result<String, Error>) -> (step: SyncStep)
    ensures
        fetched matches Err(e) ==> (step matches SyncStep::Finished(o) && failed_with(
            o,
            *source,
            e,
        )),
        fetched matches Ok(raw) ==> match decoded_text(raw@) {
            Some(text) => step matches SyncStep::Save { content, was_encoded } && content@ == text
                && was_encoded == (!is_uri_list(raw@) && !is_blank(raw@)),
            None => step matches SyncStep::Finished(o) && o matches Outcome::Failed {
                id,
                url,
                error,
            } && id@ == source.id@ && url@ == source.url@ && decode_failure(raw@, error),
        },
{
    let raw = match fetched {
        Ok(raw) => raw,
        Err(error) => {
            return SyncStep::Finished(
                Outcome::Failed { id: source.id.clone(), url: source.url.clone(), error },
            );
        },
    };
    let was_encoded = is_encoded(raw.as_str());
    match decode_if_needed(raw.as_str()) {
        Ok(content) => SyncStep::Save { content, was_encoded },
        Err(error) => SyncStep::Finished(
            Outcome::Failed { id: source.id.clone(), url: source.url.clone(), error },
        ),
    }
}

/// The outcome of saving the decoded `content` of `source`: the files
/// written, or the saving error.
pub fn after_save(
    source: &Source,
    content: &str,
    was_encoded: bool,
    saved: Result<Vec<String>, Error>,
) -> (o: Outcome)
    ensures
        saved matches Err(e) ==> failed_with(o, *source, e),
        saved matches Ok(paths) ==> o matches Outcome::Synced {
            id,
            paths: p,
            was_encoded: w,
            bytes,
        } && id@ == source.id@ && p == paths && w == was_encoded && bytes == byte_len(content@),
{
    match saved {
        Ok(paths) => Outcome::Synced {
            id: source.id.clone(),
            paths,
            was_encoded,
            bytes: str_byte_len(content),
        },
        Err(error) => Outcome::Failed { id: source.id.clone(), url: source.url.clone(), error },
    }
}

} // verus!
