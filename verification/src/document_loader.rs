//! Document acquisition queue: documents enter at the back with a freshly
//! generated unique identifier and leave at the front, first in first out.
//!
//! Discovering files, reading plain text and extracting text from other
//! formats belong to the surrounding program; this type owns the queue
//! discipline and the shape of a loaded document.

use std::collections::VecDeque;
use vstd::prelude::*;

verus! {

/// A document handed to the pipeline: a unique identifier, the name of the
/// file it came from, and its complete text.
#[derive(Debug)]
pub struct Document {
    pub document_id: String,
    pub document_name: String,
    pub document_content: String,
}

/// Holds a source location and a FIFO queue of loaded documents.
pub struct DocumentLoader {
    pub source: String,
    pub documents: VecDeque<Document>,
}

/// Relies on uuid::Uuid::new_v4 and its Display form: a freshly generated
/// version-4 identifier rendered in the canonical hyphenated form, which is
/// 36 characters long.
#[verifier::external_body]
fn fresh_document_id() -> (r: String)
    ensures
        r@.len() == 36,
{
    uuid::Uuid::new_v4().to_string()
}

impl DocumentLoader {
    pub fn new(source: String) -> (r: Self)
        ensures
            r.source@ == source@,
            r.documents@ =~= Seq::<Document>::empty(),
    {
        Self { source, documents: VecDeque::new() }
    }

    /// Append a freshly identified document built from a file name and the
    /// content extracted from it.
    pub fn document(&mut self, document_name: String, document_content: String)
        ensures
            final(self).source == old(self).source,
            final(self).documents@.len() == old(self).documents@.len() + 1,
            final(self).documents@.drop_last() == old(self).documents@,
            final(self).documents@.last().document_name == document_name,
            final(self).documents@.last().document_content == document_content,
            final(self).documents@.last().document_id@.len() == 36,
    {
        let document_id = fresh_document_id();
        self.documents.push_back(Document { document_id, document_name, document_content });
        proof {
            assert(self.documents@.drop_last() =~= old(self).documents@);
        }
    }

    /// Yield the next document in arrival order, or `None` once the queue
    /// is empty.
    pub fn next(&mut self) -> (r: Option<Document>)
        ensures
            final(self).source == old(self).source,
            old(self).documents@.len() == 0 ==> r is None && final(self).documents@
                == old(self).documents@,
            old(self).documents@.len() > 0 ==> (r matches Some(d) && d
                == old(self).documents@.first() && final(self).documents@
                == old(self).documents@.drop_first()),
    {
        let r = self.documents.pop_front();
        proof {
            if old(self).documents@.len() > 0 {
                assert(self.documents@ =~= old(self).documents@.drop_first());
            } else {
                assert(self.documents@ =~= old(self).documents@);
            }
        }
        r
    }
}

} // verus!
