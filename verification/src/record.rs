use vstd::prelude::*;

verus! {

use crate::compress::gzip_len_of;
use crate::error::InvalidLineError;

/// One parsed input row: class label, title, text body. Rows arrive
/// pre-parsed from the caller; the library never reads files itself.
#[derive(Debug)]
pub struct Row {
    pub class: String,
    pub title: String,
    pub text: String,
}

/// Mathematical model of a [`Row`].
pub ghost struct RowModel {
    pub class: Seq<char>,
    pub title: Seq<char>,
    pub text: Seq<char>,
}

impl View for Row {
    type V = RowModel;

    open spec fn view(&self) -> RowModel {
        RowModel { class: self.class@, title: self.title@, text: self.text@ }
    }
}

impl DeepView for Row {
    type V = RowModel;

    open spec fn deep_view(&self) -> RowModel {
        self.view()
    }
}

impl Row {
    /// Builds a row from the fields of one source line. The line is
    /// valid exactly when it has the three required fields — class,
    /// title, text, in that order; any other shape is rejected with an
    /// [`InvalidLineError`].
    pub fn from_fields(fields: Vec<String>) -> (r: Result<Row, InvalidLineError>)
        ensures
            r is Ok <==> fields@.len() == 3,
            r matches Ok(row) ==> row@ == (RowModel {
                class: fields@[0]@,
                title: fields@[1]@,
                text: fields@[2]@,
            }),
    {
        if fields.len() == 3 {
            let mut fields = fields;
            let class = fields.remove(0);
            let title = fields.remove(0);
            let text = fields.remove(0);
            Ok(Row { class, title, text })
        } else {
            Err(InvalidLineError)
        }
    }
}

/// One corpus record: the fields of a row together with the compressed
/// size of its text, computed once at index-build time and never
/// recomputed.
pub struct Record {
    pub class: String,
    pub title: String,
    pub text: String,
    pub compressed_len: usize,
}

/// Mathematical model of a [`Record`].
pub ghost struct RecordModel {
    pub class: Seq<char>,
    pub title: Seq<char>,
    pub text: Seq<char>,
    pub compressed_len: nat,
}

impl View for Record {
    type V = RecordModel;

    open spec fn view(&self) -> RecordModel {
        RecordModel {
            class: self.class@,
            title: self.title@,
            text: self.text@,
            compressed_len: self.compressed_len as nat,
        }
    }
}

impl DeepView for Record {
    type V = RecordModel;

    open spec fn deep_view(&self) -> RecordModel {
        self.view()
    }
}

/// A record is well formed when its cached size is the compressed size
/// of its own text.
pub open spec fn record_wf(r: RecordModel) -> bool {
    r.compressed_len == gzip_len_of(r.text)
}

/// Full-tuple identity: two records stand for the same (class, title,
/// text) row. This is the key under which a corpus deduplicates.
pub open spec fn same_key(a: RecordModel, b: RecordModel) -> bool {
    a.class == b.class && a.title == b.title && a.text == b.text
}

impl Record {
    /// Packages a row's fields with an already-computed compressed size.
    pub fn new(class: &str, title: &str, text: &str, compressed_len: usize) -> (r: Record)
        ensures
            r@ == (RecordModel {
                class: class@,
                title: title@,
                text: text@,
                compressed_len: compressed_len as nat,
            }),
    {
        Record {
            class: class.to_owned(),
            title: title.to_owned(),
            text: text.to_owned(),
            compressed_len,
        }
    }

    /// An exact copy, written out so that verified callers know the
    /// copy equals the original.
    pub fn duplicate(&self) -> (r: Record)
        ensures
            r == *self,
    {
        Record {
            class: self.class.clone(),
            title: self.title.clone(),
            text: self.text.clone(),
            compressed_len: self.compressed_len,
        }
    }
}

} // verus!
