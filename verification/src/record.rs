//! The per-file record produced by hashing and consumed by grouping,
//! together with the total order used to sort a duplicate group.
use vstd::prelude::*;
use crate::order::{lex_le, lemma_lex_le_antisym, lemma_lex_le_refl, lemma_lex_le_total,
    lemma_lex_le_trans, str_lex_le};

verus! {

/// One successfully hashed regular file: its path, its byte count and the
/// encoded digest of its full content. Immutable once created.
#[derive(Debug)]
pub struct FileRecord {
    pub path: String,
    pub size: u64,
    pub digest: String,
}

/// The mathematical content of a `FileRecord`.
#[verifier::ext_equal]
pub ghost struct RecordView {
    pub path: Seq<char>,
    pub size: u64,
    pub digest: Seq<char>,
}

impl View for FileRecord {
    type V = RecordView;

    open spec fn view(&self) -> RecordView {
        RecordView { path: self.path@, size: self.size, digest: self.digest@ }
    }
}

/// Total order on records: by path, then by size, then by digest.
/// Within one duplicate group all digests and sizes agree, so there it
/// orders by path alone, as the retention policy asks.
pub open spec fn rec_le(a: RecordView, b: RecordView) -> bool {
    if a.path != b.path {
        lex_le(a.path, b.path)
    } else if a.size != b.size {
        a.size < b.size
    } else {
        lex_le(a.digest, b.digest)
    }
}

/// `rec_le` as a value, for `sort_by` and `sorted_by`.
pub open spec fn rec_le_fn() -> spec_fn(RecordView, RecordView) -> bool {
    |a: RecordView, b: RecordView| rec_le(a, b)
}

/// `rec_le` is a total order on record views.
pub proof fn lemma_rec_le_total_ordering()
    ensures
        vstd::relations::total_ordering(rec_le_fn()),
{
    let leq = rec_le_fn();
    assert forall|a: RecordView| #[trigger] leq(a, a) by {
        lemma_lex_le_refl(a.path);
        lemma_lex_le_refl(a.digest);
    }
    assert forall|a: RecordView, b: RecordView| #[trigger] leq(a, b) && #[trigger] leq(b, a)
        implies a == b by {
        if a.path != b.path {
            lemma_lex_le_antisym(a.path, b.path);
        } else if a.size == b.size {
            lemma_lex_le_antisym(a.digest, b.digest);
            assert(a =~= b);
        }
    }
    assert forall|a: RecordView, b: RecordView, c: RecordView|
        #[trigger] leq(a, b) && #[trigger] leq(b, c) implies leq(a, c) by {
        lemma_rec_le_trans(a, b, c);
    }
    assert forall|a: RecordView, b: RecordView| #[trigger] leq(a, b) || #[trigger] leq(b, a) by {
        if a.path != b.path {
            lemma_lex_le_total(a.path, b.path);
        } else if a.size == b.size {
            lemma_lex_le_total(a.digest, b.digest);
        }
    }
}

proof fn lemma_rec_le_trans(a: RecordView, b: RecordView, c: RecordView)
    requires
        rec_le(a, b),
        rec_le(b, c),
    ensures
        rec_le(a, c),
{
    if a.path == b.path && b.path == c.path {
        if a.size == b.size && b.size == c.size {
            lemma_lex_le_trans(a.digest, b.digest, c.digest);
        }
    } else if a.path == b.path {
        // a.path == b.path != c.path: order decided between b and c
    } else if b.path == c.path {
        // a.path != b.path == c.path: order decided between a and b
    } else {
        lemma_lex_le_trans(a.path, b.path, c.path);
        if a.path == c.path {
            lemma_lex_le_antisym(a.path, b.path);
        }
    }
}

/// Decides `rec_le` on two records.
pub fn rec_le_exec(a: &FileRecord, b: &FileRecord) -> (r: bool)
    ensures
        r == rec_le(a@, b@),
{
    if !(a.path == b.path) {
        str_lex_le(&a.path, &b.path)
    } else if a.size != b.size {
        a.size < b.size
    } else {
        str_lex_le(&a.digest, &b.digest)
    }
}

} // verus!
