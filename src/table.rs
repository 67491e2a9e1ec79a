use vstd::prelude::*;

use crate::error::{ErrorView, ParseError};
use crate::key_code::{is_key_text, key_of, parse_key_code_chars, PrintKeyCode};
use crate::scanner::{
    block_views, is_delimiter, lemma_scan_without_delimiters, lines_of, scan, scan_blocks, split_lines,
    MARKER_RUN,
};
use crate::text::{chars_of, string_of};

verus! {

/// The three components of a print-key code.
pub type KeyView = (Seq<char>, Seq<char>, Seq<char>);

/// Parcel text blocks by print-key code; no key occurs twice.
#[derive(Debug)]
pub struct ParcelTable {
    entries: Vec<(PrintKeyCode, String)>,
}

impl View for ParcelTable {
    type V = Seq<(KeyView, Seq<char>)>;

    closed spec fn view(&self) -> Seq<(KeyView, Seq<char>)> {
        self.entries@.map_values(|e: (PrintKeyCode, String)| (e.0@, e.1@))
    }
}

impl ParcelTable {
    /// The number of parcels.
    pub fn len(&self) -> (r: usize)
        ensures
            r == self@.len(),
    {
        self.entries.len()
    }

    /// Whether the table holds no parcel.
    pub fn is_empty(&self) -> (r: bool)
        ensures
            r == (self@.len() == 0),
    {
        self.entries.len() == 0
    }

    /// The key and block text of the `i`-th parcel, in the order of the roll.
    pub fn entry(&self, i: usize) -> (r: (&PrintKeyCode, &String))
        requires
            i < self@.len(),
        ensures
            (r.0@, r.1@) == self@[i as int],
    {
        let e = &self.entries[i];
        (&e.0, &e.1)
    }

    /// The block text filed under `key`, if any.
    pub fn get(&self, key: &PrintKeyCode) -> (r: Option<&String>)
        ensures
            match r {
                Some(text) => exists|i: int| 0 <= i < self@.len() && #[trigger] self@[i] == (key@, text@),
                None => !has_key(self@, key@),
            },
    {
        let mut i: usize = 0;
        while i < self.entries.len()
            invariant
                i <= self.entries@.len() == self@.len(),
                forall|q: int| 0 <= q < i ==> self@[q].0 != key@,
            decreases self.entries.len() - i,
        {
            let e = &self.entries[i];
            assert(self@[i as int] == (e.0@, e.1@));
            if e.0 == *key {
                return Some(&e.1);
            }
            i = i + 1;
        }
        None
    }

    /// Whether a parcel is filed under `key`.
    pub fn contains_key(&self, key: &PrintKeyCode) -> (r: bool)
        ensures
            r == has_key(self@, key@),
    {
        match self.get(key) {
            Some(text) => {
                proof {
                    let i = choose|i: int| 0 <= i < self@.len() && #[trigger] self@[i] == (key@, text@);
                    assert(self@[i].0 == key@);
                }
                true
            },
            None => false,
        }
    }
}

/// Some entry of `t` has key `k`.
pub open spec fn has_key(t: Seq<(KeyView, Seq<char>)>, k: KeyView) -> bool {
    exists|i: int| 0 <= i < t.len() && #[trigger] t[i].0 == k
}

/// No two entries of `t` share a key.
pub open spec fn keys_distinct(t: Seq<(KeyView, Seq<char>)>) -> bool {
    forall|i: int, j: int| 0 <= i < j < t.len() ==> #[trigger] t[i].0 != #[trigger] t[j].0
}

/// The table that a sequence of (marker text, block text) pairs gives, block by
/// block: a marker text that is not key text fails with that text, a key already
/// in the table fails with that key, and otherwise the block is added under its key.
pub open spec fn assemble(blocks: Seq<(Seq<char>, Seq<char>)>) -> Result<Seq<(KeyView, Seq<char>)>, ErrorView>
    decreases blocks.len(),
{
    if blocks.len() == 0 {
        Ok(Seq::empty())
    } else {
        match assemble(blocks.drop_last()) {
            Err(e) => Err(e),
            Ok(t) => {
                let m = blocks.last().0;
                if !is_key_text(m) {
                    Err(ErrorView::Malformed(m))
                } else if has_key(t, key_of(m)) {
                    Err(ErrorView::Duplicate(key_of(m)))
                } else {
                    Ok(t.push((key_of(m), blocks.last().1)))
                }
            },
        }
    }
}

/// The outcome of reading a whole document as a roll.
pub open spec fn parcel_table_of(doc: Seq<char>) -> Result<Seq<(KeyView, Seq<char>)>, ErrorView> {
    assemble(scan(lines_of(doc), MARKER_RUN as nat))
}

/// The mathematical content of a table or an error.
pub open spec fn result_view(r: Result<ParcelTable, ParseError>) -> Result<Seq<(KeyView, Seq<char>)>, ErrorView> {
    match r {
        Ok(t) => Ok(t@),
        Err(e) => Err(e@),
    }
}

/// Every block's marker text is key text.
pub open spec fn all_key_text(b: Seq<(Seq<char>, Seq<char>)>) -> bool {
    forall|k: int| 0 <= k < b.len() ==> is_key_text(#[trigger] b[k].0)
}

/// No two blocks' marker texts denote the same key.
pub open spec fn keys_unique(b: Seq<(Seq<char>, Seq<char>)>) -> bool {
    forall|i: int, j: int| 0 <= i < j < b.len() ==> key_of(#[trigger] b[i].0) != key_of(#[trigger] b[j].0)
}

/// Each block under the key that its marker text denotes, in order.
pub open spec fn entries_of(b: Seq<(Seq<char>, Seq<char>)>) -> Seq<(KeyView, Seq<char>)> {
    b.map_values(|p: (Seq<char>, Seq<char>)| (key_of(p.0), p.1))
}

/// The outcome is a duplicate-key failure.
pub open spec fn is_duplicate_error(r: Result<Seq<(KeyView, Seq<char>)>, ErrorView>) -> bool {
    match r {
        Err(ErrorView::Duplicate(_)) => true,
        _ => false,
    }
}

/// Assembly succeeds exactly when every marker text is key text and no key repeats,
/// and then holds each block under its key, in order; when every marker text is
/// key text, the only way it fails is on a duplicate key.
pub proof fn lemma_assemble(b: Seq<(Seq<char>, Seq<char>)>)
    ensures
        assemble(b) is Ok <==> all_key_text(b) && keys_unique(b),
        all_key_text(b) && keys_unique(b) ==> assemble(b) == Ok::<Seq<(KeyView, Seq<char>)>, ErrorView>(entries_of(b)),
        all_key_text(b) && !keys_unique(b) ==> is_duplicate_error(assemble(b)),
        assemble(b) is Ok ==> keys_distinct(entries_of(b)),
    decreases b.len(),
{
    if b.len() == 0 {
        assert(entries_of(b) =~= Seq::<(KeyView, Seq<char>)>::empty());
    } else {
        let b0 = b.drop_last();
        let n = b.len() - 1;
        lemma_assemble(b0);
        assert(forall|k: int| 0 <= k < n ==> b0[k] == b[k]);
        assert(b.last() == b[n]);
        if all_key_text(b) {
            assert(all_key_text(b0));
        }
        if keys_unique(b) {
            assert(keys_unique(b0));
        }
        match assemble(b0) {
            Err(e) => {},
            Ok(t) => {
                let m = b.last().0;
                if !is_key_text(m) {
                } else if has_key(t, key_of(m)) {
                    let i = choose|i: int| 0 <= i < t.len() && #[trigger] t[i].0 == key_of(m);
                    assert(t[i] == entries_of(b0)[i]);
                    assert(key_of(b[i].0) == key_of(b[n].0));
                } else {
                    assert forall|k: int| 0 <= k < b.len() implies is_key_text(#[trigger] b[k].0) by {
                        if k < n {
                            assert(is_key_text(b0[k].0));
                        }
                    }
                    assert forall|i: int, j: int| 0 <= i < j < b.len() implies key_of(#[trigger] b[i].0)
                        != key_of(#[trigger] b[j].0) by {
                        if j < n {
                            assert(key_of(b0[i].0) != key_of(b0[j].0));
                        } else {
                            assert(t[i] == entries_of(b0)[i]);
                            assert(t[i].0 != key_of(m));
                        }
                    }
                    assert(entries_of(b) =~= t.push((key_of(m), b.last().1)));
                }
            },
        }
        if assemble(b) is Ok {
            let e = entries_of(b);
            assert forall|i: int, j: int| 0 <= i < j < e.len() implies #[trigger] e[i].0 != #[trigger] e[j].0 by {
                assert(key_of(b[i].0) != key_of(b[j].0));
            }
        }
    }
}

/// A roll with two blocks under the same marker text, all of whose blocks carry key
/// text, fails with a duplicate key and yields no table.
pub proof fn lemma_duplicate_key_fails(doc: Seq<char>, i: int, j: int)
    requires
        0 <= i < j < scan(lines_of(doc), MARKER_RUN as nat).len(),
        scan(lines_of(doc), MARKER_RUN as nat)[i].0 == scan(lines_of(doc), MARKER_RUN as nat)[j].0,
        all_key_text(scan(lines_of(doc), MARKER_RUN as nat)),
    ensures
        is_duplicate_error(parcel_table_of(doc)),
{
    let b = scan(lines_of(doc), MARKER_RUN as nat);
    lemma_assemble(b);
    assert(key_of(b[i].0) == key_of(b[j].0));
}

/// A roll without delimiter lines gives an empty table.
pub proof fn lemma_no_delimiters_empty(doc: Seq<char>)
    requires
        forall|k: int| 0 <= k < lines_of(doc).len() ==> !is_delimiter(#[trigger] lines_of(doc)[k], MARKER_RUN as nat),
    ensures
        scan(lines_of(doc), MARKER_RUN as nat).len() == 0,
        parcel_table_of(doc) == Ok::<Seq<(KeyView, Seq<char>)>, ErrorView>(Seq::empty()),
{
    lemma_scan_without_delimiters(lines_of(doc), 0, MARKER_RUN as nat);
}

/// Reading the same roll twice gives the same table, or the same error.
pub proof fn lemma_reparse_identical(doc: Seq<char>, first: Result<ParcelTable, ParseError>, second: Result<ParcelTable, ParseError>)
    requires
        result_view(first) == parcel_table_of(doc),
        result_view(second) == parcel_table_of(doc),
    ensures
        result_view(first) == result_view(second),
{
}

proof fn lemma_assemble_err_prefix(b: Seq<(Seq<char>, Seq<char>)>, k: int)
    requires
        0 <= k <= b.len(),
        assemble(b.take(k)) is Err,
    ensures
        assemble(b) == assemble(b.take(k)),
    decreases b.len() - k,
{
    if k == b.len() {
        assert(b.take(k) =~= b);
    } else {
        assert(b.take(k + 1).drop_last() =~= b.take(k));
        lemma_assemble_err_prefix(b, k + 1);
    }
}

/// Builds the table from (marker text, block text) pairs, stopping at the first
/// marker text that is not a key code, or the first key seen twice.
#[verifier::loop_isolation(false)]
pub fn assemble_table(blocks: &Vec<(Vec<char>, Vec<char>)>) -> (r: Result<ParcelTable, ParseError>)
    ensures
        result_view(r) == assemble(block_views(blocks@)),
{
    let ghost b = block_views(blocks@);
    let mut entries: Vec<(PrintKeyCode, String)> = Vec::new();
    let mut i: usize = 0;
    assert(b.take(0) =~= Seq::<(Seq<char>, Seq<char>)>::empty());
    assert((ParcelTable { entries })@ =~= Seq::<(KeyView, Seq<char>)>::empty());
    while i < blocks.len()
        invariant
            i <= blocks@.len() == b.len(),
            b == block_views(blocks@),
            assemble(b.take(i as int)) == Ok::<Seq<(KeyView, Seq<char>)>, ErrorView>((ParcelTable { entries })@),
        decreases blocks.len() - i,
    {
        let ghost t = (ParcelTable { entries })@;
        assert(b.take(i + 1).drop_last() =~= b.take(i as int));
        assert(b.take(i + 1).last() == b[i as int]);
        assert(b[i as int] == (blocks@[i as int].0@, blocks@[i as int].1@));
        match parse_key_code_chars(&blocks[i].0) {
            Err(e) => {
                proof {
                    lemma_assemble_err_prefix(b, i + 1);
                }
                return Err(e);
            },
            Ok(key) => {
                let mut k: usize = 0;
                while k < entries.len()
                    invariant
                        k <= entries@.len(),
                        t == (ParcelTable { entries })@,
                        forall|q: int| 0 <= q < k ==> t[q].0 != key@,
                    decreases entries.len() - k,
                {
                    assert(t[k as int].0 == entries@[k as int].0@);
                    if entries[k].0 == key {
                        proof {
                            assert(has_key(t, key@));
                            lemma_assemble_err_prefix(b, i + 1);
                        }
                        return Err(ParseError::DuplicateKeyCode { key });
                    }
                    k = k + 1;
                }
                assert(!has_key(t, key@));
                let text = string_of(&blocks[i].1);
                let ghost entry = (key@, text@);
                entries.push((key, text));
                assert((ParcelTable { entries })@ =~= t.push(entry));
            },
        }
        i = i + 1;
    }
    assert(b.take(b.len() as int) =~= b);
    Ok(ParcelTable { entries })
}

/// Reads a roll: splits it into lines, cuts the lines into blocks at delimiter
/// lines (a run of at least `MARKER_RUN` markers), parses each block's marker text
/// as a print-key code and builds the table. Fails on the first malformed key code
/// or the first key code seen twice, and then returns no table.
pub fn parse_parcels(input: &str) -> (r: Result<ParcelTable, ParseError>)
    ensures
        result_view(r) == parcel_table_of(input@),
{
    let doc = chars_of(input);
    let lines = split_lines(&doc);
    let blocks = scan_blocks(&lines, MARKER_RUN);
    assemble_table(&blocks)
}

} // verus!
