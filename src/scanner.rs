use vstd::prelude::*;

use crate::text::{split, split_chars, trim, trim_chars, views};

verus! {

/// The character that pads and frames delimiter lines.
pub const MARKER: char = '*';

/// How many marker characters in a row make a line a delimiter in the roll format.
pub const MARKER_RUN: usize = 103;

/// The line with a trailing carriage return removed.
pub open spec fn strip_cr(l: Seq<char>) -> Seq<char> {
    if l.len() > 0 && l.last() == '\r' {
        l.drop_last()
    } else {
        l
    }
}

/// The lines of a document: cut at each newline, a final empty piece dropped
/// (a document that ends in a newline has no empty last line), and a carriage
/// return at the end of each line dropped.
pub open spec fn lines_of(doc: Seq<char>) -> Seq<Seq<char>> {
    let p = split(doc, '\n');
    let p = if p.last().len() == 0 {
        p.drop_last()
    } else {
        p
    };
    p.map_values(|l: Seq<char>| strip_cr(l))
}

/// Positions `s .. s + run` of `line` exist and all hold the marker.
pub open spec fn marker_run_at(line: Seq<char>, s: int, run: nat) -> bool {
    0 <= s && s + run <= line.len() && forall|k: int| s <= k < s + run ==> line[k] == MARKER
}

/// The line holds a run of at least `run` consecutive marker characters.
pub open spec fn is_delimiter(line: Seq<char>, run: nat) -> bool {
    exists|s: int| marker_run_at(line, s, run)
}

/// The line with every marker character removed.
pub open spec fn remove_markers(line: Seq<char>) -> Seq<char>
    decreases line.len(),
{
    if line.len() == 0 {
        line
    } else if line.last() == MARKER {
        remove_markers(line.drop_last())
    } else {
        remove_markers(line.drop_last()).push(line.last())
    }
}

/// What a delimiter line carries besides its padding: markers removed, then trimmed.
pub open spec fn marker_text(line: Seq<char>) -> Seq<char> {
    trim(remove_markers(line))
}

/// A delimiter line that carries text, and so starts a block.
pub open spec fn starts_block(line: Seq<char>, run: nat) -> bool {
    is_delimiter(line, run) && marker_text(line).len() > 0
}

/// The lines joined with a newline between each two.
pub open spec fn join_lines(ls: Seq<Seq<char>>) -> Seq<char>
    decreases ls.len(),
{
    if ls.len() == 0 {
        Seq::empty()
    } else if ls.len() == 1 {
        ls[0]
    } else {
        join_lines(ls.drop_last()) + seq!['\n'] + ls.last()
    }
}

/// Splits a document into its lines.
pub fn split_lines(doc: &Vec<char>) -> (r: Vec<Vec<char>>)
    ensures
        views(r@) == lines_of(doc@),
{
    let parts = split_chars(doc, '\n');
    proof {
        crate::text::lemma_split_nonempty(doc@, '\n');
    }
    let ghost p = views(parts@);
    let n = if parts[parts.len() - 1].len() == 0 {
        parts.len() - 1
    } else {
        parts.len()
    };
    let ghost q = if p.last().len() == 0 {
        p.drop_last()
    } else {
        p
    };
    assert(q.len() == n);
    let mut r: Vec<Vec<char>> = Vec::new();
    let mut i: usize = 0;
    while i < n
        invariant
            i <= n <= parts@.len(),
            q.len() == n,
            forall|k: int| 0 <= k < n ==> q[k] == #[trigger] parts@[k]@,
            views(r@) == q.take(i as int).map_values(|l: Seq<char>| strip_cr(l)),
        decreases n - i,
    {
        let line = &parts[i];
        let len = line.len();
        let keep = if len > 0 && line[len - 1] == '\r' {
            len - 1
        } else {
            len
        };
        let mut l: Vec<char> = Vec::new();
        let mut k: usize = 0;
        while k < keep
            invariant
                k <= keep <= len,
                len == line@.len(),
                l@ == line@.take(k as int),
            decreases keep - k,
        {
            l.push(line[k]);
            k = k + 1;
            assert(l@ =~= line@.take(k as int));
        }
        assert(l@ =~= strip_cr(line@));
        let ghost before = views(r@);
        r.push(l);
        assert(views(r@) =~= before.push(strip_cr(q[i as int])));
        assert(q.take(i + 1) =~= q.take(i as int).push(q[i as int]));
        assert(views(r@) =~= q.take(i + 1).map_values(|l: Seq<char>| strip_cr(l)));
        i = i + 1;
    }
    assert(q.take(n as int) =~= q);
    r
}

/// Whether `line` holds a run of at least `run` marker characters.
pub fn is_delimiter_line(line: &Vec<char>, run: usize) -> (r: bool)
    ensures
        r == is_delimiter(line@, run as nat),
{
    if run == 0 {
        assert(marker_run_at(line@, 0, 0));
        return true;
    }
    let mut cnt: usize = 0;
    let mut i: usize = 0;
    while i < line.len()
        invariant
            0 < run,
            cnt <= i <= line@.len(),
            cnt < run,
            forall|k: int| i - cnt <= k < i ==> line@[k] == MARKER,
            cnt < i ==> line@[i - cnt - 1] != MARKER,
            forall|s: int| s + run <= i ==> !#[trigger] marker_run_at(line@, s, run as nat),
        decreases line.len() - i,
    {
        if line[i] == MARKER {
            cnt = cnt + 1;
            if cnt >= run {
                assert(marker_run_at(line@, i + 1 - run, run as nat));
                return true;
            }
        } else {
            cnt = 0;
        }
        i = i + 1;
        assert forall|s: int| s + run <= i implies !#[trigger] marker_run_at(line@, s, run as nat) by {
            if s + run == i && 0 <= s {
                if cnt == 0 {
                    assert(line@[i - 1] != MARKER);
                } else {
                    assert(line@[i - cnt - 1] != MARKER);
                }
            }
        }
    }
    false
}

/// The first index at or after `i` that holds a delimiter line, or the number of lines.
pub open spec fn next_delimiter(lines: Seq<Seq<char>>, i: int, run: nat) -> int
    decreases lines.len() - i,
{
    if i >= lines.len() {
        lines.len() as int
    } else if is_delimiter(lines[i], run) {
        i
    } else {
        next_delimiter(lines, i + 1, run)
    }
}

pub proof fn lemma_next_delimiter_bounds(lines: Seq<Seq<char>>, i: int, run: nat)
    requires
        0 <= i,
    ensures
        next_delimiter(lines, i, run) >= i || (i > lines.len() && next_delimiter(lines, i, run) == lines.len()),
        i <= lines.len() ==> next_delimiter(lines, i, run) <= lines.len(),
    decreases lines.len() - i,
{
    if i < lines.len() && !is_delimiter(lines[i], run) {
        lemma_next_delimiter_bounds(lines, i + 1, run);
    }
}

/// The blocks of the lines from index `i` on: each line that starts a block gives
/// its marker text and the lines after it up to the next delimiter line, joined.
/// Lines outside blocks are passed over.
pub open spec fn scan_from(lines: Seq<Seq<char>>, i: int, run: nat) -> Seq<(Seq<char>, Seq<char>)>
    decreases lines.len() - i,
    via scan_from_decreases
{
    if i < 0 || i >= lines.len() {
        Seq::empty()
    } else if starts_block(lines[i], run) {
        let j = next_delimiter(lines, i + 1, run);
        seq![(marker_text(lines[i]), join_lines(lines.subrange(i + 1, j)))] + scan_from(lines, j, run)
    } else {
        scan_from(lines, i + 1, run)
    }
}

#[via_fn]
proof fn scan_from_decreases(lines: Seq<Seq<char>>, i: int, run: nat) {
    if 0 <= i < lines.len() && starts_block(lines[i], run) {
        lemma_next_delimiter_bounds(lines, i + 1, run);
    }
}

/// The blocks of a whole sequence of lines.
pub open spec fn scan(lines: Seq<Seq<char>>, run: nat) -> Seq<(Seq<char>, Seq<char>)> {
    scan_from(lines, 0, run)
}

/// Lines without a delimiter line among them hold no block.
pub proof fn lemma_scan_without_delimiters(lines: Seq<Seq<char>>, i: int, run: nat)
    requires
        0 <= i,
        forall|k: int| i <= k < lines.len() ==> !is_delimiter(#[trigger] lines[k], run),
    ensures
        scan_from(lines, i, run).len() == 0,
    decreases lines.len() - i,
{
    if i < lines.len() {
        lemma_scan_without_delimiters(lines, i + 1, run);
    }
}

/// Every block carries marker text: a key is never made from padding alone.
pub proof fn lemma_blocks_have_marker_text(lines: Seq<Seq<char>>, i: int, run: nat)
    ensures
        forall|k: int| 0 <= k < scan_from(lines, i, run).len() ==> (#[trigger] scan_from(lines, i, run)[k]).0.len() > 0,
    decreases lines.len() - i,
{
    if 0 <= i < lines.len() {
        if starts_block(lines[i], run) {
            let j = next_delimiter(lines, i + 1, run);
            lemma_next_delimiter_bounds(lines, i + 1, run);
            lemma_blocks_have_marker_text(lines, j, run);
            let head = seq![(marker_text(lines[i]), join_lines(lines.subrange(i + 1, j)))];
            assert forall|k: int| 0 <= k < scan_from(lines, i, run).len() implies (#[trigger] scan_from(lines, i, run)[k]).0.len() > 0 by {
                assert(scan_from(lines, i, run) == head + scan_from(lines, j, run));
                if k > 0 {
                    assert(scan_from(lines, i, run)[k] == scan_from(lines, j, run)[k - 1]);
                } else {
                    assert(scan_from(lines, i, run)[k] == head[0]);
                }
            }
        } else {
            lemma_blocks_have_marker_text(lines, i + 1, run);
            assert(scan_from(lines, i, run) == scan_from(lines, i + 1, run));
        }
    }
}

proof fn lemma_next_delimiter_prefix(lines: Seq<Seq<char>>, m: int, k: int, run: nat)
    requires
        0 <= m <= k < lines.len(),
        is_delimiter(lines[k], run),
    ensures
        next_delimiter(lines, m, run) == next_delimiter(lines.take(k), m, run),
        next_delimiter(lines, m, run) <= k,
    decreases k - m,
{
    if m < k {
        assert(lines.take(k)[m] == lines[m]);
        if !is_delimiter(lines[m], run) {
            lemma_next_delimiter_prefix(lines, m + 1, k, run);
        }
    }
}

proof fn lemma_band_cuts_from(lines: Seq<Seq<char>>, i: int, k: int, run: nat)
    requires
        0 <= i <= k < lines.len(),
        is_delimiter(lines[k], run),
        marker_text(lines[k]).len() == 0,
    ensures
        scan_from(lines, i, run) == scan_from(lines.take(k), i, run) + scan_from(lines, k + 1, run),
    decreases k - i,
{
    let pre = lines.take(k);
    if i == k {
        assert(scan_from(pre, i, run) =~= Seq::<(Seq<char>, Seq<char>)>::empty());
        assert(scan_from(lines, k + 1, run) =~= Seq::<(Seq<char>, Seq<char>)>::empty() + scan_from(lines, k + 1, run));
    } else {
        assert(pre[i] == lines[i]);
        if starts_block(lines[i], run) {
            let j = next_delimiter(lines, i + 1, run);
            lemma_next_delimiter_prefix(lines, i + 1, k, run);
            lemma_next_delimiter_bounds(lines, i + 1, run);
            assert(lines.subrange(i + 1, j) =~= pre.subrange(i + 1, j));
            lemma_band_cuts_from(lines, j, k, run);
            let head = seq![(marker_text(lines[i]), join_lines(lines.subrange(i + 1, j)))];
            assert(head + (scan_from(pre, j, run) + scan_from(lines, k + 1, run)) =~= (head + scan_from(pre, j, run)) + scan_from(lines, k + 1, run));
        } else {
            lemma_band_cuts_from(lines, i + 1, k, run);
        }
    }
}

/// A delimiter line that carries no text (a band of padding) starts no block and
/// ends the one before it: the blocks are those of the lines before it followed by
/// those of the lines after it, and no line after it joins a block that began before.
pub proof fn lemma_band_cuts(lines: Seq<Seq<char>>, k: int, run: nat)
    requires
        0 <= k < lines.len(),
        is_delimiter(lines[k], run),
        marker_text(lines[k]).len() == 0,
    ensures
        scan(lines, run) == scan(lines.take(k), run) + scan_from(lines, k + 1, run),
{
    lemma_band_cuts_from(lines, 0, k, run);
}

/// The character sequences held by a sequence of (marker, text) vector pairs.
pub open spec fn block_views(b: Seq<(Vec<char>, Vec<char>)>) -> Seq<(Seq<char>, Seq<char>)> {
    b.map_values(|p: (Vec<char>, Vec<char>)| (p.0@, p.1@))
}

/// Removes every marker character from the line, then trims it.
pub fn marker_text_of(line: &Vec<char>) -> (r: Vec<char>)
    ensures
        r@ == marker_text(line@),
{
    let mut kept: Vec<char> = Vec::new();
    let mut i: usize = 0;
    while i < line.len()
        invariant
            i <= line@.len(),
            kept@ == remove_markers(line@.take(i as int)),
        decreases line.len() - i,
    {
        assert(line@.take(i + 1).drop_last() =~= line@.take(i as int));
        if line[i] != MARKER {
            kept.push(line[i]);
        }
        i = i + 1;
    }
    assert(line@.take(line@.len() as int) =~= line@);
    trim_chars(&kept)
}

/// Partitions the lines into blocks: for each delimiter line (a run of at least
/// `run` markers) that carries text once markers and surrounding white space are
/// removed, that text and the following lines up to the next delimiter line,
/// joined by newlines. Delimiter lines that carry no text start no block, and
/// lines before the first block or after such a line until the next delimiter
/// belong to none.
pub fn scan_blocks(lines: &Vec<Vec<char>>, run: usize) -> (r: Vec<(Vec<char>, Vec<char>)>)
    ensures
        block_views(r@) == scan(views(lines@), run as nat),
{
    let ghost ls = views(lines@);
    let n = lines.len();
    let mut out: Vec<(Vec<char>, Vec<char>)> = Vec::new();
    let mut i: usize = 0;
    assert(block_views(out@) + scan_from(ls, 0, run as nat) =~= scan_from(ls, 0, run as nat));
    while i < n
        invariant
            i <= n == lines@.len() == ls.len(),
            ls == views(lines@),
            block_views(out@) + scan_from(ls, i as int, run as nat) == scan(ls, run as nat),
        decreases n - i,
    {
        assert(ls[i as int] == lines@[i as int]@);
        let marker = marker_text_of(&lines[i]);
        if marker.len() > 0 && is_delimiter_line(&lines[i], run) {
            let mut text: Vec<char> = Vec::new();
            let mut j: usize = i + 1;
            assert(ls.subrange(i + 1, j as int) =~= Seq::<Seq<char>>::empty());
            while j < n && !is_delimiter_line(&lines[j], run)
                invariant
                    i < j <= n == lines@.len() == ls.len(),
                    ls == views(lines@),
                    text@ == join_lines(ls.subrange(i + 1, j as int)),
                    next_delimiter(ls, i + 1, run as nat) == next_delimiter(ls, j as int, run as nat),
                decreases n - j,
            {
                assert(ls[j as int] == lines@[j as int]@);
                let line = &lines[j];
                if j > i + 1 {
                    text.push('\n');
                }
                let mut k: usize = 0;
                let ghost start = text@;
                while k < line.len()
                    invariant
                        k <= line@.len(),
                        text@ == start + line@.take(k as int),
                    decreases line.len() - k,
                {
                    text.push(line[k]);
                    k = k + 1;
                    assert(text@ =~= start + line@.take(k as int));
                }
                assert(line@.take(line@.len() as int) =~= line@);
                let ghost sub = ls.subrange(i + 1, j + 1);
                assert(sub.drop_last() =~= ls.subrange(i + 1, j as int));
                assert(sub.last() == line@);
                assert(text@ =~= join_lines(sub));
                j = j + 1;
            }
            assert(j < n ==> ls[j as int] == lines@[j as int]@);
            assert(next_delimiter(ls, j as int, run as nat) == j);
            let ghost before = block_views(out@);
            let ghost entry = (marker@, text@);
            out.push((marker, text));
            assert(block_views(out@) =~= before.push(entry));
            assert(before.push(entry) + scan_from(ls, j as int, run as nat) =~= before + (seq![entry] + scan_from(ls, j as int, run as nat)));
            i = j;
        } else {
            i = i + 1;
        }
    }
    out
}

} // verus!
