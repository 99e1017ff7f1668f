//! Candidate wordlists and their partitioning.
//!
//! A wordlist is newline-delimited text; one line is one candidate, with a
//! trailing carriage return stripped.  For `n` workers over a file of `s`
//! bytes, worker `i` is assigned the byte offset `i * (s / n)` and reads
//! from there to the end of the file, so the partitions overlap and the
//! last one absorbs the division remainder.  The boundary policy is fixed
//! here: a partition whose offset falls mid-line skips forward to the next
//! line start, so no worker ever evaluates a fragment of a candidate; the
//! partition at offset 0 always yields the whole wordlist.

use vstd::prelude::*;
use crate::bytes::{byte_views, copy_range};

verus! {

/// The index of the first newline at or after `i`, or the length of `b`.
pub open spec fn find_line_end(b: Seq<u8>, i: int) -> int
    decreases b.len() - i,
{
    if i < 0 || i >= b.len() {
        b.len() as int
    } else if b[i] == 10 {
        i
    } else {
        find_line_end(b, i + 1)
    }
}

/// Where `find_line_end` lands: on the first newline at or after `i`, with
/// none in between, or at the end of `b` when no newline remains.
pub proof fn lemma_find_line_end(b: Seq<u8>, i: int)
    requires
        0 <= i <= b.len(),
    ensures
        i <= find_line_end(b, i) <= b.len(),
        forall|k: int| i <= k < find_line_end(b, i) ==> #[trigger] b[k] != 10,
        find_line_end(b, i) < b.len() ==> b[find_line_end(b, i)] == 10,
    decreases b.len() - i,
{
    if i < b.len() && b[i] != 10 {
        lemma_find_line_end(b, i + 1);
    }
}

/// `l` with one trailing carriage return removed.
pub open spec fn strip_cr(l: Seq<u8>) -> Seq<u8> {
    if l.len() > 0 && l[l.len() - 1] == 13 {
        l.drop_last()
    } else {
        l
    }
}

/// The candidate lines of `b` from position `i` to the end: one candidate
/// per newline-separated line, each with a trailing carriage return
/// stripped; a final line needs no terminating newline.
pub open spec fn lines_from(b: Seq<u8>, i: int) -> Seq<Seq<u8>>
    decreases b.len() - i,
    via lines_from_decreases
{
    if i < 0 || i >= b.len() {
        Seq::empty()
    } else {
        let j = find_line_end(b, i);
        if j >= b.len() {
            seq![strip_cr(b.subrange(i, b.len() as int))]
        } else {
            seq![strip_cr(b.subrange(i, j))] + lines_from(b, j + 1)
        }
    }
}

#[via_fn]
proof fn lines_from_decreases(b: Seq<u8>, i: int) {
    if 0 <= i && i < b.len() {
        lemma_find_line_end(b, i);
    }
}

/// The boundary policy: an offset of 0 (or less) stays at 0; any other
/// offset moves forward to the first line start at or after it — the byte
/// just after the nearest newline — or to the end of `b` if none remains.
pub open spec fn aligned_start(b: Seq<u8>, s: int) -> int
    decreases b.len() - s,
{
    if s <= 0 {
        0
    } else if s >= b.len() {
        b.len() as int
    } else if b[s - 1] == 10 {
        s
    } else {
        aligned_start(b, s + 1)
    }
}

/// An aligned offset is within `b` and is the start of the file, the end of
/// the file, or the byte right after a newline.
pub proof fn lemma_aligned_start(b: Seq<u8>, s: int)
    ensures
        0 <= aligned_start(b, s) <= b.len(),
        aligned_start(b, s) == 0 || aligned_start(b, s) == b.len() || b[aligned_start(b, s) - 1]
            == 10,
        s <= 0 ==> aligned_start(b, s) == 0,
    decreases b.len() - s,
{
    if 0 < s && s < b.len() && b[s - 1] != 10 {
        lemma_aligned_start(b, s + 1);
    }
}

/// The candidates the worker assigned byte offset `s` evaluates.
pub open spec fn partition_candidates(b: Seq<u8>, s: int) -> Seq<Seq<u8>> {
    lines_from(b, aligned_start(b, s))
}

proof fn lemma_find_line_end_at(b: Seq<u8>, i: int, j: int)
    requires
        0 <= i <= j <= b.len(),
        forall|k: int| i <= k < j ==> #[trigger] b[k] != 10,
        j < b.len() ==> b[j] == 10,
    ensures
        find_line_end(b, i) == j,
    decreases j - i,
{
    if i < j {
        lemma_find_line_end_at(b, i + 1, j);
    }
}

/// The candidates of the partition assigned byte offset `start`: the lines
/// of `bytes` from the first line start at or after `start`, to the end.
pub fn split_lines(bytes: &Vec<u8>, start: usize) -> (lines: Vec<Vec<u8>>)
    ensures
        byte_views(lines@) == partition_candidates(bytes@, start as int),
{
    let ghost b = bytes@;
    let n = bytes.len();
    let mut p = if start > n {
        n
    } else {
        start
    };
    if p > 0 {
        while p < n && bytes[p - 1] != 10
            invariant
                0 < p <= n,
                n == b.len(),
                b == bytes@,
                aligned_start(b, start as int) == aligned_start(b, p as int),
            decreases n - p,
        {
            p += 1;
        }
    }
    proof {
        assert(aligned_start(b, start as int) == p);
    }
    let mut lines: Vec<Vec<u8>> = Vec::new();
    let mut i = p;
    proof {
        assert(byte_views(lines@) + lines_from(b, i as int) =~= lines_from(b, p as int));
    }
    while i < n
        invariant
            p <= i <= n,
            n == b.len(),
            b == bytes@,
            byte_views(lines@) + lines_from(b, i as int) == lines_from(b, p as int),
        decreases n - i,
    {
        let mut j = i;
        while j < n && bytes[j] != 10
            invariant
                i <= j <= n,
                n == b.len(),
                b == bytes@,
                forall|k: int| i <= k < j ==> #[trigger] b[k] != 10,
            decreases n - j,
        {
            j += 1;
        }
        proof {
            lemma_find_line_end_at(b, i as int, j as int);
        }
        let end = if j > i && bytes[j - 1] == 13 {
            j - 1
        } else {
            j
        };
        let line = copy_range(bytes, i, end);
        proof {
            assert(line@ =~= strip_cr(b.subrange(i as int, j as int)));
        }
        let ghost lprev = lines@;
        lines.push(line);
        let next = if j < n {
            j + 1
        } else {
            n
        };
        proof {
            assert(byte_views(lprev).len() == lprev.len());
            assert(byte_views(lines@) =~= byte_views(lprev).push(line@));
            assert(lines_from(b, i as int) =~= seq![line@] + lines_from(b, next as int));
            assert(byte_views(lines@) + lines_from(b, next as int) =~= byte_views(lprev) + (
            seq![line@] + lines_from(b, next as int)));
            assert(byte_views(lines@) + lines_from(b, next as int) =~= lines_from(b, p as int));
        }
        i = next;
    }
    proof {
        assert(byte_views(lines@) + lines_from(b, i as int) =~= byte_views(lines@));
    }
    lines
}

/// The byte offsets at which the workers' partitions begin: worker `i` of
/// `workers` starts at `i * (size / workers)`.  Every offset is within the
/// file, and the first is always 0.
pub fn partition_starts(size: usize, workers: usize) -> (starts: Vec<usize>)
    requires
        workers >= 1,
    ensures
        starts@.len() == workers,
        forall|i: int|
            0 <= i < workers ==> #[trigger] starts@[i] == i * ((size as int) / (workers as int)),
        forall|i: int| 0 <= i < workers ==> #[trigger] starts@[i] <= size,
        starts@[0] == 0,
{
    let spn = size / workers;
    proof {
        vstd::arithmetic::div_mod::lemma_fundamental_div_mod(size as int, workers as int);
        vstd::arithmetic::div_mod::lemma_mod_bound(size as int, workers as int);
        assert((workers as int) * (spn as int) <= size as int);
    }
    let mut starts: Vec<usize> = Vec::new();
    let mut i: usize = 0;
    while i < workers
        invariant
            i <= workers,
            workers >= 1,
            spn == (size as int) / (workers as int),
            (workers as int) * (spn as int) <= size as int,
            starts@.len() == i,
            forall|k: int| 0 <= k < i ==> #[trigger] starts@[k] == k * (spn as int),
            forall|k: int| 0 <= k < i ==> #[trigger] starts@[k] <= size,
        decreases workers - i,
    {
        proof {
            assert((i as int) * (spn as int) <= (workers as int) * (spn as int)) by (nonlinear_arith)
                requires
                    0 <= i as int <= workers as int,
                    0 <= spn as int,
            ;
        }
        let off = i * spn;
        starts.push(off);
        i += 1;
    }
    proof {
        assert(starts@[0] == 0 * (spn as int));
    }
    starts
}

/// Every candidate of a partition starting at a line start (or at the end)
/// is a candidate of the whole wordlist.
proof fn lemma_lines_suffix_subset(b: Seq<u8>, i: int, q: int)
    requires
        0 <= i <= q <= b.len(),
        q == b.len() || q == 0 || b[q - 1] == 10,
    ensures
        forall|l: Seq<u8>|
            lines_from(b, q).contains(l) ==> #[trigger] lines_from(b, i).contains(l),
    decreases q - i,
{
    if i < q && q < b.len() {
        lemma_find_line_end(b, i);
        let j = find_line_end(b, i);
        assert(j <= q - 1) by {
            if j > q - 1 {
                assert(b[q - 1] != 10);
            }
        }
        lemma_lines_suffix_subset(b, j + 1, q);
        assert forall|l: Seq<u8>| lines_from(b, q).contains(l) implies #[trigger] lines_from(
            b,
            i,
        ).contains(l) by {
            assert(lines_from(b, j + 1).contains(l));
            let k = choose|k: int|
                0 <= k < lines_from(b, j + 1).len() && #[trigger] lines_from(b, j + 1)[k] == l;
            assert(lines_from(b, i)[k + 1] == l);
        }
    }
}

/// Law (partitioning completeness): under the boundary policy above, the
/// partition at offset 0 yields exactly the wordlist's candidates, every
/// partition yields only candidates of the wordlist, and the union over any
/// worker assignment whose first offset is 0 — as `partition_starts` always
/// gives — is exactly the full candidate set: none is dropped, none is
/// invented.
pub proof fn lemma_partition_completeness(b: Seq<u8>, starts: Seq<int>)
    requires
        starts.len() > 0,
        starts[0] == 0,
    ensures
        partition_candidates(b, 0) == lines_from(b, 0),
        forall|s: int, l: Seq<u8>|
            #[trigger] partition_candidates(b, s).contains(l) ==> lines_from(b, 0).contains(l),
        forall|l: Seq<u8>|
            (exists|k: int|
                0 <= k < starts.len() && #[trigger] partition_candidates(b, starts[k]).contains(
                    l,
                )) <==> lines_from(b, 0).contains(l),
{
    assert forall|s: int, l: Seq<u8>| #[trigger] partition_candidates(b, s).contains(
        l,
    ) implies lines_from(b, 0).contains(l) by {
        lemma_aligned_start(b, s);
        lemma_lines_suffix_subset(b, 0, aligned_start(b, s));
    }
    assert forall|l: Seq<u8>| lines_from(b, 0).contains(l) implies (exists|k: int|
        0 <= k < starts.len() && #[trigger] partition_candidates(b, starts[k]).contains(l)) by {
        assert(partition_candidates(b, starts[0]).contains(l));
    }
}

} // verus!
