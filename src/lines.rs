//! The line structure of a record file: where complete lines begin and what they hold.
use vstd::prelude::*;

verus! {

/// The byte that ends every record line.
pub const NEWLINE: u8 = 10;

/// Where the line that `b` ends in begins: one past its last newline, or zero.
pub open spec fn tail_start(b: Seq<u8>) -> int
    decreases b.len(),
{
    if b.len() == 0 {
        0
    } else if b.last() == NEWLINE {
        b.len() as int
    } else {
        tail_start(b.drop_last())
    }
}

/// `b` is empty or ends with a newline: it holds no partial line.
pub open spec fn ends_clean(b: Seq<u8>) -> bool {
    tail_start(b) == b.len()
}

/// The offsets at which the complete lines of `b` begin; an unterminated tail is no line.
pub open spec fn line_starts(b: Seq<u8>) -> Seq<int>
    decreases b.len(),
{
    if b.len() == 0 {
        Seq::empty()
    } else if b.last() == NEWLINE {
        line_starts(b.drop_last()).push(tail_start(b.drop_last()))
    } else {
        line_starts(b.drop_last())
    }
}

/// The complete lines of `b`, each without its terminating newline.
pub open spec fn lines(b: Seq<u8>) -> Seq<Seq<u8>>
    decreases b.len(),
{
    if b.len() == 0 {
        Seq::empty()
    } else if b.last() == NEWLINE {
        let p = b.drop_last();
        lines(p).push(p.subrange(tail_start(p), p.len() as int))
    } else {
        lines(b.drop_last())
    }
}

/// The offsets as mathematical integers.
pub open spec fn as_ints(s: Seq<u64>) -> Seq<int> {
    s.map_values(|o: u64| o as int)
}

/// The shape of the line structure: the tail starts after every complete line, the
/// starts increase strictly, and there is one start per line.
pub proof fn lemma_line_shape(b: Seq<u8>)
    ensures
        0 <= tail_start(b) <= b.len(),
        tail_start(b) > 0 ==> b[tail_start(b) - 1] == NEWLINE,
        forall|i: int| tail_start(b) <= i < b.len() ==> b[i] != NEWLINE,
        line_starts(b).len() == lines(b).len(),
        line_starts(b).len() <= tail_start(b),
        forall|i: int| 0 <= i < line_starts(b).len() ==> 0 <= #[trigger] line_starts(b)[i] < tail_start(b),
        forall|i: int, j: int|
            0 <= i < j < line_starts(b).len() ==> line_starts(b)[i] < line_starts(b)[j],
    decreases b.len(),
{
    if b.len() > 0 {
        let p = b.drop_last();
        lemma_line_shape(p);
        assert forall|i: int| tail_start(b) <= i < b.len() implies b[i] != NEWLINE by {
            if i < p.len() {
                assert(b[i] == p[i]);
            }
        }
    }
}

/// Each complete line sits at its start offset and is followed there by a newline.
pub proof fn lemma_line_at_start(b: Seq<u8>, i: int)
    requires
        0 <= i < lines(b).len(),
    ensures
        line_starts(b)[i] + lines(b)[i].len() < b.len(),
        b.subrange(line_starts(b)[i], line_starts(b)[i] + lines(b)[i].len()) == lines(b)[i],
        b[line_starts(b)[i] + lines(b)[i].len()] == NEWLINE,
        !lines(b)[i].contains(NEWLINE),
    decreases b.len(),
{
    let p = b.drop_last();
    lemma_line_shape(b);
    lemma_line_shape(p);
    if b.last() == NEWLINE {
        if i < lines(p).len() {
            lemma_line_at_start(p, i);
            assert(b.subrange(line_starts(b)[i], line_starts(b)[i] + lines(b)[i].len())
                =~= p.subrange(line_starts(p)[i], line_starts(p)[i] + lines(p)[i].len()));
        } else {
            let l = p.subrange(tail_start(p), p.len() as int);
            assert(b.subrange(tail_start(p), p.len() as int) =~= l);
            if l.contains(NEWLINE) {
                let k = choose|k: int| 0 <= k < l.len() && l[k] == NEWLINE;
                assert(p[tail_start(p) + k] == NEWLINE);
            }
        }
    } else {
        lemma_line_at_start(p, i);
        assert(b.subrange(line_starts(b)[i], line_starts(b)[i] + lines(b)[i].len())
            =~= p.subrange(line_starts(p)[i], line_starts(p)[i] + lines(p)[i].len()));
    }
}

/// Appending after a clean prefix: the lines of the whole are those of each part, the
/// starts of the second part shifted by the length of the first.
pub proof fn lemma_concat(a: Seq<u8>, b: Seq<u8>)
    requires
        ends_clean(a),
    ensures
        tail_start(a + b) == a.len() + tail_start(b),
        line_starts(a + b) == line_starts(a) + line_starts(b).map_values(|x: int| x + a.len()),
        lines(a + b) == lines(a) + lines(b),
    decreases b.len(),
{
    if b.len() == 0 {
        assert(a + b =~= a);
        assert(line_starts(a) + line_starts(b).map_values(|x: int| x + a.len()) =~= line_starts(a));
        assert(lines(a) + lines(b) =~= lines(a));
    } else {
        let q = b.drop_last();
        lemma_concat(a, q);
        lemma_line_shape(q);
        lemma_line_shape(a + q);
        assert((a + b).drop_last() =~= a + q);
        assert((a + b).last() == b.last());
        if b.last() == NEWLINE {
            assert(line_starts(a + b) =~= line_starts(a) + line_starts(b).map_values(
                |x: int| x + a.len(),
            ));
            assert((a + q).subrange(tail_start(a + q), (a + q).len() as int) =~= q.subrange(
                tail_start(q),
                q.len() as int,
            ));
            assert(lines(a + b) =~= lines(a) + lines(b));
        } else {
            assert(line_starts(a + b) =~= line_starts(a) + line_starts(b).map_values(
                |x: int| x + a.len(),
            ));
        }
    }
}

/// Cutting off the unterminated tail leaves the complete lines as they were.
pub proof fn lemma_cut_tail(b: Seq<u8>)
    ensures
        0 <= tail_start(b) <= b.len(),
        ends_clean(b.take(tail_start(b))),
        line_starts(b.take(tail_start(b))) == line_starts(b),
        lines(b.take(tail_start(b))) == lines(b),
    decreases b.len(),
{
    lemma_line_shape(b);
    if b.len() > 0 {
        let p = b.drop_last();
        if b.last() == NEWLINE {
            assert(b.take(tail_start(b)) =~= b);
        } else {
            lemma_cut_tail(p);
            assert(b.take(tail_start(b)) =~= p.take(tail_start(p)));
        }
    } else {
        assert(b.take(0) =~= b);
    }
}

/// The part of `b` before the start of line `k` is clean and holds exactly the first `k` lines.
pub proof fn lemma_before_line(b: Seq<u8>, k: int)
    requires
        0 <= k < line_starts(b).len(),
    ensures
        ends_clean(b.take(line_starts(b)[k])),
        line_starts(b.take(line_starts(b)[k])) == line_starts(b).take(k),
        lines(b.take(line_starts(b)[k])) == lines(b).take(k),
    decreases b.len(),
{
    let p = b.drop_last();
    lemma_line_shape(b);
    lemma_line_shape(p);
    if b.last() == NEWLINE && k == line_starts(p).len() {
        lemma_cut_tail(p);
        assert(b.take(line_starts(b)[k]) =~= p.take(tail_start(p)));
        assert(line_starts(b).take(k) =~= line_starts(p));
        assert(lines(b).take(k) =~= lines(p));
    } else {
        lemma_before_line(p, k);
        assert(b.take(line_starts(b)[k]) =~= p.take(line_starts(p)[k]));
        assert(line_starts(b).take(k) =~= line_starts(p).take(k));
        assert(lines(b).take(k) =~= lines(p).take(k));
    }
}

/// The complete lines of a prefix are the first lines of the whole.
pub proof fn lemma_prefix_lines(b: Seq<u8>, j: int)
    requires
        0 <= j <= b.len(),
    ensures
        lines(b.take(j)).len() <= lines(b).len(),
        lines(b.take(j)) == lines(b).take(lines(b.take(j)).len() as int),
    decreases b.len(),
{
    if j == b.len() {
        assert(b.take(j) =~= b);
        assert(lines(b).take(lines(b).len() as int) =~= lines(b));
    } else {
        let p = b.drop_last();
        lemma_prefix_lines(p, j);
        assert(b.take(j) =~= p.take(j));
        if b.last() == NEWLINE {
            assert(lines(b).take(lines(b.take(j)).len() as int) =~= lines(p).take(
                lines(p.take(j)).len() as int,
            ));
        }
    }
}

/// Where a line begins in a clean record file: offset `k` of the line starts, or the
/// end of the file for `k` equal to the number of lines.
pub open spec fn boundary(b: Seq<u8>, k: int) -> int {
    if k < line_starts(b).len() {
        line_starts(b)[k]
    } else {
        b.len() as int
    }
}

/// The bytes between two line boundaries of a clean record file hold exactly the lines
/// between them.
pub proof fn lemma_between_boundaries(b: Seq<u8>, k1: int, k2: int)
    requires
        ends_clean(b),
        0 <= k1 <= k2 <= lines(b).len(),
    ensures
        0 <= boundary(b, k1) <= boundary(b, k2) <= b.len(),
        lines(b.subrange(boundary(b, k1), boundary(b, k2))) == lines(b).subrange(k1, k2),
{
    lemma_line_shape(b);
    let s1 = boundary(b, k1);
    let s2 = boundary(b, k2);
    if k1 < line_starts(b).len() {
        lemma_before_line(b, k1);
    } else {
        assert(b.take(s1) =~= b);
        assert(lines(b).take(k1) =~= lines(b));
    }
    if k2 < line_starts(b).len() {
        lemma_before_line(b, k2);
    } else {
        assert(b.take(s2) =~= b);
        assert(lines(b).take(k2) =~= lines(b));
    }
    let mid = b.subrange(s1, s2);
    assert(b.take(s2) =~= b.take(s1) + mid);
    lemma_concat(b.take(s1), mid);
    let front = lines(b.take(s1));
    assert(lines(mid) =~= (front + lines(mid)).skip(front.len() as int));
    assert(lines(b).take(k2).skip(k1) =~= lines(b).subrange(k1, k2));
}

/// Scans a record file: the start of each complete line, and where its unterminated
/// tail begins (its length, when it holds no partial line).
pub fn line_offsets(log: &[u8]) -> (r: (Vec<u64>, u64))
    requires
        log@.len() <= u64::MAX,
    ensures
        as_ints(r.0@) == line_starts(log@),
        r.1 == tail_start(log@),
{
    let mut starts: Vec<u64> = Vec::new();
    let mut tail: u64 = 0;
    let mut i: usize = 0;
    while i < log.len()
        invariant
            i <= log@.len() <= u64::MAX,
            tail <= i,
            as_ints(starts@) == line_starts(log@.take(i as int)),
            tail == tail_start(log@.take(i as int)),
        decreases log@.len() - i,
    {
        assert(log@.take(i + 1).drop_last() =~= log@.take(i as int));
        if log[i] == NEWLINE {
            starts.push(tail);
            tail = (i + 1) as u64;
        }
        i += 1;
        assert(as_ints(starts@) =~= line_starts(log@.take(i as int)));
    }
    assert(log@.take(i as int) =~= log@);
    (starts, tail)
}

} // verus!
