//! Byte-level text splitting with the meaning of `str::split` on a single
//! ASCII separator and of `str::lines`.
use vstd::prelude::*;
use vstd::pervasive::VecAdditionalExecFns;

verus! {

/// The line feed byte.
pub const LF: u8 = 10u8;

/// The carriage return byte.
pub const CR: u8 = 13u8;

/// The byte sequences held by a vector of byte vectors.
pub open spec fn byte_seqs(v: Seq<Vec<u8>>) -> Seq<Seq<u8>> {
    v.map_values(|x: Vec<u8>| x@)
}

/// The pieces of `s` between occurrences of `sep`, as `str::split` gives them:
/// one more piece than there are separators, empty pieces included.
pub open spec fn split(s: Seq<u8>, sep: u8) -> Seq<Seq<u8>>
    decreases s.len(),
{
    if s.len() == 0 {
        seq![Seq::<u8>::empty()]
    } else {
        let prev = split(s.drop_last(), sep);
        if s.last() == sep {
            prev.push(Seq::<u8>::empty())
        } else {
            prev.update(prev.len() - 1, prev.last().push(s.last()))
        }
    }
}

/// The pieces joined back together with `sep` between neighbours.
pub open spec fn join(pieces: Seq<Seq<u8>>, sep: u8) -> Seq<u8>
    decreases pieces.len(),
{
    if pieces.len() == 0 {
        Seq::<u8>::empty()
    } else if pieces.len() == 1 {
        pieces[0]
    } else {
        join(pieces.drop_last(), sep).push(sep) + pieces.last()
    }
}

/// A line without the carriage return that ended it, if any.
pub open spec fn strip_cr(p: Seq<u8>) -> Seq<u8> {
    if p.len() > 0 && p.last() == CR {
        p.drop_last()
    } else {
        p
    }
}

/// The lines of a text as `str::lines` gives them: split at line feeds; a
/// carriage return just before a line feed is dropped; a final empty piece
/// (after a trailing line feed, or of an empty text) is not a line.
pub open spec fn lines(data: Seq<u8>) -> Seq<Seq<u8>> {
    let pieces = split(data, LF);
    let n = pieces.len();
    let body = Seq::new((n - 1) as nat, |i: int| strip_cr(pieces[i]));
    if pieces[n - 1].len() == 0 {
        body
    } else {
        body.push(pieces[n - 1])
    }
}

/// There is always at least one piece, and the pieces hold no separator.
pub proof fn lemma_split_shape(s: Seq<u8>, sep: u8)
    ensures
        split(s, sep).len() >= 1,
        forall|i: int, j: int|
            0 <= i < split(s, sep).len() && 0 <= j < split(s, sep)[i].len() ==> split(
                s,
                sep,
            )[i][j] != sep,
    decreases s.len(),
{
    if s.len() > 0 {
        lemma_split_shape(s.drop_last(), sep);
        let prev = split(s.drop_last(), sep);
        if s.last() != sep {
            let cur = split(s, sep);
            assert forall|i: int, j: int|
                0 <= i < cur.len() && 0 <= j < cur[i].len() implies cur[i][j] != sep by {
                if i == prev.len() - 1 {
                    if j < prev.last().len() {
                        assert(cur[i][j] == prev[i][j]);
                    }
                }
            }
        }
    }
}

/// Joining the pieces with the separator gives the text back: together with
/// `lemma_split_shape`, the pieces are exactly the text cut at each separator.
pub proof fn lemma_split_join(s: Seq<u8>, sep: u8)
    ensures
        join(split(s, sep), sep) == s,
    decreases s.len(),
{
    if s.len() > 0 {
        lemma_split_join(s.drop_last(), sep);
        lemma_split_shape(s.drop_last(), sep);
        let prev = split(s.drop_last(), sep);
        let cur = split(s, sep);
        if s.last() == sep {
            assert(cur.drop_last() =~= prev);
            assert(join(cur, sep) =~= s);
        } else {
            lemma_join_extend_last(prev, sep, s.last());
            assert(join(cur, sep) =~= s);
        }
    }
}

/// Appending bytes without a separator lengthens the last piece.
pub proof fn lemma_split_append_plain(s: Seq<u8>, b: Seq<u8>, sep: u8)
    requires
        forall|k: int| 0 <= k < b.len() ==> b[k] != sep,
    ensures
        split(s + b, sep) == split(s, sep).update(
            split(s, sep).len() - 1,
            split(s, sep).last() + b,
        ),
    decreases b.len(),
{
    lemma_split_shape(s, sep);
    let ps = split(s, sep);
    if b.len() == 0 {
        assert(s + b =~= s);
        assert(ps.last() + b =~= ps.last());
        assert(ps.update(ps.len() - 1, ps.last() + b) =~= ps);
    } else {
        lemma_split_append_plain(s, b.drop_last(), sep);
        assert((s + b).drop_last() =~= s + b.drop_last());
        assert((s + b).last() == b.last());
        let prev = split(s + b.drop_last(), sep);
        assert(prev.last() == ps.last() + b.drop_last());
        assert((ps.last() + b.drop_last()).push(b.last()) =~= ps.last() + b);
        assert(split(s + b, sep) =~= ps.update(ps.len() - 1, ps.last() + b));
    }
}

/// Text followed by a separator and a piece without separators splits into
/// the pieces of the text and that piece.
pub proof fn lemma_split_sep_then_plain(s: Seq<u8>, b: Seq<u8>, sep: u8)
    requires
        forall|k: int| 0 <= k < b.len() ==> b[k] != sep,
    ensures
        split(s.push(sep) + b, sep) == split(s, sep).push(b),
{
    assert(s.push(sep).drop_last() =~= s);
    assert(split(s.push(sep), sep) == split(s, sep).push(Seq::<u8>::empty()));
    lemma_split_append_plain(s.push(sep), b, sep);
    let q = split(s, sep).push(Seq::<u8>::empty());
    assert(Seq::<u8>::empty() + b =~= b);
    assert(q.update(q.len() - 1, q.last() + b) =~= split(s, sep).push(b));
}

/// A piece without separators splits into itself alone.
pub proof fn lemma_split_plain(b: Seq<u8>, sep: u8)
    requires
        forall|k: int| 0 <= k < b.len() ==> b[k] != sep,
    ensures
        split(b, sep) == seq![b],
{
    lemma_split_append_plain(Seq::<u8>::empty(), b, sep);
    assert(Seq::<u8>::empty() + b =~= b);
    assert(Seq::<u8>::empty() + b =~= b);
    assert(split(Seq::<u8>::empty(), sep) == seq![Seq::<u8>::empty()]);
    assert(seq![Seq::<u8>::empty()].update(0, Seq::<u8>::empty() + b) =~= seq![b]);
}

/// Appending a byte to the last piece appends it to the joined text.
proof fn lemma_join_extend_last(p: Seq<Seq<u8>>, sep: u8, b: u8)
    requires
        p.len() >= 1,
    ensures
        join(p.update(p.len() - 1, p.last().push(b)), sep) == join(p, sep).push(b),
{
    let q = p.update(p.len() - 1, p.last().push(b));
    if p.len() == 1 {
    } else {
        assert(q.drop_last() =~= p.drop_last());
        assert(join(q, sep) =~= join(p, sep).push(b));
    }
}

/// Cut `s` at every `sep`.
pub fn split_bytes(s: &[u8], sep: u8) -> (parts: Vec<Vec<u8>>)
    ensures
        byte_seqs(parts@) == split(s@, sep),
{
    let mut parts: Vec<Vec<u8>> = Vec::new();
    let mut cur: Vec<u8> = Vec::new();
    let mut i: usize = 0;
    assert(s@.take(0) =~= Seq::<u8>::empty());
    assert(byte_seqs(parts@).push(cur@) =~= split(s@.take(0), sep));
    while i < s.len()
        invariant
            0 <= i <= s@.len(),
            byte_seqs(parts@).push(cur@) == split(s@.take(i as int), sep),
        decreases s@.len() - i,
    {
        let b = s[i];
        proof {
            assert(s@.take(i + 1).drop_last() =~= s@.take(i as int));
            lemma_split_shape(s@.take(i as int), sep);
        }
        if b == sep {
            parts.push(cur);
            cur = Vec::new();
            assert(byte_seqs(parts@).push(cur@) =~= split(s@.take(i + 1), sep));
        } else {
            let ghost before = byte_seqs(parts@).push(cur@);
            cur.push(b);
            assert(byte_seqs(parts@).push(cur@) =~= before.update(
                before.len() - 1,
                before.last().push(b),
            ));
        }
        i = i + 1;
    }
    assert(s@.take(s@.len() as int) =~= s@);
    parts.push(cur);
    assert(byte_seqs(parts@) =~= split(s@, sep));
    parts
}

/// Drop one trailing carriage return.
fn strip_cr_in_place(p: &mut Vec<u8>)
    ensures
        final(p)@ == strip_cr(old(p)@),
{
    let n = p.len();
    if n > 0 && p[n - 1] == CR {
        p.pop();
    }
}

/// The lines of `data`, as `str::lines` would give them.
pub fn text_lines(data: &[u8]) -> (res: Vec<Vec<u8>>)
    ensures
        byte_seqs(res@) == lines(data@),
{
    let mut parts = split_bytes(data, LF);
    proof {
        lemma_split_shape(data@, LF);
    }
    let ghost pieces = split(data@, LF);
    let n = parts.len();
    let mut res: Vec<Vec<u8>> = Vec::new();
    let mut i: usize = 0;
    while i + 1 < n
        invariant
            n == parts@.len(),
            n >= 1,
            pieces == split(data@, LF),
            pieces.len() == n,
            0 <= i <= n - 1,
            res@.len() == i,
            forall|k: int| i <= k < n ==> #[trigger] parts@[k]@ == pieces[k],
            forall|k: int| 0 <= k < i ==> #[trigger] res@[k]@ == strip_cr(pieces[k]),
        decreases n - i,
    {
        let mut p: Vec<u8> = Vec::new();
        parts.set_and_swap(i, &mut p);
        strip_cr_in_place(&mut p);
        res.push(p);
        i = i + 1;
    }
    let mut last: Vec<u8> = Vec::new();
    parts.set_and_swap(n - 1, &mut last);
    if last.len() > 0 {
        res.push(last);
    }
    assert(byte_seqs(res@) =~= lines(data@));
    res
}

} // verus!
