use vstd::prelude::*;

use crate::folder::texts;

verus! {

broadcast use vstd::string::group_string_axioms;

/// The segments of a path: the pieces between its `'/'` characters, in
/// order. A path without `'/'` is one segment; an empty path is one empty
/// segment.
pub open spec fn path_segments(s: Seq<char>) -> Seq<Seq<char>>
    decreases s.len(),
{
    if s.len() == 0 {
        seq![Seq::empty()]
    } else {
        let prev = path_segments(s.drop_last());
        if s.last() == '/' {
            prev.push(Seq::empty())
        } else {
            prev.update(prev.len() - 1, prev.last().push(s.last()))
        }
    }
}

/// The segments put back together, with a `'/'` between each two.
pub open spec fn join_segments(segs: Seq<Seq<char>>) -> Seq<char>
    decreases segs.len(),
{
    if segs.len() == 0 {
        Seq::empty()
    } else if segs.len() == 1 {
        segs[0]
    } else {
        join_segments(segs.drop_last()) + seq!['/'] + segs.last()
    }
}

/// A path has at least one segment.
pub proof fn lemma_segments_nonempty(s: Seq<char>)
    ensures
        path_segments(s).len() >= 1,
    decreases s.len(),
{
    if s.len() > 0 {
        lemma_segments_nonempty(s.drop_last());
    }
}

/// No segment of a path holds a `'/'`.
pub proof fn lemma_segments_have_no_slash(s: Seq<char>)
    ensures
        forall|i: int|
            0 <= i < path_segments(s).len() ==> !(#[trigger] path_segments(s)[i]).contains('/'),
    decreases s.len(),
{
    if s.len() > 0 {
        lemma_segments_have_no_slash(s.drop_last());
        lemma_segments_nonempty(s.drop_last());
        let prev = path_segments(s.drop_last());
        if s.last() != '/' {
            let l = prev.last().push(s.last());
            assert forall|j: int| 0 <= j < l.len() implies l[j] != '/' by {
                if j < prev.last().len() {
                    assert(prev.last()[j] == l[j]);
                    assert(!prev[prev.len() - 1].contains('/'));
                }
            }
        }
    }
}

/// Adding a character to the last segment adds it to the end of the joined
/// path.
proof fn lemma_join_extend_last(segs: Seq<Seq<char>>, c: char)
    requires
        segs.len() >= 1,
    ensures
        join_segments(segs.update(segs.len() - 1, segs.last().push(c))) == join_segments(
            segs,
        ).push(c),
{
    let u = segs.update(segs.len() - 1, segs.last().push(c));
    if segs.len() > 1 {
        assert(u.drop_last() =~= segs.drop_last());
        assert(join_segments(segs.drop_last()) + seq!['/'] + segs.last().push(c)
            =~= (join_segments(segs.drop_last()) + seq!['/'] + segs.last()).push(c));
    }
}

/// Joining the segments of a path gives the path back.
pub proof fn lemma_join_segments(s: Seq<char>)
    ensures
        join_segments(path_segments(s)) == s,
    decreases s.len(),
{
    if s.len() > 0 {
        lemma_join_segments(s.drop_last());
        lemma_segments_nonempty(s.drop_last());
        let prev = path_segments(s.drop_last());
        if s.last() == '/' {
            assert(prev.push(Seq::empty()).drop_last() =~= prev);
            assert(join_segments(prev) + seq!['/'] + Seq::<char>::empty() =~= s);
        } else {
            lemma_join_extend_last(prev, s.last());
            assert(s.drop_last().push(s.last()) =~= s);
        }
    }
}

/// Splits a request path at each `'/'`.
pub fn split_path(path: &str) -> (r: Vec<String>)
    ensures
        texts(r@) == path_segments(path@),
{
    let n = path.unicode_len();
    let mut r: Vec<String> = Vec::new();
    let mut start: usize = 0;
    assert(path@.take(0) =~= Seq::<char>::empty());
    assert(texts(r@).push(path@.subrange(0, 0)) =~= path_segments(path@.take(0)));
    for i in 0..n
        invariant
            n == path@.len(),
            start <= i,
            texts(r@).push(path@.subrange(start as int, i as int)) == path_segments(
                path@.take(i as int),
            ),
    {
        let ghost before = texts(r@);
        assert(path@.take(i + 1).drop_last() =~= path@.take(i as int));
        assert(path@.take(i + 1).last() == path@[i as int]);
        if path.get_char(i) == '/' {
            let ghost old_start = start;
            let piece = path.substring_char(start, i).to_string();
            r.push(piece);
            start = i + 1;
            assert(texts(r@) =~= before.push(path@.subrange(old_start as int, i as int)));
            assert(path@.subrange(start as int, i + 1) =~= Seq::<char>::empty());
        } else {
            assert(path@.subrange(start as int, i + 1) =~= path@.subrange(
                start as int,
                i as int,
            ).push(path@[i as int]));
        }
    }
    assert(path@.take(n as int) =~= path@);
    let last = path.substring_char(start, n).to_string();
    r.push(last);
    r
}

} // verus!
