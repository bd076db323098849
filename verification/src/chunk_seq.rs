//! Specification helpers for ordered sequences of text chunks.

use vstd::prelude::*;

verus! {

/// The views of a vector of strings, as a sequence of character sequences.
pub open spec fn char_views(ss: Seq<String>) -> Seq<Seq<char>> {
    Seq::new(ss.len(), |i: int| ss[i]@)
}

/// The concatenation of all chunks, in order.
pub open spec fn concat_all(chunks: Seq<Seq<char>>) -> Seq<char>
    decreases chunks.len(),
{
    if chunks.len() == 0 {
        Seq::empty()
    } else {
        concat_all(chunks.drop_last()) + chunks.last()
    }
}

/// Every chunk holds at most `limit` scalar values.
pub open spec fn all_within(chunks: Seq<Seq<char>>, limit: nat) -> bool {
    forall|i: int| 0 <= i < chunks.len() ==> (#[trigger] chunks[i]).len() <= limit
}

/// Appending a chunk extends the concatenation by that chunk.
pub proof fn lemma_concat_all_push(chunks: Seq<Seq<char>>, x: Seq<char>)
    ensures
        concat_all(chunks.push(x)) == concat_all(chunks) + x,
{
    assert(chunks.push(x).drop_last() =~= chunks);
}

/// Replacing the last chunk rebuilds the concatenation from the rest.
pub proof fn lemma_concat_all_update_last(chunks: Seq<Seq<char>>, y: Seq<char>)
    requires
        chunks.len() >= 1,
    ensures
        concat_all(chunks.update(chunks.len() - 1, y)) == concat_all(chunks.drop_last()) + y,
{
    let updated = chunks.update(chunks.len() - 1, y);
    assert(updated.drop_last() =~= chunks.drop_last());
    assert(updated.last() == y);
}

/// Concatenation distributes over appending two chunk sequences.
pub proof fn lemma_concat_all_append(a: Seq<Seq<char>>, b: Seq<Seq<char>>)
    ensures
        concat_all(a + b) == concat_all(a) + concat_all(b),
    decreases b.len(),
{
    if b.len() == 0 {
        assert(a + b =~= a);
        assert(concat_all(a) + concat_all(b) =~= concat_all(a));
    } else {
        lemma_concat_all_append(a, b.drop_last());
        assert((a + b).drop_last() =~= a + b.drop_last());
        assert((a + b).last() == b.last());
        assert(concat_all(a) + (concat_all(b.drop_last()) + b.last()) =~= (concat_all(a)
            + concat_all(b.drop_last())) + b.last());
    }
}

} // verus!
