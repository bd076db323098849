//! The chunk accumulator: an incremental builder that appends text, groups
//! it into protected sections, and finalizes into a bounded-length chunk
//! sequence.

use vstd::prelude::*;
use vstd::string::StrSliceExecFns;
use vstd::string::StringExecFns;

use crate::chunk_seq::all_within;
use crate::chunk_seq::char_views;
use crate::chunk_seq::concat_all;
use crate::chunk_seq::lemma_concat_all_append;
use crate::chunk_seq::lemma_concat_all_push;
use crate::chunk_seq::lemma_concat_all_update_last;

verus! {

/// The maximum number of Unicode scalar values one chunk may hold: the
/// message length limit of the downstream channel.
pub const MSG_LIMIT: usize = 2000;

/// Returned when a protected section is longer than [`MSG_LIMIT`] and, for
/// some remaining fragment, no character in the scan window is an
/// acceptable cut point under the active split predicate.
#[derive(Debug, Clone, Copy, PartialEq, Eq)]
pub struct UnsplittableSection;

/// A collection of strings which are all within the character limit, as
/// long as no single atomic `add_string` argument exceeded the limit while
/// the bunch was built.
#[derive(Debug, Clone)]
pub struct MsgBunch {
    messages: Vec<String>,
}

impl View for MsgBunch {
    type V = Seq<Seq<char>>;

    closed spec fn view(&self) -> Seq<Seq<char>> {
        char_views(self.messages@)
    }
}

impl MsgBunch {
    /// One empty open chunk.
    fn new() -> (r: Self)
        ensures
            r@ == seq![Seq::<char>::empty()],
    {
        let mut messages: Vec<String> = Vec::new();
        messages.push(String::new());
        let r = MsgBunch { messages };
        proof {
            assert(r@ =~= seq![Seq::<char>::empty()]);
        }
        r
    }

    /// Shorthand for `MsgBunchBuilder::new()`
    pub fn builder() -> (r: MsgBunchBuilder)
        ensures
            r.wf(),
            !r.in_section(),
            r.staged() == Seq::<char>::empty(),
            r.chunks() == seq![Seq::<char>::empty()],
            r.content() == Seq::<char>::empty(),
            r.bounded(),
    {
        MsgBunchBuilder::new()
    }

    /// Consumes the `MsgBunch` and returns the inner vector of strings
    pub fn into_inner(self) -> (r: Vec<String>)
        ensures
            r.deep_view() == self@,
    {
        proof {
            assert(self.messages.deep_view() =~= self@);
        }
        self.messages
    }
}

/// Structure for making an `MsgBunch` that allows control over where the
/// message can be split.
#[derive(Debug)]
pub struct MsgBunchBuilder {
    /// The `MsgBunch` being worked on. Its last element is the open chunk
    /// currently receiving appended text; a pending protected section is
    /// buffered separately and is not part of it until the section closes.
    pub inner: MsgBunch,
    chars_num: usize,
    no_split_section: Option<(String, usize)>,
}

impl MsgBunchBuilder {
    /// The chunk sequence committed so far, as character sequences.
    pub closed spec fn chunks(self) -> Seq<Seq<char>> {
        self.inner@
    }

    /// Whether a protected section is currently open.
    pub closed spec fn in_section(self) -> bool {
        self.no_split_section is Some
    }

    /// The text buffered in the currently open section; empty when none is.
    pub closed spec fn staged(self) -> Seq<char> {
        match self.no_split_section {
            Some(p) => p.0@,
            None => Seq::empty(),
        }
    }

    /// The scalar-value count of the open chunk: the last committed chunk
    /// is the one still receiving appended text.
    pub open spec fn open_len(self) -> nat {
        self.chunks().last().len()
    }

    /// Structural well-formedness: at least one chunk exists, the running
    /// length counter equals the open chunk's true length, and the buffered
    /// section's length counter equals its text's length.
    pub closed spec fn wf(self) -> bool {
        &&& self.inner@.len() >= 1
        &&& self.chars_num == self.open_len()
        &&& match self.no_split_section {
            Some(p) => p.1 == p.0@.len(),
            None => true,
        }
    }

    /// All text handed to the builder so far, in order: the committed
    /// chunks followed by the buffered section.
    ///
    /// Every operation's contract tracks it exactly: `add_string` extends
    /// it by precisely the appended text, opening and closing sections
    /// move text without changing it, and `build` returns chunks whose
    /// concatenation equals it. No characters are added, dropped or
    /// reordered on the way to the finished bunch.
    pub open spec fn content(self) -> Seq<char> {
        concat_all(self.chunks()) + self.staged()
    }

    /// Every committed chunk is within the limit.
    ///
    /// This holds of a fresh builder, is preserved by every `add_string`
    /// whose single argument is within the limit and by every successful
    /// section close, and is handed to the finished bunch by `build`: no
    /// sequence of such calls can commit an oversized chunk.
    pub open spec fn bounded(self) -> bool {
        all_within(self.chunks(), MSG_LIMIT as nat)
    }

    /// Begin making an `MsgBunch`: one empty open chunk, no open section.
    pub fn new() -> (r: Self)
        ensures
            r.wf(),
            !r.in_section(),
            r.staged() == Seq::<char>::empty(),
            r.chunks() == seq![Seq::<char>::empty()],
            r.content() == Seq::<char>::empty(),
            r.bounded(),
    {
        let r = MsgBunchBuilder { inner: MsgBunch::new(), chars_num: 0, no_split_section: None };
        proof {
            assert(concat_all(Seq::<Seq<char>>::empty()) == Seq::<char>::empty());
            assert(r.inner@.drop_last() =~= Seq::<Seq<char>>::empty());
            assert(r.content() =~= Seq::<char>::empty());
        }
        r
    }

    /// Adds a string to the bunch, splitting if necessary.
    ///
    /// While a section is open the text is buffered verbatim. Otherwise the
    /// text goes into the open chunk; if it does not fit, the prefix that
    /// brings the open chunk to exactly [`MSG_LIMIT`] scalar values is
    /// appended there and the remaining suffix starts a new open chunk. At
    /// most one split is performed, so a single argument longer than
    /// [`MSG_LIMIT`] plus the remaining room leaves an oversized chunk.
    pub fn add_string(&mut self, s: &str)
        requires
            old(self).wf(),
            old(self).in_section() ==> old(self).staged().len() + s@.len() <= usize::MAX,
            (!old(self).in_section() && old(self).open_len() + s@.len() > MSG_LIMIT)
                ==> old(self).open_len() <= MSG_LIMIT,
        ensures
            final(self).wf(),
            final(self).in_section() == old(self).in_section(),
            final(self).content() == old(self).content() + s@,
            old(self).in_section() ==> {
                &&& final(self).chunks() == old(self).chunks()
                &&& final(self).staged() == old(self).staged() + s@
            },
            (!old(self).in_section() && old(self).open_len() + s@.len() <= MSG_LIMIT) ==> {
                &&& final(self).chunks() == old(self).chunks().update(
                    old(self).chunks().len() - 1,
                    old(self).chunks().last() + s@,
                )
                &&& final(self).open_len() == old(self).open_len() + s@.len()
            },
            (!old(self).in_section() && old(self).open_len() + s@.len() > MSG_LIMIT) ==> {
                &&& final(self).chunks() == old(self).chunks().update(
                    old(self).chunks().len() - 1,
                    old(self).chunks().last() + s@.take(MSG_LIMIT - old(self).open_len()),
                ).push(s@.skip(MSG_LIMIT - old(self).open_len()))
                &&& final(self).open_len() == s@.len() - (MSG_LIMIT - old(self).open_len())
            },
            old(self).bounded() && s@.len() <= MSG_LIMIT ==> final(self).bounded(),
    {
        let n = s.unicode_len();
        let sect = self.no_split_section.take();
        match sect {
            Some(pair) => {
                let (mut buf, size) = pair;
                buf.append(s);
                self.no_split_section = Some((buf, size + n));
                proof {
                    assert(final(self).content() =~= old(self).content() + s@);
                }
            },
            None => {
                if n <= MSG_LIMIT && self.chars_num <= MSG_LIMIT - n {
                    let ghost prior = *old(self);
                    proof {
                        assert(self.inner@.len() == self.inner.messages@.len());
                    }
                    let mut last = self.inner.messages.pop().unwrap();
                    last.append(s);
                    self.inner.messages.push(last);
                    self.chars_num = self.chars_num + n;
                    proof {
                        let updated = prior.inner@.update(
                            prior.inner@.len() - 1,
                            prior.inner@.last() + s@,
                        );
                        assert(self.inner@ =~= updated);
                        lemma_concat_all_update_last(prior.inner@, prior.inner@.last() + s@);
                        assert(concat_all(prior.inner@) == concat_all(prior.inner@.drop_last())
                            + prior.inner@.last());
                        assert(self.content() =~= prior.content() + s@);
                        assert forall|i: int| 0 <= i < updated.len() && prior.bounded() implies (
                        #[trigger] updated[i]).len() <= MSG_LIMIT by {
                            assert(prior.inner@[i].len() <= MSG_LIMIT || i == updated.len() - 1);
                        }
                    }
                } else {
                    let ghost prior = *old(self);
                    let room = MSG_LIMIT - self.chars_num;
                    let suffix = s.substring_char(room, n).to_owned();
                    proof {
                        assert(self.inner@.len() == self.inner.messages@.len());
                    }
                    let mut last = self.inner.messages.pop().unwrap();
                    last.append(s.substring_char(0, room));
                    self.inner.messages.push(last);
                    self.inner.messages.push(suffix);
                    self.chars_num = n - room;
                    proof {
                        let pre = s@.take(MSG_LIMIT - prior.open_len());
                        let post = s@.skip(MSG_LIMIT - prior.open_len());
                        assert(pre + post =~= s@);
                        let updated = prior.inner@.update(
                            prior.inner@.len() - 1,
                            prior.inner@.last() + pre,
                        );
                        assert(self.inner@ =~= updated.push(post));
                        lemma_concat_all_update_last(prior.inner@, prior.inner@.last() + pre);
                        lemma_concat_all_push(updated, post);
                        assert(concat_all(prior.inner@) == concat_all(prior.inner@.drop_last())
                            + prior.inner@.last());
                        assert(self.content() =~= prior.content() + s@);
                        assert forall|i: int| 0 <= i < self.inner@.len() && prior.bounded()
                            && s@.len() <= MSG_LIMIT implies (#[trigger] self.inner@[i]).len()
                            <= MSG_LIMIT by {
                            if i < updated.len() - 1 {
                                assert(self.inner@[i] == prior.inner@[i]);
                            }
                        }
                    }
                }
            },
        }
    }

    /// Begins a section, which affects subsequent calls to `add_string`.
    ///
    /// Does nothing if a section is already in progress.
    pub fn begin_section(&mut self)
        requires
            old(self).wf(),
        ensures
            final(self).wf(),
            final(self).in_section(),
            final(self).chunks() == old(self).chunks(),
            final(self).open_len() == old(self).open_len(),
            final(self).staged() == old(self).staged(),
            final(self).content() == old(self).content(),
            old(self).in_section() ==> *final(self) == *old(self),
    {
        if self.no_split_section.is_none() {
            self.no_split_section = Some((String::new(), 0));
        }
    }

    /// A builder with no open section holds no buffered text.
    pub proof fn lemma_no_section_no_staged(self)
        ensures
            !self.in_section() ==> self.staged() == Seq::<char>::empty(),
    {
    }

    /// Whether we are in a section right now.
    pub fn is_in_section(&self) -> (r: bool)
        ensures
            r == self.in_section(),
    {
        self.no_split_section.is_some()
    }

    /// Ends a section, which affects subsequent calls to `add_string`,
    /// cutting an oversized section after the characters `;` `,` `.` `?`
    /// `!` `)` `:` `-`; see [`Self::end_section_with`].
    ///
    /// Does nothing if no section is in progress.
    pub fn end_section(&mut self) -> (r: Result<(), UnsplittableSection>)
        requires
            old(self).wf(),
        ensures
            final(self).wf(),
            !old(self).in_section() ==> r is Ok && *final(self) == *old(self),
            r is Err ==> *final(self) == *old(self),
            r is Ok ==> !final(self).in_section() && final(self).staged() == Seq::<char>::empty(),
            r is Ok ==> final(self).content() == old(self).content(),
            (old(self).in_section() && old(self).open_len() + old(self).staged().len()
                <= MSG_LIMIT) ==> {
                &&& r is Ok
                &&& final(self).chunks() == old(self).chunks().update(
                    old(self).chunks().len() - 1,
                    old(self).chunks().last() + old(self).staged(),
                )
                &&& final(self).open_len() == old(self).open_len() + old(self).staged().len()
            },
            (old(self).in_section() && old(self).open_len() + old(self).staged().len() > MSG_LIMIT
                && old(self).staged().len() <= MSG_LIMIT) ==> {
                &&& r is Ok
                &&& final(self).chunks() == old(self).chunks().push(old(self).staged())
                &&& final(self).open_len() == old(self).staged().len()
            },
            (old(self).in_section() && old(self).open_len() + old(self).staged().len() > MSG_LIMIT
                && r is Ok) ==> {
                &&& final(self).chunks().len() > old(self).chunks().len()
                &&& final(self).chunks().take(old(self).chunks().len() as int) == old(
                    self,
                ).chunks()
                &&& forall|i: int|
                    old(self).chunks().len() <= i < final(self).chunks().len() ==> (
                    #[trigger] final(self).chunks()[i]).len() <= MSG_LIMIT
                &&& forall|i: int|
                    old(self).chunks().len() <= i < final(self).chunks().len() - 1
                        ==> default_split_char((#[trigger] final(self).chunks()[i]).last())
            },
            old(self).bounded() && r is Ok ==> final(self).bounded(),
            (old(self).staged().len() > MSG_LIMIT && (forall|i: int|
                0 <= i < old(self).staged().len() ==> !default_split_char(
                    #[trigger] old(self).staged()[i],
                ))) ==> r is Err,
            r is Ok <==> (!old(self).in_section() || split_pieces(
                old(self).staged(),
                default_split_spec(),
            ) is Some),
            (old(self).in_section() && old(self).staged().len() > MSG_LIMIT && r is Ok)
                ==> final(self).chunks() == old(self).chunks() + split_pieces(
                old(self).staged(),
                default_split_spec(),
            )->Some_0,
            r is Err ==> {
                &&& old(self).in_section()
                &&& old(self).staged().len() > MSG_LIMIT
                &&& exists|k: int|
                    0 <= k && k + MSG_LIMIT < old(self).staged().len()
                        && #[trigger] window_has_no_default_cut(old(self).staged(), k)
            },
    {
        let pred = |c: char| -> (b: bool)
            ensures
                b == default_split_char(c),
            {
                c == ';' || c == ',' || c == '.' || c == '?' || c == '!' || c == ')' || c == ':'
                    || c == '-'
            };
        let r = self.end_section_with(pred);
        proof {
            let dp = default_split_spec();
            assert(forall|c: char, b: bool| #[trigger] call_ensures(pred, (c,), b) ==> b == dp(c));
            assert(split_pieces(old(self).staged(), dp) == split_pieces(
                old(self).staged(),
                default_split_spec(),
            ));
            if r is Err {
                let k = choose|k: int|
                    0 <= k && k + MSG_LIMIT < old(self).staged().len()
                        && #[trigger] window_rejected(pred, old(self).staged(), k);
                assert forall|i: int| k <= i < k + MSG_LIMIT implies !default_split_char(
                    #[trigger] old(self).staged()[i],
                ) by {
                    assert(call_ensures(pred, (old(self).staged()[i],), false));
                }
                assert(window_has_no_default_cut(old(self).staged(), k));
            }
            if r is Ok && old(self).staged().len() > MSG_LIMIT {
                let i = choose|i: int|
                    0 <= i < old(self).staged().len() && #[trigger] call_ensures(
                        pred,
                        (old(self).staged()[i],),
                        true,
                    );
                assert(default_split_char(old(self).staged()[i]));
            }
            if old(self).in_section() && old(self).open_len() + old(self).staged().len()
                > MSG_LIMIT && r is Ok {
                assert forall|i: int|
                    old(self).chunks().len() <= i < self.chunks().len()
                        - 1 implies default_split_char(
                    (#[trigger] self.chunks()[i]).last(),
                ) by {
                    assert(call_ensures(pred, (self.chunks()[i].last(),), true));
                }
            }
        }
        r
    }

    /// Add lines, each line being a separate protected section.
    ///
    /// The text is split at newlines; each line, with a carriage return
    /// just before a newline stripped and a newline appended, is added as
    /// one section, so a line is never torn mid-line as long as it fits
    /// within [`MSG_LIMIT`]. Starting outside a section, the resulting
    /// chunk sequence is exactly the per-line fold [`add_lines_chunks`],
    /// and the call succeeds whenever every line together with its
    /// newline fits in a chunk.
    #[verifier::rlimit(100)]
    pub fn add_lines(&mut self, lines: &str) -> (r: Result<(), UnsplittableSection>)
        requires
            old(self).wf(),
            old(self).staged().len() + lines@.len() + 1 <= usize::MAX,
        ensures
            final(self).wf(),
            old(self).bounded() ==> final(self).bounded(),
            r is Ok ==> final(self).content() == old(self).content() + rejoin(
                spec_lines(lines@),
            ),
            (r is Ok && lines@.len() > 0) ==> !final(self).in_section(),
            lines@.len() == 0 ==> r is Ok && *final(self) == *old(self),
            !old(self).in_section() ==> {
                &&& (r is Ok <==> add_lines_chunks(
                    old(self).chunks(),
                    spec_lines(lines@),
                ) is Some)
                &&& (r is Ok ==> final(self).chunks() == add_lines_chunks(
                    old(self).chunks(),
                    spec_lines(lines@),
                )->Some_0)
            },
            (!old(self).in_section() && (forall|i: int|
                0 <= i < spec_lines(lines@).len() ==> (#[trigger] spec_lines(lines@)[i]).len() + 1
                    <= MSG_LIMIT)) ==> r is Ok,
    {
        let total = lines.unicode_len();
        let mut pos: usize = 0;
        proof {
            assert(lines@.skip(0) =~= lines@);
        }
        while pos < total
            invariant
                total == lines@.len(),
                pos <= total,
                self.wf(),
                self.staged().len() <= old(self).staged().len(),
                pos > 0 ==> !self.in_section(),
                pos == 0 ==> *self == *old(self),
                old(self).bounded() ==> self.bounded(),
                old(self).staged().len() + lines@.len() + 1 <= usize::MAX,
                self.content() + rejoin(spec_lines(lines@.skip(pos as int))) == old(
                    self,
                ).content() + rejoin(spec_lines(lines@)),
                !old(self).in_section() ==> add_lines_chunks(
                    old(self).chunks(),
                    spec_lines(lines@),
                ) == add_lines_chunks(self.chunks(), spec_lines(lines@.skip(pos as int))),
            decreases total - pos,
        {
            let ghost t = lines@.skip(pos as int);
            let ghost content_at = self.content();
            let ghost chunks_at = self.chunks();
            let ghost staged_at = self.staged();
            let mut j: usize = pos;
            while j < total && lines.get_char(j) != '\n'
                invariant
                    pos <= j <= total,
                    total == lines@.len(),
                    forall|k: int| pos <= k < j ==> lines@[k] != '\n',
                decreases total - j,
            {
                j = j + 1;
            }
            proof {
                lemma_nl_index(t);
                assert forall|k: int| 0 <= k < j - pos implies t[k] != '\n' by {
                    assert(t[k] == lines@[pos + k]);
                }
                if j < total {
                    assert(t[j - pos] == lines@[j as int]);
                    assert(nl_index(t) == j - pos);
                } else {
                    assert(nl_index(t) == t.len());
                }
            }
            let stripped = j < total && j > pos && lines.get_char(j - 1) == '\r';
            let line = if stripped {
                lines.substring_char(pos, j - 1)
            } else {
                lines.substring_char(pos, j)
            };
            proof {
                if j < total {
                    let raw = t.take(j - pos);
                    assert(raw =~= lines@.subrange(pos as int, j as int));
                    if stripped {
                        assert(raw.last() == lines@[j - 1]);
                        assert(strip_cr(raw) =~= lines@.subrange(pos as int, j - 1));
                    } else {
                        if raw.len() > 0 {
                            assert(raw.last() == lines@[j - 1]);
                        }
                        assert(strip_cr(raw) =~= raw);
                    }
                    assert(line@ == strip_cr(raw));
                } else {
                    assert(line@ =~= t);
                }
                reveal_strlit("\n");
                assert("\n"@ =~= seq!['\n']);
            }
            self.begin_section();
            self.add_string(line);
            self.add_string("\n");
            let r = self.end_section();
            match r {
                Err(e) => {
                    proof {
                        if !old(self).in_section() {
                            assert(staged_at =~= Seq::<char>::empty());
                            let sec = line@ + seq!['\n'];
                            assert(close_section_chunks(chunks_at, sec) is None);
                            assert(spec_lines(t).first() == line@);
                            assert(add_lines_chunks(chunks_at, spec_lines(t)) is None);
                            if forall|i: int|
                                0 <= i < spec_lines(lines@).len() ==> (#[trigger] spec_lines(
                                    lines@,
                                )[i]).len() + 1 <= MSG_LIMIT {
                                lemma_add_lines_fit(old(self).chunks(), spec_lines(lines@));
                            }
                        }
                    }
                    return Err(e);
                },
                Ok(()) => {},
            }
            pos = if j < total { j + 1 } else { total };
            proof {
                assert(self.content() =~= content_at + line@ + seq!['\n']);
                lemma_rejoin_first_line(t);
                if j < total {
                    assert(t.skip(nl_index(t) as int + 1) =~= lines@.skip(pos as int));
                } else {
                    assert(lines@.skip(pos as int) =~= Seq::<char>::empty());
                    assert(rejoin(spec_lines(Seq::<char>::empty())) == Seq::<char>::empty());
                    assert(t + seq!['\n'] + Seq::<char>::empty() =~= t + seq!['\n']);
                }
                assert(rejoin(spec_lines(t)) == line@ + seq!['\n'] + rejoin(spec_lines(
                    lines@.skip(pos as int),
                )));
                assert(self.content() + rejoin(spec_lines(lines@.skip(pos as int)))
                    =~= content_at + rejoin(spec_lines(t)));
                if !old(self).in_section() {
                    assert(staged_at =~= Seq::<char>::empty());
                    let sec = line@ + seq!['\n'];
                    assert(spec_lines(t).first() == line@);
                    assert(spec_lines(t).drop_first() =~= spec_lines(lines@.skip(pos as int)));
                    assert(close_section_chunks(chunks_at, sec) == Some(self.chunks()));
                    assert(add_lines_chunks(chunks_at, spec_lines(t)) == add_lines_chunks(
                        self.chunks(),
                        spec_lines(lines@.skip(pos as int)),
                    ));
                }
            }
        }
        proof {
            assert(lines@.skip(total as int) =~= Seq::<char>::empty());
            assert(rejoin(spec_lines(Seq::<char>::empty())) == Seq::<char>::empty());
            assert(final(self).content() + Seq::<char>::empty() =~= final(self).content());
            if !old(self).in_section() {
                assert(add_lines_chunks(final(self).chunks(), spec_lines(Seq::<char>::empty()))
                    == Some(final(self).chunks()));
            }
        }
        Ok(())
    }

    /// Finalizes the current section, if one is in progress, with the
    /// default predicate, and returns the final `MsgBunch`.
    pub fn build(self) -> (r: Result<MsgBunch, UnsplittableSection>)
        requires
            self.wf(),
        ensures
            match r {
                Ok(bunch) => {
                    &&& bunch@.len() >= 1
                    &&& concat_all(bunch@) == self.content()
                    &&& self.bounded() ==> all_within(bunch@, MSG_LIMIT as nat)
                    &&& !self.in_section() ==> bunch@ == self.chunks()
                    &&& (self.in_section() && self.open_len() + self.staged().len() <= MSG_LIMIT)
                        ==> bunch@ == self.chunks().update(
                        self.chunks().len() - 1,
                        self.chunks().last() + self.staged(),
                    )
                    &&& (self.in_section() && self.open_len() + self.staged().len() > MSG_LIMIT
                        && self.staged().len() <= MSG_LIMIT) ==> bunch@ == self.chunks().push(
                        self.staged(),
                    )
                    &&& (self.in_section() && self.staged().len() > MSG_LIMIT) ==> bunch@
                        == self.chunks() + split_pieces(self.staged(), default_split_spec())->Some_0
                },
                Err(_) => {
                    &&& self.in_section()
                    &&& self.staged().len() > MSG_LIMIT
                    &&& exists|k: int|
                        0 <= k && k + MSG_LIMIT < self.staged().len()
                            && #[trigger] window_has_no_default_cut(self.staged(), k)
                },
            },
            (self.staged().len() > MSG_LIMIT && (forall|i: int|
                0 <= i < self.staged().len() ==> !default_split_char(
                    #[trigger] self.staged()[i],
                ))) ==> r is Err,
            r is Ok <==> (!self.in_section() || split_pieces(
                self.staged(),
                default_split_spec(),
            ) is Some),
    {
        let mut this = self;
        match this.end_section() {
            Ok(()) => {
                proof {
                    assert(concat_all(this.chunks()) =~= this.content());
                    assert(this.inner@ == this.chunks());
                }
                Ok(this.inner)
            },
            Err(e) => Err(e),
        }
    }

    /// Ends a section, which affects subsequent calls to `add_string`.
    ///
    /// The buffered section is merged into the chunk sequence. If it fits
    /// in the remaining room of the open chunk it is appended there whole;
    /// otherwise it is promoted to one or more brand-new chunks, the open
    /// chunk staying exactly as it was. A section longer than
    /// [`MSG_LIMIT`] is cut greedily, immediately after the last character
    /// accepted by `f` within the first [`MSG_LIMIT`] characters of each
    /// remaining fragment, as [`split_pieces`] spells out; when `f` is a
    /// pure predicate the resulting chunk sequence, and whether the call
    /// succeeds at all, are pinned exactly. If some remaining fragment has
    /// no accepted character in that window, the call fails and the
    /// builder is left as it was, the section still open. After a section
    /// was split across several chunks the running length counter equals
    /// the final remainder's length, so later `add_string` calls see the
    /// true remaining room.
    ///
    /// Does nothing if no section is in progress.
    pub fn end_section_with<F: Fn(char) -> bool>(&mut self, f: F) -> (r: Result<
        (),
        UnsplittableSection,
    >)
        requires
            old(self).wf(),
            forall|c: char| #[trigger] call_requires(f, (c,)),
        ensures
            final(self).wf(),
            !old(self).in_section() ==> r is Ok && *final(self) == *old(self),
            r is Err ==> *final(self) == *old(self),
            r is Ok ==> !final(self).in_section() && final(self).staged() == Seq::<char>::empty(),
            r is Ok ==> final(self).content() == old(self).content(),
            (old(self).in_section() && old(self).open_len() + old(self).staged().len()
                <= MSG_LIMIT) ==> {
                &&& r is Ok
                &&& final(self).chunks() == old(self).chunks().update(
                    old(self).chunks().len() - 1,
                    old(self).chunks().last() + old(self).staged(),
                )
                &&& final(self).open_len() == old(self).open_len() + old(self).staged().len()
            },
            (old(self).in_section() && old(self).open_len() + old(self).staged().len() > MSG_LIMIT
                && old(self).staged().len() <= MSG_LIMIT) ==> {
                &&& r is Ok
                &&& final(self).chunks() == old(self).chunks().push(old(self).staged())
                &&& final(self).open_len() == old(self).staged().len()
            },
            (old(self).in_section() && old(self).open_len() + old(self).staged().len() > MSG_LIMIT
                && r is Ok) ==> {
                &&& final(self).chunks().len() > old(self).chunks().len()
                &&& final(self).chunks().take(old(self).chunks().len() as int) == old(
                    self,
                ).chunks()
                &&& forall|i: int|
                    old(self).chunks().len() <= i < final(self).chunks().len() ==> (
                    #[trigger] final(self).chunks()[i]).len() <= MSG_LIMIT
                &&& forall|i: int|
                    old(self).chunks().len() <= i < final(self).chunks().len() - 1
                        ==> call_ensures(f, ((#[trigger] final(self).chunks()[i]).last(),), true)
            },
            old(self).bounded() && r is Ok ==> final(self).bounded(),
            (r is Ok && old(self).staged().len() > MSG_LIMIT) ==> some_cut_accepted(
                f,
                old(self).staged(),
            ),
            forall|p: spec_fn(char) -> bool|
                (forall|c: char, b: bool| #[trigger] call_ensures(f, (c,), b) ==> b == p(c)) ==> {
                    &&& (r is Ok <==> (!old(self).in_section() || #[trigger] split_pieces(
                        old(self).staged(),
                        p,
                    ) is Some))
                    &&& (old(self).in_section() && old(self).staged().len() > MSG_LIMIT && r is Ok)
                        ==> final(self).chunks() == old(self).chunks() + split_pieces(
                        old(self).staged(),
                        p,
                    )->Some_0
                },
            r is Err ==> {
                &&& old(self).in_section()
                &&& old(self).staged().len() > MSG_LIMIT
                &&& exists|k: int|
                    0 <= k && k + MSG_LIMIT < old(self).staged().len() && #[trigger] window_rejected(
                        f,
                        old(self).staged(),
                        k,
                    )
            },
    {
        let ghost prior = *old(self);
        let sect = self.no_split_section.take();
        match sect {
            None => Ok(()),
            Some(pair) => {
                let (sec_text, size) = pair;
                if size <= MSG_LIMIT && self.chars_num <= MSG_LIMIT - size {
                    proof {
                        assert(self.inner@.len() == self.inner.messages@.len());
                    }
                    let mut last = self.inner.messages.pop().unwrap();
                    last.append(sec_text.as_str());
                    self.inner.messages.push(last);
                    self.chars_num = self.chars_num + size;
                    proof {
                        let updated = prior.inner@.update(
                            prior.inner@.len() - 1,
                            prior.inner@.last() + prior.staged(),
                        );
                        assert(self.inner@ =~= updated);
                        lemma_concat_all_update_last(
                            prior.inner@,
                            prior.inner@.last() + prior.staged(),
                        );
                        assert(concat_all(prior.inner@) == concat_all(prior.inner@.drop_last())
                            + prior.inner@.last());
                        assert(self.content() =~= prior.content());
                        assert forall|i: int| 0 <= i < updated.len() && prior.bounded() implies (
                        #[trigger] updated[i]).len() <= MSG_LIMIT by {
                            assert(prior.inner@[i].len() <= MSG_LIMIT || i == updated.len() - 1);
                        }
                        assert forall|p: spec_fn(char) -> bool| #[trigger] split_pieces(
                            prior.staged(),
                            p,
                        ) is Some by {
                            assert(split_pieces(prior.staged(), p) == Some(seq![prior.staged()]));
                        }
                    }
                    Ok(())
                } else if size <= MSG_LIMIT {
                    self.inner.messages.push(sec_text);
                    self.chars_num = size;
                    proof {
                        assert(self.inner@ =~= prior.inner@.push(prior.staged()));
                        lemma_concat_all_push(prior.inner@, prior.staged());
                        assert(self.content() =~= prior.content());
                        assert(self.inner@.take(prior.inner@.len() as int) =~= prior.inner@);
                        assert forall|p: spec_fn(char) -> bool| #[trigger] split_pieces(
                            prior.staged(),
                            p,
                        ) is Some by {
                            assert(split_pieces(prior.staged(), p) == Some(seq![prior.staged()]));
                        }
                    }
                    Ok(())
                } else {
                    match split_section(sec_text.as_str(), f) {
                        Err(e) => {
                            self.no_split_section = Some((sec_text, size));
                            proof {
                                assert(*self == prior);
                            }
                            Err(e)
                        },
                        Ok(pieces) => {
                            let ghost prior_msgs = self.inner.messages@;
                            let n_pieces = pieces.len();
                            let tail_len = pieces[n_pieces - 1].as_str().unicode_len();
                            let mut k: usize = 0;
                            while k < n_pieces
                                invariant
                                    n_pieces == pieces@.len(),
                                    k <= n_pieces,
                                    self.inner.messages@ == prior_msgs + pieces@.take(k as int),
                                    self.chars_num == prior.chars_num,
                                    self.no_split_section is None,
                                decreases n_pieces - k,
                            {
                                let p = pieces[k].clone();
                                self.inner.messages.push(p);
                                k = k + 1;
                                proof {
                                    assert(self.inner.messages@ =~= prior_msgs + pieces@.take(
                                        k as int,
                                    ));
                                }
                            }
                            self.no_split_section = None;
                            self.chars_num = tail_len;
                            proof {
                                assert(pieces@.take(n_pieces as int) =~= pieces@);
                                assert(self.inner@ =~= prior.inner@ + char_views(pieces@));
                                lemma_concat_all_append(prior.inner@, char_views(pieces@));
                                assert(concat_all(char_views(pieces@)) == prior.staged());
                                assert(self.content() =~= prior.content());
                                assert(self.inner@.take(prior.inner@.len() as int)
                                    =~= prior.inner@);
                                assert(self.inner@.last() == char_views(pieces@).last());
                                assert forall|i: int|
                                    0 <= i < self.inner@.len() && prior.bounded() implies (
                                #[trigger] self.inner@[i]).len() <= MSG_LIMIT by {
                                    if i < prior.inner@.len() {
                                        assert(self.inner@[i] == prior.inner@[i]);
                                    } else {
                                        assert(self.inner@[i] == pieces@[i - prior.inner@.len()]@);
                                    }
                                }
                            }
                            Ok(())
                        },
                    }
                }
            },
        }
    }
}

impl Default for MsgBunch {
    /// An empty bunch with no chunks at all, matching what a value-less
    /// construction gives; the builder starts from one empty open chunk
    /// instead.
    fn default() -> (r: Self)
        ensures
            r@ == Seq::<Seq<char>>::empty(),
    {
        let r = MsgBunch { messages: Vec::new() };
        proof {
            assert(r@ =~= Seq::<Seq<char>>::empty());
        }
        r
    }
}

impl Default for MsgBunchBuilder {
    /// Same as `MsgBunchBuilder::new`.
    fn default() -> (r: Self)
        ensures
            r.wf(),
            !r.in_section(),
            r.staged() == Seq::<char>::empty(),
            r.chunks() == seq![Seq::<char>::empty()],
            r.content() == Seq::<char>::empty(),
            r.bounded(),
    {
        MsgBunchBuilder::new()
    }
}

/// The index of the first newline in `s`, or `s.len()` if there is none.
pub open spec fn nl_index(s: Seq<char>) -> nat
    decreases s.len(),
{
    if s.len() == 0 {
        0
    } else if s[0] == '\n' {
        0
    } else {
        (1 + nl_index(s.drop_first())) as nat
    }
}

proof fn lemma_nl_index(s: Seq<char>)
    ensures
        nl_index(s) <= s.len(),
        forall|j: int| 0 <= j < nl_index(s) ==> s[j] != '\n',
        nl_index(s) < s.len() ==> s[nl_index(s) as int] == '\n',
    decreases s.len(),
{
    if s.len() != 0 && s[0] != '\n' {
        lemma_nl_index(s.drop_first());
        assert forall|j: int| 0 <= j < nl_index(s) implies s[j] != '\n' by {
            if j > 0 {
                assert(s.drop_first()[j - 1] == s[j]);
            }
        }
        if nl_index(s) < s.len() {
            assert(s.drop_first()[nl_index(s) as int - 1] == s[nl_index(s) as int]);
        }
    }
}

/// One carriage return is stripped from the end of a line that a newline
/// ended.
pub open spec fn strip_cr(l: Seq<char>) -> Seq<char> {
    if l.len() > 0 && l.last() == '\r' {
        l.drop_last()
    } else {
        l
    }
}

/// The lines of `s`: split at each newline, a carriage return just before
/// a newline stripped, and a final line that no newline ends kept whole.
pub open spec fn spec_lines(s: Seq<char>) -> Seq<Seq<char>>
    decreases s.len(),
{
    if s.len() == 0 {
        Seq::empty()
    } else if nl_index(s) < s.len() {
        seq![strip_cr(s.take(nl_index(s) as int))] + spec_lines(s.skip(nl_index(s) as int + 1))
    } else {
        seq![s]
    }
}

/// The given lines joined back together, a newline appended to each.
pub open spec fn rejoin(ls: Seq<Seq<char>>) -> Seq<char>
    decreases ls.len(),
{
    if ls.len() == 0 {
        Seq::empty()
    } else {
        ls.first() + seq!['\n'] + rejoin(ls.drop_first())
    }
}

/// Peeling the first line off a non-empty text: its rejoined lines are the
/// first line, a newline, then the rejoined lines of the rest.
proof fn lemma_rejoin_first_line(t: Seq<char>)
    requires
        t.len() > 0,
    ensures
        nl_index(t) < t.len() ==> rejoin(spec_lines(t)) == strip_cr(t.take(nl_index(t) as int))
            + seq!['\n'] + rejoin(spec_lines(t.skip(nl_index(t) as int + 1))),
        nl_index(t) >= t.len() ==> rejoin(spec_lines(t)) == t + seq!['\n'],
{
    lemma_nl_index(t);
    let ls = spec_lines(t);
    if nl_index(t) < t.len() {
        assert(ls.first() == strip_cr(t.take(nl_index(t) as int)));
        assert(ls.drop_first() =~= spec_lines(t.skip(nl_index(t) as int + 1)));
        assert(rejoin(ls) == ls.first() + seq!['\n'] + rejoin(ls.drop_first()));
    } else {
        assert(ls == seq![t]);
        assert(ls.first() == t);
        assert(ls.drop_first() =~= Seq::<Seq<char>>::empty());
        assert(rejoin(Seq::<Seq<char>>::empty()) == Seq::<char>::empty());
        assert(rejoin(ls) == ls.first() + seq!['\n'] + rejoin(ls.drop_first()));
        assert(t + seq!['\n'] + Seq::<char>::empty() =~= t + seq!['\n']);
    }
}

/// Whether `c` is one of the characters the default predicate accepts as
/// a cut point.
pub open spec fn default_split_char(c: char) -> bool {
    c == ';' || c == ',' || c == '.' || c == '?' || c == '!' || c == ')' || c == ':' || c == '-'
}

/// The default predicate as a specification-level function, for use with
/// [`split_pieces`].
pub open spec fn default_split_spec() -> spec_fn(char) -> bool {
    |c: char| default_split_char(c)
}

/// No character in the window of [`MSG_LIMIT`] characters of `s` starting
/// at `k` is a default cut point.
pub open spec fn window_has_no_default_cut(s: Seq<char>, k: int) -> bool {
    forall|i: int| k <= i < k + MSG_LIMIT ==> !default_split_char(#[trigger] s[i])
}

/// The largest index below `n` whose character of `s` the predicate `p`
/// accepts, or `-1` if there is none.
pub open spec fn last_accepted_before(s: Seq<char>, p: spec_fn(char) -> bool, n: nat) -> int
    decreases n,
{
    if n == 0 {
        -1
    } else if p(s[n - 1]) {
        n - 1
    } else {
        last_accepted_before(s, p, (n - 1) as nat)
    }
}

proof fn lemma_last_accepted_before(s: Seq<char>, p: spec_fn(char) -> bool, n: nat)
    ensures
        -1 <= last_accepted_before(s, p, n) < n,
        last_accepted_before(s, p, n) >= 0 ==> p(s[last_accepted_before(s, p, n)]),
        forall|j: int| last_accepted_before(s, p, n) < j < n ==> !p(s[j]),
    decreases n,
{
    if n > 0 && !p(s[n - 1]) {
        lemma_last_accepted_before(s, p, (n - 1) as nat);
    }
}

/// The greedy split of a section under the predicate `p`: while the text
/// is longer than [`MSG_LIMIT`], cut immediately after the last accepted
/// character within its first [`MSG_LIMIT`] characters; `None` where some
/// remaining fragment has no accepted character in that window.
pub open spec fn split_pieces(s: Seq<char>, p: spec_fn(char) -> bool) -> Option<Seq<Seq<char>>>
    decreases s.len(),
{
    if s.len() <= MSG_LIMIT {
        Some(seq![s])
    } else {
        let i = last_accepted_before(s, p, MSG_LIMIT as nat);
        if i < 0 || i >= MSG_LIMIT {
            None
        } else if split_pieces(s.skip(i + 1), p) is Some {
            Some(seq![s.take(i + 1)] + split_pieces(s.skip(i + 1), p)->Some_0)
        } else {
            None
        }
    }
}

/// The pieces already cut, followed by whatever splitting the rest gives.
pub open spec fn prepend_pieces(
    front: Seq<Seq<char>>,
    rest: Option<Seq<Seq<char>>>,
) -> Option<Seq<Seq<char>>> {
    match rest {
        Some(ps) => Some(front + ps),
        None => None,
    }
}

/// The chunk sequence after a buffered section `sec` closes under the
/// default predicate, or `None` where the section cannot be split.
pub open spec fn close_section_chunks(chunks: Seq<Seq<char>>, sec: Seq<char>) -> Option<
    Seq<Seq<char>>,
> {
    if chunks.last().len() + sec.len() <= MSG_LIMIT {
        Some(chunks.update(chunks.len() - 1, chunks.last() + sec))
    } else if sec.len() <= MSG_LIMIT {
        Some(chunks.push(sec))
    } else {
        prepend_pieces(chunks, split_pieces(sec, default_split_spec()))
    }
}

/// The chunk sequence after each line closes as its own section with a
/// newline appended, or `None` where some line cannot be split.
pub open spec fn add_lines_chunks(chunks: Seq<Seq<char>>, ls: Seq<Seq<char>>) -> Option<
    Seq<Seq<char>>,
>
    decreases ls.len(),
{
    if ls.len() == 0 {
        Some(chunks)
    } else {
        match close_section_chunks(chunks, ls.first() + seq!['\n']) {
            Some(next) => add_lines_chunks(next, ls.drop_first()),
            None => None,
        }
    }
}

/// A line that fits in a chunk together with its newline always closes
/// successfully, so a per-line pass over such lines cannot fail.
pub proof fn lemma_add_lines_fit(chunks: Seq<Seq<char>>, ls: Seq<Seq<char>>)
    requires
        forall|i: int| 0 <= i < ls.len() ==> (#[trigger] ls[i]).len() + 1 <= MSG_LIMIT,
    ensures
        add_lines_chunks(chunks, ls) is Some,
    decreases ls.len(),
{
    if ls.len() > 0 {
        let sec = ls.first() + seq!['\n'];
        assert(ls[0].len() + 1 <= MSG_LIMIT);
        assert(close_section_chunks(chunks, sec) is Some);
        assert forall|i: int| 0 <= i < ls.drop_first().len() implies (#[trigger] ls.drop_first()[i]).len()
            + 1 <= MSG_LIMIT by {
            assert(ls.drop_first()[i] == ls[i + 1]);
        }
        lemma_add_lines_fit(close_section_chunks(chunks, sec)->Some_0, ls.drop_first());
    }
}

/// No character in the window of [`MSG_LIMIT`] characters of `s` starting
/// at `k` is accepted as a cut point by `f`.
pub open spec fn window_rejected<F: Fn(char) -> bool>(f: F, s: Seq<char>, k: int) -> bool {
    forall|i: int| k <= i < k + MSG_LIMIT ==> call_ensures(f, (s[i],), false)
}

/// Some character of `s` was accepted as a cut point by `f`.
pub open spec fn some_cut_accepted<F: Fn(char) -> bool>(f: F, s: Seq<char>) -> bool {
    exists|i: int| 0 <= i < s.len() && #[trigger] call_ensures(f, (s[i],), true)
}

/// Splits an oversized protected section into pieces of at most
/// [`MSG_LIMIT`] scalar values each. Every cut falls immediately after a
/// character accepted by `f` within the first [`MSG_LIMIT`] characters of
/// the text still to be placed; if that window holds no accepted
/// character, the whole operation fails rather than emit an oversized
/// piece.
fn split_section<F: Fn(char) -> bool>(text: &str, f: F) -> (r: Result<
    Vec<String>,
    UnsplittableSection,
>)
    requires
        text@.len() > MSG_LIMIT,
        forall|c: char| #[trigger] call_requires(f, (c,)),
    ensures
        match r {
            Ok(pieces) => {
                &&& pieces@.len() >= 2
                &&& some_cut_accepted(f, text@)
                &&& concat_all(char_views(pieces@)) == text@
                &&& forall|i: int|
                    0 <= i < pieces@.len() ==> 1 <= (#[trigger] pieces@[i]@).len() <= MSG_LIMIT
                &&& forall|i: int|
                    0 <= i < pieces@.len() - 1 ==> call_ensures(
                        f,
                        ((#[trigger] pieces@[i]@).last(),),
                        true,
                    )
            },
            Err(_) => exists|k: int|
                0 <= k && k + MSG_LIMIT < text@.len() && #[trigger] window_rejected(f, text@, k),
        },
        forall|p: spec_fn(char) -> bool|
            (forall|c: char, b: bool| #[trigger] call_ensures(f, (c,), b) ==> b == p(c))
                ==> #[trigger] split_pieces(text@, p) == (match r {
                Ok(pieces) => Some(char_views(pieces@)),
                Err(_) => None::<Seq<Seq<char>>>,
            }),
{
    let mut pieces: Vec<String> = Vec::new();
    let mut rest = text.to_owned();
    let mut rest_len = rest.as_str().unicode_len();
    proof {
        assert forall|p: spec_fn(char) -> bool| #[trigger] split_pieces(text@, p)
            == prepend_pieces(char_views(pieces@), split_pieces(rest@, p)) by {
            assert(char_views(pieces@) =~= Seq::<Seq<char>>::empty());
            if split_pieces(text@, p) is Some {
                assert(char_views(pieces@) + split_pieces(text@, p)->Some_0 =~= split_pieces(
                    text@,
                    p,
                )->Some_0);
            }
        }
    }
    while rest_len > MSG_LIMIT
        invariant
            rest_len == rest@.len(),
            forall|p: spec_fn(char) -> bool|
                (forall|c: char, b: bool| #[trigger] call_ensures(f, (c,), b) ==> b == p(c))
                    ==> #[trigger] split_pieces(text@, p) == prepend_pieces(
                    char_views(pieces@),
                    split_pieces(rest@, p),
                ),
            concat_all(char_views(pieces@)) + rest@ == text@,
            pieces@.len() == 0 ==> rest@ == text@,
            pieces@.len() > 0 ==> some_cut_accepted(f, text@),
            text@.len() > MSG_LIMIT,
            rest@.len() >= 1,
            forall|i: int| 0 <= i < pieces@.len() ==> 1 <= (#[trigger] pieces@[i]@).len() <= MSG_LIMIT,
            forall|i: int|
                0 <= i < pieces@.len() ==> call_ensures(f, ((#[trigger] pieces@[i]@).last(),), true),
            forall|c: char| #[trigger] call_requires(f, (c,)),
        decreases rest@.len(),
    {
        let mut i: usize = MSG_LIMIT;
        let mut found = false;
        while !found && i > 0
            invariant
                i <= MSG_LIMIT,
                MSG_LIMIT < rest@.len(),
                rest_len == rest@.len(),
                forall|c: char| #[trigger] call_requires(f, (c,)),
                forall|j: int| i <= j < MSG_LIMIT ==> call_ensures(f, (rest@[j],), false),
                found ==> 1 <= i && call_ensures(f, (rest@[i - 1],), true),
            decreases (if found { 0int } else { i as int }),
        {
            let c = rest.as_str().get_char(i - 1);
            if f(c) {
                found = true;
            } else {
                i = i - 1;
            }
        }
        if !found {
            proof {
                let k = text@.len() - rest@.len();
                assert(rest@ =~= text@.skip(k));
                assert forall|j: int| k <= j < k + MSG_LIMIT implies call_ensures(
                    f,
                    (text@[j],),
                    false,
                ) by {
                    assert(text@[j] == rest@[j - k]);
                }
                assert(window_rejected(f, text@, k));
                assert forall|p: spec_fn(char) -> bool|
                    (forall|c: char, b: bool|
                        #[trigger] call_ensures(f, (c,), b) ==> b == p(
                            c,
                        )) implies #[trigger] split_pieces(text@, p) is None by {
                    lemma_last_accepted_before(rest@, p, MSG_LIMIT as nat);
                    let la = last_accepted_before(rest@, p, MSG_LIMIT as nat);
                    if la >= 0 {
                        assert(call_ensures(f, (rest@[la],), false));
                    }
                    assert(split_pieces(rest@, p) is None);
                    assert(split_pieces(text@, p) == prepend_pieces(
                        char_views(pieces@),
                        split_pieces(rest@, p),
                    ));
                }
            }
            return Err(UnsplittableSection);
        }
        let head = rest.as_str().substring_char(0, i).to_owned();
        let tail = rest.as_str().substring_char(i, rest_len).to_owned();
        let ghost pieces_before = pieces@;
        let ghost head_view = head@;
        let ghost rest_before = rest@;
        proof {
            assert(head_view + tail@ =~= rest_before);
            assert(head_view.last() == rest_before[i - 1]);
            lemma_concat_all_push(char_views(pieces_before), head_view);
            let k = text@.len() - rest_before.len();
            assert(rest_before =~= text@.skip(k));
            assert(text@[k + i - 1] == rest_before[i - 1]);
            assert(some_cut_accepted(f, text@));
        }
        pieces.push(head);
        rest = tail;
        rest_len = rest_len - i;
        proof {
            assert(char_views(pieces@) =~= char_views(pieces_before).push(head_view));
            assert((concat_all(char_views(pieces_before)) + head_view) + rest@ =~= concat_all(
                char_views(pieces_before),
            ) + (head_view + rest@));
            assert(concat_all(char_views(pieces@)) + rest@ =~= text@);
            assert forall|p: spec_fn(char) -> bool|
                (forall|c: char, b: bool|
                    #[trigger] call_ensures(f, (c,), b) ==> b == p(
                        c,
                    )) implies #[trigger] split_pieces(text@, p) == prepend_pieces(
                char_views(pieces@),
                split_pieces(rest@, p),
            ) by {
                lemma_last_accepted_before(rest_before, p, MSG_LIMIT as nat);
                assert(p(rest_before[i - 1]));
                assert forall|j: int| i - 1 < j < MSG_LIMIT implies !p(rest_before[j]) by {
                    assert(call_ensures(f, (rest_before[j],), false));
                }
                assert(last_accepted_before(rest_before, p, MSG_LIMIT as nat) == i - 1);
                assert(rest_before.take(i as int) == head_view);
                assert(rest_before.skip(i as int) == rest@);
                assert(split_pieces(rest_before, p) == (if split_pieces(rest@, p) is Some {
                    Some(seq![head_view] + split_pieces(rest@, p)->Some_0)
                } else {
                    None::<Seq<Seq<char>>>
                }));
                if split_pieces(rest@, p) is Some {
                    assert(char_views(pieces_before) + (seq![head_view] + split_pieces(
                        rest@,
                        p,
                    )->Some_0) =~= char_views(pieces@) + split_pieces(rest@, p)->Some_0);
                }
                assert(split_pieces(text@, p) == prepend_pieces(
                    char_views(pieces_before),
                    split_pieces(rest_before, p),
                ));
            }
        }
    }
    let ghost pre = pieces@;
    let ghost rest_view = rest@;
    proof {
        assert(pieces@.len() >= 1);
        lemma_concat_all_push(char_views(pre), rest_view);
    }
    pieces.push(rest);
    proof {
        assert(char_views(pieces@) =~= char_views(pre).push(rest_view));
        assert(concat_all(char_views(pieces@)) =~= text@);
        assert forall|p: spec_fn(char) -> bool|
            (forall|c: char, b: bool|
                #[trigger] call_ensures(f, (c,), b) ==> b == p(
                    c,
                )) implies #[trigger] split_pieces(text@, p) == Some(char_views(pieces@)) by {
            assert(split_pieces(rest_view, p) == Some(seq![rest_view]));
            assert(split_pieces(text@, p) == prepend_pieces(
                char_views(pre),
                split_pieces(rest_view, p),
            ));
            assert(char_views(pre) + seq![rest_view] =~= char_views(pieces@));
        }
    }
    Ok(pieces)
}

} // verus!
