//! Boundary-marker framing of the raw archive byte stream.
//!
//! A decompressed archive is a flat byte stream in which each record is
//! terminated by a four-byte boundary marker (a carriage-return/line-feed
//! pair repeated twice).  Framing splits the stream at each occurrence of
//! the marker; a frame keeps its terminating marker.  Bytes after the last
//! marker form a final, unterminated frame, which a later parsing stage
//! rejects and skips.
use vstd::prelude::*;

verus! {

/// The four-byte boundary marker that terminates one archive record:
/// a carriage-return/line-feed pair repeated twice.
pub open spec fn boundary_marker() -> Seq<u8> {
    seq![13u8, 10u8, 13u8, 10u8]
}

/// True when the boundary marker occurs in `s` at position `i`.
pub open spec fn marker_at(s: Seq<u8>, i: int) -> bool {
    &&& 0 <= i
    &&& i + 4 <= s.len()
    &&& s[i] == 13u8
    &&& s[i + 1] == 10u8
    &&& s[i + 2] == 13u8
    &&& s[i + 3] == 10u8
}

/// Position of the first boundary marker at or after `i`, if any.
pub open spec fn find_marker_from(s: Seq<u8>, i: int) -> Option<int>
    decreases s.len() - i,
{
    if i < 0 {
        None
    } else if i + 4 > s.len() {
        None
    } else if marker_at(s, i) {
        Some(i)
    } else {
        find_marker_from(s, i + 1)
    }
}

/// The frames of a byte stream: the stream split after each occurrence of
/// the boundary marker, with any unterminated tail kept as a final frame.
pub open spec fn frames_of(s: Seq<u8>) -> Seq<Seq<u8>>
    decreases s.len(),
{
    if s.len() == 0 {
        Seq::empty()
    } else {
        match find_marker_from(s, 0) {
            Option::Some(i) => if marker_at(s, i) {
                seq![s.subrange(0, i + 4)] + frames_of(s.subrange(i + 4, s.len() as int))
            } else {
                seq![s]
            },
            Option::None => seq![s],
        }
    }
}

/// A well-formed record frame: it ends with the boundary marker and the
/// marker occurs nowhere earlier in it.
pub open spec fn well_formed_frame(f: Seq<u8>) -> bool {
    &&& f.len() >= 4
    &&& marker_at(f, f.len() - 4)
    &&& forall|j: int| 0 <= j < f.len() - 4 ==> !marker_at(f, j)
}

/// The concatenation of a sequence of byte strings into one stream.
pub open spec fn concat_all(fs: Seq<Seq<u8>>) -> Seq<u8>
    decreases fs.len(),
{
    if fs.len() == 0 {
        Seq::<u8>::empty()
    } else {
        fs[0] + concat_all(fs.drop_first())
    }
}

/// What `find_marker_from` finds is the first marker at or after `i`.
proof fn lemma_find_marker_from_props(s: Seq<u8>, i: int)
    requires
        0 <= i,
    ensures
        match find_marker_from(s, i) {
            Option::Some(m) => {
                &&& i <= m
                &&& marker_at(s, m)
                &&& forall|j: int| i <= j < m ==> !marker_at(s, j)
            },
            Option::None => forall|j: int| i <= j ==> !marker_at(s, j),
        },
    decreases s.len() - i,
{
    if i + 4 > s.len() {
        assert forall|j: int| i <= j implies !marker_at(s, j) by {}
    } else if marker_at(s, i) {
    } else {
        lemma_find_marker_from_props(s, i + 1);
    }
}

/// If a marker exists, `find_marker_from` starting at or before it finds one.
proof fn lemma_find_marker_from_some(s: Seq<u8>, i: int, m: int)
    requires
        0 <= i <= m,
        marker_at(s, m),
    ensures
        find_marker_from(s, i) is Some,
    decreases m - i,
{
    if !marker_at(s, i) && i < m {
        lemma_find_marker_from_some(s, i + 1, m);
    }
}

/// Prepending one well-formed frame to a stream adds exactly that frame in
/// front of the stream's frames.
pub proof fn lemma_frame_prepend(f: Seq<u8>, rest: Seq<u8>)
    requires
        well_formed_frame(f),
    ensures
        frames_of(f + rest) == seq![f] + frames_of(rest),
{
    let s = f + rest;
    let m = f.len() - 4;
    assert(marker_at(s, m));
    assert forall|j: int| 0 <= j < m implies !marker_at(s, j) by {
        if marker_at(s, j) {
            assert(marker_at(f, j));
        }
    }
    lemma_find_marker_from_some(s, 0, m);
    lemma_find_marker_from_props(s, 0);
    let found = find_marker_from(s, 0)->0;
    assert(!(found < m) && !(m < found));
    assert(found == m);
    assert(s.subrange(0, m + 4) =~= f);
    assert(s.subrange(m + 4, s.len() as int) =~= rest);
    assert(frames_of(s) == seq![f] + frames_of(rest));
}

/// Boundary framing, exactly: a stream that is the concatenation of
/// well-formed record frames splits back into exactly those frames, in
/// order; in particular the empty stream yields no frames.
pub proof fn lemma_framing_exact(fs: Seq<Seq<u8>>)
    requires
        forall|k: int| 0 <= k < fs.len() ==> well_formed_frame(#[trigger] fs[k]),
    ensures
        frames_of(concat_all(fs)) == fs,
    decreases fs.len(),
{
    if fs.len() == 0 {
        assert(concat_all(fs).len() == 0);
        assert(frames_of(concat_all(fs)) =~= fs);
    } else {
        let tail = fs.drop_first();
        assert(forall|k: int| 0 <= k < tail.len() ==> well_formed_frame(#[trigger] tail[k]));
        lemma_framing_exact(tail);
        lemma_frame_prepend(fs[0], concat_all(tail));
        assert(seq![fs[0]] + tail =~= fs);
    }
}

/// Appending one byte string to a concatenation appends its bytes.
pub proof fn lemma_concat_all_snoc(fs: Seq<Seq<u8>>, f: Seq<u8>)
    ensures
        concat_all(fs.push(f)) == concat_all(fs) + f,
    decreases fs.len(),
{
    if fs.len() == 0 {
        assert(fs.push(f).drop_first() =~= Seq::<Seq<u8>>::empty());
        assert(concat_all(fs.push(f)) == f + concat_all(Seq::<Seq<u8>>::empty()));
        assert(f + Seq::<u8>::empty() =~= f);
        assert(concat_all(fs) + f =~= f);
    } else {
        assert(fs.push(f).drop_first() =~= fs.drop_first().push(f));
        lemma_concat_all_snoc(fs.drop_first(), f);
        assert(fs[0] + (concat_all(fs.drop_first()) + f) =~= (fs[0] + concat_all(fs.drop_first()))
            + f);
    }
}

/// Framing a stream of well-formed frames with a marker-free remainder
/// on its end: the frames come back exactly, with the remainder as one
/// final unterminated frame when there is any.
pub proof fn lemma_framing_markerless_tail(fs: Seq<Seq<u8>>, tail: Seq<u8>)
    requires
        forall|k: int| 0 <= k < fs.len() ==> well_formed_frame(#[trigger] fs[k]),
        forall|j: int| !marker_at(tail, j),
    ensures
        frames_of(concat_all(fs) + tail) == if tail.len() == 0 {
            fs
        } else {
            fs.push(tail)
        },
    decreases fs.len(),
{
    if fs.len() == 0 {
        assert(concat_all(fs) + tail =~= tail);
        if tail.len() == 0 {
            assert(frames_of(tail) =~= fs);
        } else {
            lemma_markerless_single_frame(tail);
            assert(seq![tail] =~= fs.push(tail));
        }
    } else {
        let rest = fs.drop_first();
        assert(forall|k: int| 0 <= k < rest.len() ==> well_formed_frame(#[trigger] rest[k]));
        lemma_framing_markerless_tail(rest, tail);
        lemma_frame_prepend(fs[0], concat_all(rest) + tail);
        assert(concat_all(fs) + tail =~= fs[0] + (concat_all(rest) + tail));
        if tail.len() == 0 {
            assert(seq![fs[0]] + rest =~= fs);
        } else {
            assert(seq![fs[0]] + rest.push(tail) =~= fs.push(tail));
        }
    }
}

/// A strict, nonempty prefix of a well-formed frame contains no marker.
pub proof fn lemma_partial_frame_no_marker(f: Seq<u8>, partial: Seq<u8>)
    requires
        well_formed_frame(f),
        partial.len() < f.len(),
        partial == f.subrange(0, partial.len() as int),
    ensures
        forall|j: int| !marker_at(partial, j),
{
    assert forall|j: int| !marker_at(partial, j) by {
        if marker_at(partial, j) {
            assert(marker_at(f, j));
            assert(j < f.len() - 4);
        }
    }
}

/// A stream with no marker in it is a single frame (when nonempty).
proof fn lemma_markerless_single_frame(s: Seq<u8>)
    requires
        s.len() > 0,
        forall|j: int| !marker_at(s, j),
    ensures
        frames_of(s) == seq![s],
{
    lemma_find_marker_from_props(s, 0);
    if find_marker_from(s, 0) is Some {
        assert(marker_at(s, find_marker_from(s, 0)->0));
    }
}

/// Partial-record recovery at the framing level: a stream of well-formed
/// frames truncated strictly inside its last record still frames as the
/// complete frames followed by the truncated tail, kept apart as one
/// marker-free frame.
pub proof fn lemma_truncated_framing(fs: Seq<Seq<u8>>, f: Seq<u8>, partial: Seq<u8>)
    requires
        forall|k: int| 0 <= k < fs.len() ==> well_formed_frame(#[trigger] fs[k]),
        well_formed_frame(f),
        0 < partial.len() < f.len(),
        partial == f.subrange(0, partial.len() as int),
    ensures
        frames_of(concat_all(fs) + partial) == fs.push(partial),
        forall|j: int| !marker_at(partial, j),
{
    lemma_partial_frame_no_marker(f, partial);
    lemma_framing_markerless_tail(fs, partial);
}

/// Find the first occurrence of the boundary marker in `data` at or after
/// position `from`.
pub fn find_marker(data: &Vec<u8>, from: usize) -> (r: Option<usize>)
    ensures
        match r {
            Option::Some(m) => find_marker_from(data@, from as int) == Option::Some(m as int),
            Option::None => find_marker_from(data@, from as int) is None,
        },
{
    if data.len() < 4 || from > data.len() - 4 {
        return Option::None;
    }
    let mut i: usize = from;
    while i <= data.len() - 4
        invariant
            data.len() >= 4,
            from <= i <= data.len(),
            find_marker_from(data@, from as int) == find_marker_from(data@, i as int),
        decreases data.len() - i,
    {
        if data[i] == 13 && data[i + 1] == 10 && data[i + 2] == 13 && data[i + 3] == 10 {
            assert(marker_at(data@, i as int));
            return Option::Some(i);
        }
        assert(!marker_at(data@, i as int));
        i = i + 1;
    }
    Option::None
}

/// Copy `data[start..end]` into a fresh vector.
pub(crate) fn copy_range(data: &Vec<u8>, start: usize, end: usize) -> (r: Vec<u8>)
    requires
        start <= end <= data@.len(),
    ensures
        r@ == data@.subrange(start as int, end as int),
{
    let mut out: Vec<u8> = Vec::new();
    let mut i: usize = start;
    while i < end
        invariant
            start <= i <= end <= data@.len(),
            out@ == data@.subrange(start as int, i as int),
        decreases end - i,
    {
        out.push(data[i]);
        assert(out@ =~= data@.subrange(start as int, i + 1));
        i = i + 1;
    }
    out
}

/// The record extractor's framing pass: split a decompressed stream into
/// its record frames.
pub fn extract_frames(data: &Vec<u8>) -> (frames: Vec<Vec<u8>>)
    ensures
        frames.deep_view() == frames_of(data@),
{
    let mut frames: Vec<Vec<u8>> = Vec::new();
    let mut start: usize = 0;
    proof {
        assert(data@.subrange(0, data@.len() as int) =~= data@);
        assert(frames.deep_view() + frames_of(data@) =~= frames_of(data@));
    }
    loop
        invariant
            start <= data.len(),
            frames_of(data@) == frames.deep_view() + frames_of(
                data@.subrange(start as int, data@.len() as int),
            ),
        decreases data.len() - start,
    {
        let rest_len = data.len() - start;
        let ghost rest = data@.subrange(start as int, data@.len() as int);
        match find_marker(data, start) {
            Option::Some(m) => {
                proof {
                    lemma_find_marker_from_props(data@, start as int);
                    lemma_shift_find(data@, start as int, 0);
                    assert(marker_at(data@, m as int));
                    assert(marker_at(rest, m - start));
                }
                let frame = copy_range(data, start, m + 4);
                assert(frame@ =~= rest.subrange(0, m + 4 - start));
                let ghost old_dv = frames.deep_view();
                frames.push(frame);
                proof {
                    let next = data@.subrange(m + 4, data@.len() as int);
                    assert(rest.subrange(m + 4 - start, rest.len() as int) =~= next);
                    assert(frames_of(rest) == seq![frame@] + frames_of(next));
                    assert(frames.deep_view() =~~= old_dv.push(frame@));
                    assert(old_dv + (seq![frame@] + frames_of(next)) =~= old_dv.push(frame@)
                        + frames_of(next));
                }
                start = m + 4;
            },
            Option::None => {
                proof {
                    lemma_shift_find(data@, start as int, 0);
                }
                if rest_len > 0 {
                    let frame = copy_range(data, start, data.len());
                    assert(frame@ =~= rest);
                    proof {
                        assert(frames_of(rest) == seq![rest]);
                    }
                    let ghost old_dv = frames.deep_view();
                    frames.push(frame);
                    proof {
                        assert(frames.deep_view() =~~= old_dv.push(frame@));
                        assert(old_dv + seq![rest] =~= old_dv.push(rest));
                    }
                } else {
                    assert(frames_of(rest) =~= Seq::<Seq<u8>>::empty());
                    assert(frames.deep_view() + frames_of(rest) =~= frames.deep_view());
                }
                return frames;
            },
        }
    }
}

/// The record extractor's chunk assembler.
///
/// Decoded chunks go in as the stream decoder produces them; each record
/// frame comes out as soon as the byte that completes its boundary
/// marker arrives.  Only the bytes after the last emitted frame are ever
/// held, so the archive is never materialized whole.
pub struct RecordExtractor {
    buf: Vec<u8>,
    history: Ghost<Seq<u8>>,
    emitted: Ghost<Seq<Seq<u8>>>,
}

impl RecordExtractor {
    /// Every byte pushed so far.
    pub closed spec fn history(&self) -> Seq<u8> {
        self.history@
    }

    /// The frames handed out so far, in order.
    pub closed spec fn emitted(&self) -> Seq<Seq<u8>> {
        self.emitted@
    }

    /// The bytes of the record still being assembled.
    pub closed spec fn buffered(&self) -> Seq<u8> {
        self.buf@
    }

    /// The assembler's invariant: the emitted frames followed by the
    /// buffered remainder are exactly the bytes pushed so far, every
    /// emitted frame is well formed, and no boundary marker hides in the
    /// remainder.
    pub closed spec fn wf(&self) -> bool {
        &&& concat_all(self.emitted@) + self.buf@ == self.history@
        &&& forall|k: int| 0 <= k < self.emitted@.len() ==> well_formed_frame(
            #[trigger] self.emitted@[k],
        )
        &&& forall|j: int| !marker_at(self.buf@, j)
    }

    /// A fresh assembler that has seen nothing.
    pub fn new() -> (r: RecordExtractor)
        ensures
            r.wf(),
            r.history() == Seq::<u8>::empty(),
            r.emitted() == Seq::<Seq<u8>>::empty(),
            r.buffered() == Seq::<u8>::empty(),
    {
        let r = RecordExtractor {
            buf: Vec::new(),
            history: Ghost(Seq::<u8>::empty()),
            emitted: Ghost(Seq::<Seq<u8>>::empty()),
        };
        proof {
            assert(concat_all(r.emitted@) + r.buf@ =~= r.history@);
        }
        r
    }

    /// Feed one decoded chunk; the frames it completes come back at
    /// once, in order.
    pub fn push_chunk(&mut self, chunk: &Vec<u8>) -> (frames: Vec<Vec<u8>>)
        requires
            old(self).wf(),
        ensures
            final(self).wf(),
            final(self).history() == old(self).history() + chunk@,
            final(self).emitted() == old(self).emitted() + frames.deep_view(),
            forall|k: int|
                0 <= k < frames.deep_view().len() ==> well_formed_frame(
                    #[trigger] frames.deep_view()[k],
                ),
    {
        proof {
            self.history@ = self.history@ + chunk@;
        }
        let ghost appended = self.buf@ + chunk@;
        let mut i: usize = 0;
        proof {
            assert(self.buf@ =~= appended.subrange(0, self.buf@.len() as int));
            assert(concat_all(self.emitted@) + appended =~= self.history@);
        }
        while i < chunk.len()
            invariant
                i <= chunk@.len(),
                self.buf@ == appended.subrange(0, appended.len() - chunk@.len() + i),
                appended.len() == self.history@.len() - concat_all(self.emitted@).len(),
                concat_all(self.emitted@) + appended == self.history@,
                forall|k: int| 0 <= k < self.emitted@.len() ==> well_formed_frame(
                    #[trigger] self.emitted@[k],
                ),
                self.history@ == old(self).history() + chunk@,
                self.emitted@ == old(self).emitted(),
                appended == old(self).buffered() + chunk@,
            decreases chunk@.len() - i,
        {
            self.buf.push(chunk[i]);
            proof {
                assert(self.buf@ =~= appended.subrange(
                    0,
                    appended.len() - chunk@.len() + i + 1,
                ));
            }
            i = i + 1;
        }
        proof {
            assert(self.buf@ =~= appended);
        }
        let mut frames: Vec<Vec<u8>> = Vec::new();
        proof {
            assert(self.emitted@ =~~= old(self).emitted() + frames.deep_view());
        }
        loop
            invariant
                concat_all(self.emitted@) + self.buf@ == self.history@,
                forall|k: int| 0 <= k < self.emitted@.len() ==> well_formed_frame(
                    #[trigger] self.emitted@[k],
                ),
                self.history@ == old(self).history() + chunk@,
                self.emitted@ == old(self).emitted() + frames.deep_view(),
                old(self).emitted().len() <= self.emitted@.len(),
            decreases self.buf@.len(),
        {
            let ghost before = self.buf@;
            match find_marker(&self.buf, 0) {
                Option::Some(m) => {
                    let buf_len = self.buf.len();
                    proof {
                        lemma_find_marker_from_props(self.buf@, 0);
                        assert(marker_at(self.buf@, m as int));
                        assert(m + 4 <= buf_len);
                    }
                    let mut rest = self.buf.split_off(m + 4);
                    core::mem::swap(&mut self.buf, &mut rest);
                    let frame = rest;
                    proof {
                        assert(frame@ == before.subrange(0, m + 4));
                        assert(self.buf@ == before.subrange(m + 4, before.len() as int));
                        assert(marker_at(frame@, m as int));
                        assert forall|j: int| 0 <= j < m implies !marker_at(frame@, j) by {
                            if marker_at(frame@, j) {
                                assert(marker_at(before, j));
                            }
                        }
                        assert(well_formed_frame(frame@));
                        lemma_concat_all_snoc(self.emitted@, frame@);
                        assert(concat_all(self.emitted@.push(frame@)) + self.buf@
                            =~= concat_all(self.emitted@) + before);
                        self.emitted@ = self.emitted@.push(frame@);
                    }
                    let ghost old_dv = frames.deep_view();
                    let ghost framev = frame@;
                    frames.push(frame);
                    proof {
                        assert(frames.deep_view() =~~= old_dv.push(framev));
                        assert(old(self).emitted() + old_dv.push(framev) =~= (old(
                            self,
                        ).emitted() + old_dv).push(framev));
                    }
                },
                Option::None => {
                    proof {
                        lemma_find_marker_from_props(self.buf@, 0);
                        assert forall|j: int| !marker_at(self.buf@, j) by {
                            if marker_at(self.buf@, j) {
                                assert(j >= 0);
                            }
                        }
                        let dv = frames.deep_view();
                        assert forall|k: int| 0 <= k < dv.len() implies well_formed_frame(
                            #[trigger] dv[k],
                        ) by {
                            assert(dv[k] == self.emitted@[old(self).emitted().len() + k]);
                        }
                    }
                    return frames;
                },
            }
        }
    }

    /// End of stream: whatever is still buffered is the unterminated
    /// tail.  An empty answer — the archive ending exactly at a record
    /// boundary — is the sole well-formed termination.
    pub fn finish(self) -> (tail: Option<Vec<u8>>)
        ensures
            match tail {
                Some(t) => t@ == self.buffered() && t@.len() > 0,
                None => self.buffered().len() == 0,
            },
    {
        let RecordExtractor { buf, history: _, emitted: _ } = self;
        if buf.len() == 0 {
            None
        } else {
            Some(buf)
        }
    }
}

/// The assembler agrees with whole-stream framing: the frames it has
/// emitted, followed by its unterminated remainder when there is one,
/// are exactly the framing of every byte pushed so far — however the
/// stream was cut into chunks.
pub proof fn lemma_extractor_agrees(e: &RecordExtractor)
    requires
        e.wf(),
    ensures
        frames_of(e.history()) == if e.buffered().len() == 0 {
            e.emitted()
        } else {
            e.emitted().push(e.buffered())
        },
{
    lemma_framing_markerless_tail(e.emitted@, e.buf@);
}

/// Searching within the suffix `s[base..]` mirrors searching `s` itself:
/// markers line up position for position.
proof fn lemma_shift_find(s: Seq<u8>, base: int, k: int)
    requires
        0 <= base <= s.len(),
        0 <= k,
    ensures
        match find_marker_from(s, base + k) {
            Option::Some(m) => find_marker_from(s.subrange(base, s.len() as int), k)
                == Option::Some(m - base),
            Option::None => find_marker_from(s.subrange(base, s.len() as int), k) is None,
        },
    decreases s.len() - k - base,
{
    let suf = s.subrange(base, s.len() as int);
    if base + k + 4 > s.len() {
    } else if marker_at(s, base + k) {
        assert(marker_at(suf, k));
    } else {
        assert(!marker_at(suf, k));
        lemma_shift_find(s, base, k + 1);
    }
}

} // verus!
