//! The annotated text of one chunk: what a checker is to read, what it is
//! to skip, and where each character that it reads comes from.

use vstd::prelude::*;
use vstd::string::StringExecFns;
use crate::mapping::{MapEntry, Mapping};
use crate::syntax::Span;
use crate::text::{
    byte_len, char_width, chars_of, lemma_utf8_len_take, utf8_len,
};

verus! {

/// One run of annotated text.
#[derive(Clone, Debug, PartialEq, Eq)]
pub enum Segment {
    /// Text that the checker reads as it stands.
    Text(String),
    /// Syntax that the checker does not see.
    Markup(String),
    /// Syntax, and what the checker reads in its place.
    Encoded(String, String),
}

/// Mathematical counterpart of [`Segment`].
pub ghost enum SegmentView {
    Text(Seq<char>),
    Markup(Seq<char>),
    Encoded(Seq<char>, Seq<char>),
}

impl View for Segment {
    type V = SegmentView;

    open spec fn view(&self) -> SegmentView {
        match self {
            Segment::Text(text) => SegmentView::Text(text@),
            Segment::Markup(markup) => SegmentView::Markup(markup@),
            Segment::Encoded(markup, text) => SegmentView::Encoded(markup@, text@),
        }
    }
}

/// The views of the elements of `segments`.
pub open spec fn segment_views(segments: Seq<Segment>) -> Seq<SegmentView> {
    segments.map_values(|s: Segment| s@)
}

/// What the checker reads of `segment`.
pub open spec fn visible(segment: SegmentView) -> Seq<char> {
    match segment {
        SegmentView::Text(text) => text,
        SegmentView::Markup(_) => Seq::empty(),
        SegmentView::Encoded(_, text) => text,
    }
}

/// What `segment` stands for in the source.
pub open spec fn stands_for(segment: SegmentView) -> Seq<char> {
    match segment {
        SegmentView::Text(text) => text,
        SegmentView::Markup(markup) => markup,
        SegmentView::Encoded(markup, _) => markup,
    }
}

/// Whether `segment` holds no character at all.
pub open spec fn is_blank(segment: SegmentView) -> bool {
    visible(segment).len() == 0 && stands_for(segment).len() == 0
}

/// Whether two segments are of the same kind.
pub open spec fn same_kind(a: SegmentView, b: SegmentView) -> bool {
    match (a, b) {
        (SegmentView::Text(_), SegmentView::Text(_)) => true,
        (SegmentView::Markup(_), SegmentView::Markup(_)) => true,
        (SegmentView::Encoded(_, _), SegmentView::Encoded(_, _)) => true,
        _ => false,
    }
}

/// Two segments of one kind as a single segment.
pub open spec fn joined(a: SegmentView, b: SegmentView) -> SegmentView {
    match (a, b) {
        (SegmentView::Text(x), SegmentView::Text(y)) => SegmentView::Text(x + y),
        (SegmentView::Markup(x), SegmentView::Markup(y)) => SegmentView::Markup(x + y),
        (SegmentView::Encoded(x, s), SegmentView::Encoded(y, t)) => SegmentView::Encoded(
            x + y,
            s + t,
        ),
        _ => a,
    }
}

/// The segments after `next` was added: a blank segment leaves them as
/// they are, one of the kind of the last segment is joined to it, any
/// other follows it.
pub open spec fn pushed(segments: Seq<SegmentView>, next: SegmentView) -> Seq<SegmentView> {
    if is_blank(next) {
        segments
    } else if segments.len() > 0 && same_kind(segments.last(), next) {
        segments.drop_last().push(joined(segments.last(), next))
    } else {
        segments.push(next)
    }
}

/// What the checker reads of `segments`.
pub open spec fn stream_of(segments: Seq<SegmentView>) -> Seq<char>
    decreases segments.len(),
{
    if segments.len() == 0 {
        Seq::empty()
    } else {
        stream_of(segments.drop_last()) + visible(segments.last())
    }
}

/// The source text that `segments` stand for.
pub open spec fn source_of_segments(segments: Seq<SegmentView>) -> Seq<char>
    decreases segments.len(),
{
    if segments.len() == 0 {
        Seq::empty()
    } else {
        source_of_segments(segments.drop_last()) + stands_for(segments.last())
    }
}

/// Whether no segment is blank and no two neighbours are of one kind.
pub open spec fn tidy(segments: Seq<SegmentView>) -> bool {
    &&& forall|i: int| 0 <= i < segments.len() ==> !is_blank(#[trigger] segments[i])
    &&& forall|i: int|
        0 < i < segments.len() ==> !same_kind(segments[i - 1], #[trigger] segments[i])
}

/// The entries of the characters of a plain text node with span `span`:
/// each character maps to its own bytes within the node.
pub open spec fn text_entries(text: Seq<char>, span: Span) -> Seq<MapEntry> {
    Seq::new(
        text.len(),
        |i: int|
            MapEntry {
                span,
                start: utf8_len(text.take(i)) as usize,
                end: utf8_len(text.take(i + 1)) as usize,
            },
    )
}

/// The entries of the characters that stand in place of syntax with span
/// `span`: each maps to all `len` bytes of the syntax.
pub open spec fn cover_entries(count: nat, span: Span, len: nat) -> Seq<MapEntry> {
    Seq::new(count, |i: int| MapEntry { span, start: 0, end: len as usize })
}

/// The state of a [`TextBuilder`].
pub ghost struct BuilderView {
    pub segments: Seq<SegmentView>,
    pub text: Seq<char>,
    pub entries: Seq<MapEntry>,
    pub language: Seq<char>,
}

impl BuilderView {
    /// The state after plain text of the node `span` was added.
    pub open spec fn add_text(self, text: Seq<char>, span: Span) -> BuilderView {
        BuilderView {
            segments: pushed(self.segments, SegmentView::Text(text)),
            text: self.text + text,
            entries: self.entries + text_entries(text, span),
            ..self
        }
    }

    /// The state after syntax was added that the checker does not see.
    pub open spec fn add_markup(self, markup: Seq<char>) -> BuilderView {
        BuilderView { segments: pushed(self.segments, SegmentView::Markup(markup)), ..self }
    }

    /// The state after the syntax `markup` of the node `span` was added,
    /// with `text` for the checker to read in its place.
    pub open spec fn add_encoded(self, markup: Seq<char>, text: Seq<char>, span: Span) -> BuilderView {
        BuilderView {
            segments: pushed(self.segments, SegmentView::Encoded(markup, text)),
            text: self.text + text,
            entries: self.entries + cover_entries(text.len(), span, utf8_len(markup)),
            ..self
        }
    }

    /// Whether the text is what the checker reads of the segments, with
    /// one entry for each of its characters.
    pub open spec fn aligned(self) -> bool {
        &&& self.text == stream_of(self.segments)
        &&& self.entries.len() == self.text.len()
        &&& tidy(self.segments)
    }
}

/// Adding a segment adds what the checker reads of it to the stream, and
/// what it stands for to the source text.
pub proof fn lemma_pushed_stream(segments: Seq<SegmentView>, next: SegmentView)
    ensures
        stream_of(pushed(segments, next)) == stream_of(segments) + visible(next),
        source_of_segments(pushed(segments, next)) == source_of_segments(segments) + stands_for(
            next,
        ),
{
    let after = pushed(segments, next);
    if is_blank(next) {
        assert(stream_of(segments) + visible(next) =~= stream_of(segments));
        assert(source_of_segments(segments) + stands_for(next) =~= source_of_segments(segments));
    } else if segments.len() > 0 && same_kind(segments.last(), next) {
        assert(after.drop_last() =~= segments.drop_last());
        assert(visible(joined(segments.last(), next)) =~= visible(segments.last()) + visible(
            next,
        ));
        assert(stands_for(joined(segments.last(), next)) =~= stands_for(segments.last())
            + stands_for(next));
        assert(stream_of(after) =~= stream_of(segments) + visible(next));
        assert(source_of_segments(after) =~= source_of_segments(segments) + stands_for(next));
    } else {
        assert(after.drop_last() =~= segments);
    }
}

/// Adding a segment keeps the segments tidy.
pub proof fn lemma_pushed_tidy(segments: Seq<SegmentView>, next: SegmentView)
    requires
        tidy(segments),
    ensures
        tidy(pushed(segments, next)),
{
    let after = pushed(segments, next);
    if is_blank(next) {
    } else if segments.len() > 0 && same_kind(segments.last(), next) {
        let n = segments.len() as int;
        assert forall|i: int| 0 <= i < after.len() implies !is_blank(#[trigger] after[i]) by {
            if i < n - 1 {
                assert(after[i] == segments[i]);
            } else {
                assert(!is_blank(segments[n - 1]));
            }
        }
        assert forall|i: int| 0 < i < after.len() implies !same_kind(
            after[i - 1],
            #[trigger] after[i],
        ) by {
            assert(after[i - 1] == segments[i - 1]);
            if i < n - 1 {
                assert(after[i] == segments[i]);
            } else {
                assert(!same_kind(segments[i - 1], segments[i]));
            }
        }
    } else {
        assert forall|i: int| 0 < i < after.len() implies !same_kind(
            after[i - 1],
            #[trigger] after[i],
        ) by {
            if i < segments.len() {
                assert(!same_kind(segments[i - 1], segments[i]));
            }
        }
    }
}

/// Each way of adding to an aligned state gives an aligned state.
pub proof fn lemma_add_keeps_aligned(
    state: BuilderView,
    markup: Seq<char>,
    text: Seq<char>,
    span: Span,
)
    requires
        state.aligned(),
    ensures
        state.add_text(text, span).aligned(),
        state.add_markup(markup).aligned(),
        state.add_encoded(markup, text, span).aligned(),
{
    lemma_pushed_stream(state.segments, SegmentView::Text(text));
    lemma_pushed_stream(state.segments, SegmentView::Markup(markup));
    lemma_pushed_stream(state.segments, SegmentView::Encoded(markup, text));
    lemma_pushed_tidy(state.segments, SegmentView::Text(text));
    lemma_pushed_tidy(state.segments, SegmentView::Markup(markup));
    lemma_pushed_tidy(state.segments, SegmentView::Encoded(markup, text));
    assert(stream_of(state.segments) + visible(SegmentView::Markup(markup)) =~= stream_of(
        state.segments,
    ));
}

/// Segments that are all markup leave nothing for the checker to read.
pub proof fn lemma_markup_is_invisible(segments: Seq<SegmentView>)
    requires
        forall|i: int| 0 <= i < segments.len() ==> #[trigger] segments[i] is Markup,
    ensures
        stream_of(segments).len() == 0,
    decreases segments.len(),
{
    if segments.len() > 0 {
        assert(segments.last() is Markup);
        assert forall|i: int| 0 <= i < segments.drop_last().len() implies #[trigger] segments.drop_last()[i] is Markup by {
            assert(segments.drop_last()[i] == segments[i]);
        }
        lemma_markup_is_invisible(segments.drop_last());
    }
}

/// The annotated text of one chunk, with its position map.
#[derive(Debug)]
pub struct Chunk {
    pub segments: Vec<Segment>,
    pub text: String,
    pub mapping: Mapping,
}

/// Mathematical counterpart of [`Chunk`].
pub ghost struct ChunkView {
    pub segments: Seq<SegmentView>,
    pub text: Seq<char>,
    pub entries: Seq<MapEntry>,
    pub language: Seq<char>,
}

impl View for Chunk {
    type V = ChunkView;

    open spec fn view(&self) -> ChunkView {
        ChunkView {
            segments: segment_views(self.segments@),
            text: self.text@,
            entries: self.mapping.chars@,
            language: self.mapping.language@,
        }
    }
}

/// Collects annotated text. Segments of one kind that follow each other
/// are joined: a segment is held back until one of another kind arrives
/// or the text is finished.
#[derive(Debug)]
pub struct TextBuilder {
    segments: Vec<Segment>,
    pending: Option<Segment>,
    text: String,
    mapping: Mapping,
}

/// The entries of the characters `text` of a plain text node.
fn entries_of_text(text: &str, span: Span) -> (entries: Vec<MapEntry>)
    ensures
        entries@ == text_entries(text@, span),
{
    let chars = chars_of(text);
    let total = byte_len(text);
    let mut entries: Vec<MapEntry> = Vec::new();
    let mut at: usize = 0;
    let mut i: usize = 0;
    proof {
        assert(utf8_len(chars@.take(0)) == 0);
    }
    while i < chars.len()
        invariant
            0 <= i <= chars@.len(),
            chars@ == text@,
            total == utf8_len(chars@),
            at == utf8_len(chars@.take(i as int)),
            entries@ == text_entries(text@, span).take(i as int),
        decreases chars@.len() - i,
    {
        proof {
            lemma_utf8_len_take(chars@, i as int);
        }
        let end = at + char_width(chars[i]);
        entries.push(MapEntry { span, start: at, end });
        assert(entries@ =~= text_entries(text@, span).take(i + 1));
        at = end;
        i += 1;
    }
    assert(text_entries(text@, span).take(chars@.len() as int) =~= text_entries(text@, span));
    entries
}

/// The segments that a builder holds: the finished ones, and the one
/// that is held back.
spec fn held(segments: Seq<Segment>, pending: Option<Segment>) -> Seq<SegmentView> {
    match pending {
        Some(segment) => segment_views(segments).push(segment@),
        None => segment_views(segments),
    }
}

/// Takes the segment that was added last out of the segments.
fn take_last(segments: &mut Vec<Segment>, pending: &mut Option<Segment>) -> (last: Option<Segment>)
    ensures
        *final(pending) is None,
        match last {
            Some(segment) => held(old(segments)@, *old(pending)).len() > 0 && segment@ == held(
                old(segments)@,
                *old(pending),
            ).last() && held(final(segments)@, None) == held(
                old(segments)@,
                *old(pending),
            ).drop_last(),
            None => held(old(segments)@, *old(pending)).len() == 0 && final(segments)@.len() == 0,
        },
{
    let taken = pending.take();
    match taken {
        Some(segment) => {
            assert(held(segments@, None) =~= held(old(segments)@, *old(pending)).drop_last());
            Some(segment)
        },
        None => {
            let ghost before = segments@;
            let last = segments.pop();
            if last.is_some() {
                assert(segment_views(segments@) =~= segment_views(before).drop_last());
            }
            last
        },
    }
}

/// Puts `next` behind the segments, joined with the last of them if that
/// is of the same kind. Nothing comes of a segment that holds nothing.
fn push_segment(segments: &mut Vec<Segment>, pending: &mut Option<Segment>, next: Segment)
    requires
        !is_blank(next@),
    ensures
        held(final(segments)@, *final(pending)) == pushed(
            held(old(segments)@, *old(pending)),
            next@,
        ),
{
    let ghost before = held(segments@, *pending);
    let ghost added = next@;
    match take_last(segments, pending) {
        Some(last) => {
            match (last, next) {
                (Segment::Text(mut first), Segment::Text(second)) => {
                    first.append(second.as_str());
                    *pending = Some(Segment::Text(first));
                },
                (Segment::Markup(mut first), Segment::Markup(second)) => {
                    first.append(second.as_str());
                    *pending = Some(Segment::Markup(first));
                },
                (Segment::Encoded(mut first, mut shown), Segment::Encoded(second, text)) => {
                    first.append(second.as_str());
                    shown.append(text.as_str());
                    *pending = Some(Segment::Encoded(first, shown));
                },
                (last, next) => {
                    let ghost rest = segments@;
                    let ghost kept = last@;
                    segments.push(last);
                    assert(segment_views(segments@) =~= segment_views(rest).push(kept));
                    *pending = Some(next);
                },
            }
        },
        None => {
            *pending = Some(next);
        },
    }
    assert(held(segments@, *pending) =~= pushed(before, added));
}

impl TextBuilder {
    /// What has been added so far.
    pub closed spec fn view(&self) -> BuilderView {
        BuilderView {
            segments: held(self.segments@, self.pending),
            text: self.text@,
            entries: self.mapping.chars@,
            language: self.mapping.language@,
        }
    }

    /// The text is what the checker reads of the segments, with one
    /// entry for each of its characters.
    #[verifier::type_invariant]
    spec fn in_step(self) -> bool {
        self@.aligned()
    }

    /// An empty text in `language`.
    pub fn new(language: &str) -> (builder: TextBuilder)
        ensures
            builder@ == (BuilderView {
                segments: Seq::empty(),
                text: Seq::empty(),
                entries: Seq::empty(),
                language: language@,
            }),
            builder@.aligned(),
    {
        let mapping = Mapping::new(language);
        assert(held(Seq::empty(), None) =~= Seq::empty());
        assert(mapping.chars@ =~= Seq::empty());
        assert(stream_of(Seq::<SegmentView>::empty()) =~= Seq::<char>::empty());
        TextBuilder { segments: Vec::new(), pending: None, text: String::new(), mapping }
    }

    /// The language of the text.
    pub fn language(&self) -> (language: &str)
        ensures
            language@ == self@.language,
    {
        self.mapping.language.as_str()
    }

    /// Number of characters that the checker is to read so far.
    pub fn char_count(&self) -> (n: usize)
        ensures
            n == self@.entries.len(),
            n == self@.text.len(),
    {
        proof {
            use_type_invariant(self);
        }
        self.mapping.chars.len()
    }

    /// Adds `next` with the text `shown` for the checker and the entries
    /// of its characters.
    fn add(&mut self, next: Segment, shown: &str, entries: Vec<MapEntry>, Ghost(after): Ghost<
        BuilderView,
    >)
        requires
            !is_blank(next@),
            after.aligned(),
            after.segments == pushed(old(self)@.segments, next@),
            after.text == old(self)@.text + shown@,
            after.entries == old(self)@.entries + entries@,
            after.language == old(self)@.language,
        ensures
            final(self)@ == after,
    {
        let mut whole = TextBuilder::new("");
        core::mem::swap(self, &mut whole);
        let mut segments = whole.segments;
        let mut pending = whole.pending;
        let mut text = whole.text;
        let mut mapping = whole.mapping;
        let mut entries = entries;
        push_segment(&mut segments, &mut pending, next);
        text.append(shown);
        mapping.chars.append(&mut entries);
        *self = TextBuilder { segments, pending, text, mapping };
    }

    /// Adds plain text of the node `span` for the checker to read.
    pub fn add_text(&mut self, text: &str, span: Span)
        ensures
            final(self)@ == old(self)@.add_text(text@, span),
            final(self)@.aligned(),
    {
        proof {
            use_type_invariant(&*self);
            lemma_add_keeps_aligned(self@, Seq::empty(), text@, span);
        }
        let entries = entries_of_text(text, span);
        if entries.len() == 0 {
            assert(self@.text + text@ =~= self@.text);
            assert(self@.entries + text_entries(text@, span) =~= self@.entries);
            return ;
        }
        self.add(
            Segment::Text(text.to_owned()),
            text,
            entries,
            Ghost(self@.add_text(text@, span)),
        );
    }

    /// Adds syntax that the checker is not to see: the text for the
    /// checker and its entries stay as they are.
    pub fn add_markup(&mut self, markup: &str)
        ensures
            final(self)@ == old(self)@.add_markup(markup@),
            final(self)@.text == old(self)@.text,
            final(self)@.entries == old(self)@.entries,
            final(self)@.aligned(),
    {
        proof {
            use_type_invariant(&*self);
            lemma_add_keeps_aligned(self@, markup@, Seq::empty(), Span { file: None, number: 0 });
            reveal_strlit("");
        }
        if markup.unicode_len() == 0 {
            return ;
        }
        assert(self@.text + ""@ =~= self@.text);
        assert(self@.entries + Seq::<MapEntry>::empty() =~= self@.entries);
        self.add(
            Segment::Markup(markup.to_owned()),
            "",
            Vec::new(),
            Ghost(self@.add_markup(markup@)),
        );
    }

    /// Adds the syntax `markup` of the node `span`, and `text` for the
    /// checker to read in its place.
    pub fn add_encoded(&mut self, markup: &str, text: &str, span: Span)
        ensures
            final(self)@ == old(self)@.add_encoded(markup@, text@, span),
            final(self)@.aligned(),
    {
        proof {
            use_type_invariant(&*self);
            lemma_add_keeps_aligned(self@, markup@, text@, span);
        }
        let count = text.unicode_len();
        if markup.unicode_len() == 0 && count == 0 {
            assert(self@.text + text@ =~= self@.text);
            assert(self@.entries + cover_entries(text@.len(), span, utf8_len(markup@))
                =~= self@.entries);
            return ;
        }
        let len = byte_len(markup);
        let mut entries: Vec<MapEntry> = Vec::new();
        let mut i: usize = 0;
        while i < count
            invariant
                0 <= i <= count,
                len == utf8_len(markup@),
                entries@ == cover_entries(i as nat, span, len as nat),
            decreases count - i,
        {
            entries.push(MapEntry { span, start: 0, end: len });
            assert(entries@ =~= cover_entries((i + 1) as nat, span, len as nat));
            i += 1;
        }
        self.add(
            Segment::Encoded(markup.to_owned(), text.to_owned()),
            text,
            entries,
            Ghost(self@.add_encoded(markup@, text@, span)),
        );
    }

    /// Finishes the text and hands it out with its position map. The
    /// text of the chunk is what the checker reads of its segments, with
    /// one entry for each character.
    pub fn finish(self) -> (chunk: Chunk)
        ensures
            chunk@.segments == self@.segments,
            chunk@.text == self@.text,
            chunk@.entries == self@.entries,
            chunk@.language == self@.language,
            chunk@.text == stream_of(chunk@.segments),
            chunk@.entries.len() == chunk@.text.len(),
            tidy(chunk@.segments),
    {
        proof {
            use_type_invariant(&self);
        }
        let mut segments = self.segments;
        match self.pending {
            Some(segment) => {
                let ghost rest = segments@;
                segments.push(segment);
                assert(segment_views(segments@) =~= segment_views(rest).push(segment@));
            },
            None => {},
        }
        Chunk { segments, text: self.text, mapping: self.mapping }
    }
}

} // verus!
