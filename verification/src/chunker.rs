//! Cuts the annotated text of a document into chunks that a checker can
//! take one by one.

use vstd::prelude::*;
use crate::mapping::MapEntry;
use crate::syntax::Span;
use crate::text_builder::{BuilderView, Chunk, ChunkView, TextBuilder};

verus! {

/// One step of the extraction: a run of annotated text, or the end of a
/// paragraph.
pub ghost enum Event {
    /// Plain text of the node with the given span.
    Text(Seq<char>, Span),
    /// Syntax that the checker does not see.
    Markup(Seq<char>),
    /// Syntax of the node with the given span, and what stands for it.
    Encoded(Seq<char>, Seq<char>, Span),
    /// A paragraph has ended.
    Break,
}

/// Whether one of `entries` has a source.
pub open spec fn has_source(entries: Seq<MapEntry>) -> bool {
    exists|i: int| 0 <= i < entries.len() && (#[trigger] entries[i]).span.file is Some
}

/// The chunk that holds what a builder has collected.
pub open spec fn chunk_of(builder: BuilderView) -> ChunkView {
    ChunkView {
        segments: builder.segments,
        text: builder.text,
        entries: builder.entries,
        language: builder.language,
    }
}

/// A builder that holds nothing yet.
pub open spec fn fresh(language: Seq<char>) -> BuilderView {
    BuilderView { segments: Seq::empty(), text: Seq::empty(), entries: Seq::empty(), language }
}

/// The views of the elements of `chunks`.
pub open spec fn chunk_views(chunks: Seq<Chunk>) -> Seq<ChunkView> {
    chunks.map_values(|c: Chunk| c@)
}

/// The state of a [`Chunker`]: the chunks that are finished, the one that
/// is being filled, and the number of characters above which a chunk is
/// finished at the end of a paragraph.
pub ghost struct ChunkerView {
    pub done: Seq<ChunkView>,
    pub current: BuilderView,
    pub max: nat,
}

impl ChunkerView {
    /// The state before anything was added.
    pub open spec fn start(max: nat, language: Seq<char>) -> ChunkerView {
        ChunkerView { done: Seq::empty(), current: fresh(language), max }
    }

    /// The state after the chunk that is being filled was finished. A
    /// chunk in which no character has a source is dropped.
    pub open spec fn flushed(self) -> ChunkerView {
        ChunkerView {
            done: if has_source(self.current.entries) {
                self.done.push(chunk_of(self.current))
            } else {
                self.done
            },
            current: fresh(self.current.language),
            ..self
        }
    }

    /// The state after a paragraph has ended: the chunk is finished if it
    /// holds more characters than the limit.
    pub open spec fn paragraph_end(self) -> ChunkerView {
        if self.current.entries.len() > self.max {
            self.flushed()
        } else {
            self
        }
    }

    /// The state after one step.
    pub open spec fn emit(self, event: Event) -> ChunkerView {
        match event {
            Event::Text(text, span) => ChunkerView {
                current: self.current.add_text(text, span),
                ..self
            },
            Event::Markup(markup) => ChunkerView {
                current: self.current.add_markup(markup),
                ..self
            },
            Event::Encoded(markup, text, span) => ChunkerView {
                current: self.current.add_encoded(markup, text, span),
                ..self
            },
            Event::Break => self.paragraph_end(),
        }
    }

    /// The state after the steps `events`, one after the other.
    pub open spec fn run(self, events: Seq<Event>) -> ChunkerView
        decreases events.len(),
    {
        if events.len() == 0 {
            self
        } else {
            self.run(events.drop_last()).emit(events.last())
        }
    }

    /// The chunks of the document, once nothing more is added.
    pub open spec fn result(self) -> Seq<ChunkView> {
        self.flushed().done
    }
}

/// Running a single step is taking that step.
pub proof fn lemma_run_one(state: ChunkerView, event: Event)
    ensures
        state.run(seq![event]) == state.emit(event),
{
    assert(seq![event].drop_last() =~= Seq::<Event>::empty());
    assert(state.run(Seq::<Event>::empty()) == state);
    assert(seq![event].last() == event);
}

/// Running two rows of steps one after the other is running them as one.
pub proof fn lemma_run_concat(state: ChunkerView, first: Seq<Event>, second: Seq<Event>)
    ensures
        state.run(first + second) == state.run(first).run(second),
    decreases second.len(),
{
    if second.len() == 0 {
        assert(first + second =~= first);
    } else {
        assert((first + second).drop_last() =~= first + second.drop_last());
        assert((first + second).last() == second.last());
        lemma_run_concat(state, first, second.drop_last());
    }
}

/// Running a row of steps and then one more.
pub proof fn lemma_run_push(state: ChunkerView, events: Seq<Event>, event: Event)
    ensures
        state.run(events.push(event)) == state.run(events).emit(event),
{
    assert(events.push(event).drop_last() =~= events);
}

/// Whether one of `entries` has a source.
fn any_source(entries: &Vec<MapEntry>) -> (found: bool)
    ensures
        found == has_source(entries@),
{
    let mut i: usize = 0;
    while i < entries.len()
        invariant
            0 <= i <= entries@.len(),
            forall|j: int| 0 <= j < i ==> (#[trigger] entries@[j]).span.file is None,
        decreases entries@.len() - i,
    {
        if entries[i].span.file.is_some() {
            return true;
        }
        i += 1;
    }
    false
}

/// Fills chunks with annotated text and finishes a chunk at the end of a
/// paragraph once it has grown beyond a limit. A chunk is never finished
/// anywhere else, so that no sentence is cut in two; it may therefore
/// exceed the limit by up to a paragraph.
#[derive(Debug)]
pub struct Chunker {
    chunks: Vec<Chunk>,
    builder: TextBuilder,
    max: usize,
}

impl Chunker {
    /// What has been added so far.
    pub closed spec fn view(&self) -> ChunkerView {
        ChunkerView { done: chunk_views(self.chunks@), current: self.builder@, max: self.max as nat }
    }

    /// A chunker for text in `language` that finishes a chunk at the end
    /// of a paragraph once the chunk holds more than `max` characters.
    pub fn new(max: usize, language: &str) -> (chunker: Chunker)
        ensures
            chunker@ == ChunkerView::start(max as nat, language@),
    {
        let chunker = Chunker {
            chunks: Vec::new(),
            builder: TextBuilder::new(language),
            max,
        };
        assert(chunker@.done =~= Seq::empty());
        chunker
    }

    /// Adds plain text of the node `span`.
    pub fn text(&mut self, text: &str, span: Span)
        ensures
            final(self)@ == old(self)@.emit(Event::Text(text@, span)),
    {
        self.builder.add_text(text, span);
    }

    /// Adds syntax that the checker is not to see.
    pub fn markup(&mut self, markup: &str)
        ensures
            final(self)@ == old(self)@.emit(Event::Markup(markup@)),
    {
        self.builder.add_markup(markup);
    }

    /// Adds the syntax `markup` of the node `span` and `text` in its place.
    pub fn encoded(&mut self, markup: &str, text: &str, span: Span)
        ensures
            final(self)@ == old(self)@.emit(Event::Encoded(markup@, text@, span)),
    {
        self.builder.add_encoded(markup, text, span);
    }

    /// Finishes the chunk that is being filled.
    fn flush(&mut self)
        ensures
            final(self)@ == old(self)@.flushed(),
    {
        let mut builder = TextBuilder::new(self.builder.language());
        std::mem::swap(&mut builder, &mut self.builder);
        let chunk = builder.finish();
        if any_source(&chunk.mapping.chars) {
            self.chunks.push(chunk);
            assert(chunk_views(self.chunks@) =~= chunk_views(old(self).chunks@).push(chunk@));
        }
    }

    /// Tells the chunker that a paragraph has ended.
    pub fn paragraph_end(&mut self)
        ensures
            final(self)@ == old(self)@.emit(Event::Break),
    {
        if self.builder.char_count() > self.max {
            self.flush();
        }
    }

    /// Finishes the last chunk and hands out all chunks.
    pub fn finish(self) -> (chunks: Vec<Chunk>)
        ensures
            chunk_views(chunks@) == self@.result(),
    {
        let mut chunker = self;
        chunker.flush();
        chunker.chunks
    }
}

} // verus!
