use quick_xml::events::Event;
use vstd::prelude::*;

verus! {

/// A `quick_xml` reader over a text held in memory. The reader's own type is generic
/// over a source of bytes, which cannot be declared here, so it is kept behind this
/// struct, whose inside is hidden from the verifier.
#[verifier::external_body]
pub struct MarkupReader<'a> {
    reader: quick_xml::Reader<&'a [u8]>,
}

/// What the reader hands out, as plain values.
pub enum MarkupEvent {
    /// An opening tag with its attributes, each a key and its raw value. A malformed
    /// attribute stands as `None`; the reader gives up on the tag there, so nothing
    /// follows it.
    Open { name: String, attributes: Vec<Option<(String, String)>> },
    /// A closing tag.
    Close { name: String },
    /// Character data, unescaped; `None` where it could not be unescaped.
    Text { content: Option<String> },
    /// Anything else: a comment, a declaration, an empty element, a syntax error.
    Other,
    /// The end of the input.
    End,
}

/// An event as mathematics.
pub enum EventView {
    Open { name: Seq<char>, attributes: Seq<Option<(Seq<char>, Seq<char>)>> },
    Close { name: Seq<char> },
    Text { content: Option<Seq<char>> },
    Other,
    End,
}

/// The views of a tag's attributes, in order.
pub open spec fn attribute_views(attributes: Seq<Option<(String, String)>>) -> Seq<
    Option<(Seq<char>, Seq<char>)>,
> {
    Seq::new(
        attributes.len(),
        |i: int|
            match attributes[i] {
                Some(a) => Some((a.0@, a.1@)),
                None => None,
            },
    )
}

impl View for MarkupEvent {
    type V = EventView;

    open spec fn view(&self) -> EventView {
        match self {
            MarkupEvent::Open { name, attributes } => EventView::Open {
                name: name@,
                attributes: attribute_views(attributes@),
            },
            MarkupEvent::Close { name } => EventView::Close { name: name@ },
            MarkupEvent::Text { content } => EventView::Text {
                content: match content {
                    Some(s) => Some(s@),
                    None => None,
                },
            },
            MarkupEvent::Other => EventView::Other,
            MarkupEvent::End => EventView::End,
        }
    }
}

/// The views of a run of events, in order.
pub open spec fn event_views(events: Seq<MarkupEvent>) -> Seq<EventView> {
    Seq::new(events.len(), |i: int| events[i]@)
}

/// The events that a reader with trimmed text and unchecked end names yields for
/// `markup`, before it reports the end of the input.
pub uninterp spec fn markup_events(markup: Seq<char>) -> Seq<EventView>;

/// The events that `reader` has yet to yield before it reports the end of the input.
pub uninterp spec fn pending_events(reader: MarkupReader) -> Seq<EventView>;

/// Calls `quick_xml::Reader::from_str`, then `trim_text(true)` and
/// `check_end_names(false)` on the new reader. Unproved: that what this reader will
/// yield is a function of the markup alone, which `markup_events` names.
#[verifier::external_body]
fn open_reader<'a>(markup: &'a str) -> (reader: MarkupReader<'a>)
    ensures
        pending_events(reader) == markup_events(markup@),
{
    let mut reader = quick_xml::Reader::from_str(markup);
    reader.trim_text(true);
    reader.check_end_names(false);
    MarkupReader { reader }
}

/// Calls `quick_xml::Reader::read_event` with a fresh buffer and copies the event out
/// (names, keys and values through `String::from_utf8_lossy`, text through
/// `BytesText::unescape_and_decode`). Unproved: that the reader yields its pending
/// events in order, each call taking one, and reports the end of the input once none
/// is left and ever after. A syntax error is the last event of its input.
#[verifier::external_body]
fn next_event<'a>(reader: &mut MarkupReader<'a>) -> (event: MarkupEvent)
    ensures
        pending_events(*old(reader)).len() == 0 ==> event@ == EventView::End
            && pending_events(*final(reader)).len() == 0,
        pending_events(*old(reader)).len() > 0 ==> event@ == pending_events(*old(reader))[0]
            && event@ != EventView::End
            && pending_events(*final(reader)) == pending_events(*old(reader)).drop_first(),
{
    let mut buf = Vec::new();
    let text = |b: &[u8]| String::from_utf8_lossy(b).into_owned();
    match reader.reader.read_event(&mut buf) {
        Ok(Event::Start(e)) => MarkupEvent::Open {
            name: text(e.name()),
            attributes: e.attributes().map(|a| a.ok().map(|a| (text(a.key), text(&a.value)))).collect(),
        },
        Ok(Event::End(e)) => MarkupEvent::Close { name: text(e.name()) },
        Ok(Event::Text(e)) => MarkupEvent::Text { content: e.unescape_and_decode(&reader.reader).ok() },
        Ok(Event::Eof) => MarkupEvent::End,
        _ => MarkupEvent::Other,
    }
}

/// Reads `markup` to its end and returns every event before the end, in order.
pub fn read_events(markup: &str) -> (events: Vec<MarkupEvent>)
    ensures
        event_views(events@) == markup_events(markup@),
{
    let mut reader = open_reader(markup);
    let mut events: Vec<MarkupEvent> = Vec::new();
    assert(event_views(events@) + pending_events(reader) =~= markup_events(markup@));
    loop
        invariant
            event_views(events@) + pending_events(reader) == markup_events(markup@),
        ensures
            event_views(events@) == markup_events(markup@),
        decreases pending_events(reader).len(),
    {
        let ghost before = pending_events(reader);
        let event = next_event(&mut reader);
        if let MarkupEvent::End = event {
            assert(event_views(events@) =~= markup_events(markup@));
            break ;
        }
        let ghost taken = event_views(events@);
        events.push(event);
        assert(event_views(events@) =~= taken.push(before[0]));
        assert(taken.push(before[0]) + before.drop_first() =~= taken + before);
    }
    events
}

} // verus!
