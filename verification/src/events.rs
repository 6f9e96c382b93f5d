use vstd::prelude::*;

verus! {

/// The ghost shape of one Markdown event, as the event filter sees it: the
/// start of a fenced code block with its info-string bytes, the end of a
/// fenced code block, a text event, or anything else.
pub enum EventModel {
    FenceStart(Seq<u8>),
    FenceEnd,
    Text(Seq<char>),
    Other,
}

/// One Markdown event as handed out by the parser wrapper.
pub enum MdEvent {
    FenceStart(Vec<u8>),
    FenceEnd,
    Text(String),
    Other,
}

impl View for MdEvent {
    type V = EventModel;

    open spec fn view(&self) -> EventModel {
        match self {
            MdEvent::FenceStart(info) => EventModel::FenceStart(info@),
            MdEvent::FenceEnd => EventModel::FenceEnd,
            MdEvent::Text(t) => EventModel::Text(t@),
            MdEvent::Other => EventModel::Other,
        }
    }
}

/// Whether an event sequence is well nested: fenced code-block starts and
/// ends alternate, text stands anywhere, and every started block is ended.
/// `inside` says whether a block is open before the first event.
pub open spec fn wellnested(evs: Seq<EventModel>, inside: bool) -> bool
    decreases evs.len(),
{
    if evs.len() == 0 {
        !inside
    } else {
        match evs[0] {
            EventModel::FenceStart(_) => !inside && wellnested(evs.skip(1), true),
            EventModel::FenceEnd => inside && wellnested(evs.skip(1), false),
            _ => wellnested(evs.skip(1), inside),
        }
    }
}

/// The event stream that the Markdown parser yields for a document.
pub uninterp spec fn events_of(md: Seq<char>) -> Seq<EventModel>;

/// Relies on pulldown_cmark::Parser: the event stream is a function of the
/// input text alone. Fenced code-block start events carry the fence's
/// info-string; fenced code-block ends and text events are told apart; every
/// other event is opaque. The stream is well nested: the crate documents that
/// start and end events are balanced, and a fenced code block holds only
/// literal text.
#[verifier::external_body]
pub(crate) fn parse_events(md: &str) -> (r: Vec<MdEvent>)
    ensures
        r@.map_values(|e: MdEvent| e@) == events_of(md@),
        wellnested(r@.map_values(|e: MdEvent| e@), false),
{
    pulldown_cmark::Parser::new(md)
        .map(|ev| match ev {
            pulldown_cmark::Event::Start(pulldown_cmark::Tag::CodeBlock(
                pulldown_cmark::CodeBlockKind::Fenced(k),
            )) => MdEvent::FenceStart(k.as_bytes().to_vec()),
            pulldown_cmark::Event::End(pulldown_cmark::Tag::CodeBlock(
                pulldown_cmark::CodeBlockKind::Fenced(_),
            )) => MdEvent::FenceEnd,
            pulldown_cmark::Event::Text(t) => MdEvent::Text(t.to_string()),
            _ => MdEvent::Other,
        })
        .collect()
}

} // verus!
