use vstd::prelude::*;
use vstd::string::StringSliceAdditionalSpecFns;
use crate::context::Context;
use crate::error::MdshError;
use crate::events::{EventModel, MdEvent, events_of, parse_events, wellnested};
use crate::fence::{fence_wf, selected, fence_decision};
use crate::osrel::{OsMap, lines_of, parse_os_lines, parse_os_release};
use crate::scan::lemma_skip_succ;

verus! {

/// One pass of the event filter over an event sequence, carrying the dump
/// bit: the emitted text chunks in order, or the info-string of the first
/// ill-formed fence. A fence start raises the bit when its fence is
/// selected, a fence end clears it, and a text event is emitted exactly
/// while the bit is raised.
pub open spec fn filter_run(
    evs: Seq<EventModel>,
    dump: bool,
    cx: Set<Seq<u8>>,
    os: Map<Seq<u8>, Seq<u8>>,
) -> Result<Seq<Seq<char>>, Seq<u8>>
    decreases evs.len(),
{
    if evs.len() == 0 {
        Ok(seq![])
    } else {
        match evs[0] {
            EventModel::FenceStart(info) => if !fence_wf(info) {
                Err(info)
            } else {
                filter_run(
                    evs.skip(1),
                    if selected(info, cx, os) {
                        true
                    } else {
                        dump
                    },
                    cx,
                    os,
                )
            },
            EventModel::FenceEnd => filter_run(evs.skip(1), false, cx, os),
            EventModel::Text(t) => match filter_run(evs.skip(1), dump, cx, os) {
                Ok(ts) => Ok(
                    if dump {
                        seq![t] + ts
                    } else {
                        ts
                    },
                ),
                Err(e) => Err(e),
            },
            EventModel::Other => filter_run(evs.skip(1), dump, cx, os),
        }
    }
}

/// The fenced blocks of an event sequence, in document order, each as its
/// fence info-string and the text chunks delivered inside it; `cur` is the
/// block open before the first event, with the chunks gathered so far.
pub open spec fn blocks_from(
    evs: Seq<EventModel>,
    cur: Option<(Seq<u8>, Seq<Seq<char>>)>,
) -> Seq<(Seq<u8>, Seq<Seq<char>>)>
    decreases evs.len(),
{
    if evs.len() == 0 {
        match cur {
            Some(b) => seq![b],
            None => seq![],
        }
    } else {
        match (evs[0], cur) {
            (EventModel::FenceStart(info), Option::<(Seq<u8>, Seq<Seq<char>>)>::None) =>
                blocks_from(evs.skip(1), Some((info, seq![]))),
            (EventModel::FenceEnd, Option::Some(b)) => seq![b] + blocks_from(evs.skip(1), None),
            (EventModel::Text(t), Option::Some(b)) => blocks_from(
                evs.skip(1),
                Some((b.0, b.1.push(t))),
            ),
            _ => blocks_from(evs.skip(1), cur),
        }
    }
}

/// The concatenation, in document order, of the text chunks of exactly the
/// blocks whose fence is selected.
pub open spec fn selected_texts(
    blocks: Seq<(Seq<u8>, Seq<Seq<char>>)>,
    cx: Set<Seq<u8>>,
    os: Map<Seq<u8>, Seq<u8>>,
) -> Seq<Seq<char>>
    decreases blocks.len(),
{
    if blocks.len() == 0 {
        seq![]
    } else {
        (if selected(blocks[0].0, cx, os) {
            blocks[0].1
        } else {
            seq![]
        }) + selected_texts(blocks.skip(1), cx, os)
    }
}

/// The dump bit that corresponds to an open block: raised exactly when the
/// open block's fence is selected.
pub open spec fn open_dump(
    cur: Option<(Seq<u8>, Seq<Seq<char>>)>,
    cx: Set<Seq<u8>>,
    os: Map<Seq<u8>, Seq<u8>>,
) -> bool {
    match cur {
        Some(b) => selected(b.0, cx, os),
        None => false,
    }
}

/// The text chunks already owed to the open block, when it is selected.
pub open spec fn open_texts(
    cur: Option<(Seq<u8>, Seq<Seq<char>>)>,
    cx: Set<Seq<u8>>,
    os: Map<Seq<u8>, Seq<u8>>,
) -> Seq<Seq<char>> {
    match cur {
        Some(b) => if selected(b.0, cx, os) {
            b.1
        } else {
            seq![]
        },
        None => seq![],
    }
}

/// The induction behind the block-level reading of the filter: over a well
/// nested remainder, the selected blocks' texts are the open block's gathered
/// chunks followed by whatever the dump-bit run still emits.
proof fn lemma_filter_blocks(
    evs: Seq<EventModel>,
    cur: Option<(Seq<u8>, Seq<Seq<char>>)>,
    cx: Set<Seq<u8>>,
    os: Map<Seq<u8>, Seq<u8>>,
)
    requires
        wellnested(evs, cur is Some),
        filter_run(evs, open_dump(cur, cx, os), cx, os) is Ok,
    ensures
        selected_texts(blocks_from(evs, cur), cx, os) == open_texts(cur, cx, os) + filter_run(
            evs,
            open_dump(cur, cx, os),
            cx,
            os,
        )->Ok_0,
    decreases evs.len(),
{
    let dump = open_dump(cur, cx, os);
    if evs.len() == 0 {
        assert(selected_texts(blocks_from(evs, cur), cx, os) =~= open_texts(cur, cx, os)
            + filter_run(evs, dump, cx, os)->Ok_0);
    } else {
        let rest = evs.skip(1);
        match evs[0] {
            EventModel::FenceStart(info) => {
                let b = (info, Seq::<Seq<char>>::empty());
                assert(seq![] =~= Seq::<Seq<char>>::empty());
                lemma_filter_blocks(rest, Some(b), cx, os);
                assert(open_texts(Some(b), cx, os) =~= Seq::<Seq<char>>::empty());
                assert(selected_texts(blocks_from(evs, cur), cx, os) =~= open_texts(
                    cur,
                    cx,
                    os,
                ) + filter_run(evs, dump, cx, os)->Ok_0);
            },
            EventModel::FenceEnd => {
                let b = cur->Some_0;
                lemma_filter_blocks(rest, None, cx, os);
                let blocks = blocks_from(evs, cur);
                assert(blocks == seq![b] + blocks_from(rest, None));
                assert(blocks.len() >= 1);
                assert(blocks[0] == b);
                assert(blocks.skip(1) =~= blocks_from(rest, None));
                assert(selected_texts(blocks_from(rest, None), cx, os) =~= filter_run(
                    rest,
                    false,
                    cx,
                    os,
                )->Ok_0);
                assert(selected_texts(blocks, cx, os) =~= open_texts(cur, cx, os) + filter_run(
                    evs,
                    dump,
                    cx,
                    os,
                )->Ok_0);
            },
            EventModel::Text(t) => {
                match cur {
                    Some(b) => {
                        let b2 = (b.0, b.1.push(t));
                        lemma_filter_blocks(rest, Some(b2), cx, os);
                        if selected(b.0, cx, os) {
                            assert(b.1.push(t) =~= b.1 + seq![t]);
                            assert((b.1 + seq![t]) + filter_run(rest, true, cx, os)->Ok_0
                                =~= b.1 + (seq![t] + filter_run(rest, true, cx, os)->Ok_0));
                        }
                        assert(selected_texts(blocks_from(evs, cur), cx, os) =~= open_texts(
                            cur,
                            cx,
                            os,
                        ) + filter_run(evs, dump, cx, os)->Ok_0);
                    },
                    None => {
                        lemma_filter_blocks(rest, None, cx, os);
                        assert(selected_texts(blocks_from(evs, cur), cx, os) =~= open_texts(
                            cur,
                            cx,
                            os,
                        ) + filter_run(evs, dump, cx, os)->Ok_0);
                    },
                }
            },
            EventModel::Other => {
                lemma_filter_blocks(rest, cur, cx, os);
                assert(selected_texts(blocks_from(evs, cur), cx, os) =~= open_texts(
                    cur,
                    cx,
                    os,
                ) + filter_run(evs, dump, cx, os)->Ok_0);
            },
        }
    }
}

/// The filter's output over a well nested event stream is the concatenation,
/// in document order, of the text chunks of exactly the blocks whose fence is
/// selected under the given context set and OS map.
pub proof fn lemma_output_is_selected_blocks(
    evs: Seq<EventModel>,
    cx: Set<Seq<u8>>,
    os: Map<Seq<u8>, Seq<u8>>,
)
    requires
        wellnested(evs, false),
        filter_run(evs, false, cx, os) is Ok,
    ensures
        filter_run(evs, false, cx, os) == Ok::<Seq<Seq<char>>, Seq<u8>>(
            selected_texts(blocks_from(evs, None), cx, os),
        ),
{
    lemma_filter_blocks(evs, None, cx, os);
    assert(open_texts(None, cx, os) + filter_run(evs, false, cx, os)->Ok_0 =~= filter_run(
        evs,
        false,
        cx,
        os,
    )->Ok_0);
}

/// Runs the event filter over a parsed event sequence: the result holds
/// exactly the text events delivered inside selected fenced blocks, in event
/// order, or the first ill-formed fence's info-string as an error.
pub fn filter_events(events: &Vec<MdEvent>, cx: &Context, os: &OsMap) -> (r: Result<
    Vec<String>,
    MdshError,
>)
    ensures
        r matches Ok(out) ==> filter_run(events@.map_values(|e: MdEvent| e@), false, cx@, os@)
            == Ok::<Seq<Seq<char>>, Seq<u8>>(out@.map_values(|s: String| s@)),
        r matches Err(e) ==> (e matches MdshError::MalformedFence(f) && filter_run(
            events@.map_values(|ev: MdEvent| ev@),
            false,
            cx@,
            os@,
        ) == Err::<Seq<Seq<char>>, Seq<u8>>(f@)),
{
    let ghost evs = events@.map_values(|e: MdEvent| e@);
    let mut out: Vec<String> = Vec::new();
    let mut dump = false;
    let mut i: usize = 0;
    let n = events.len();
    proof {
        assert(evs.skip(0) =~= evs);
    }
    while i < n
        invariant
            0 <= i <= n,
            n == events@.len(),
            evs == events@.map_values(|e: MdEvent| e@),
            filter_run(evs, false, cx@, os@) == (match filter_run(
                evs.skip(i as int),
                dump,
                cx@,
                os@,
            ) {
                Ok(ts) => Ok::<Seq<Seq<char>>, Seq<u8>>(out@.map_values(|s: String| s@) + ts),
                Err(e) => Err::<Seq<Seq<char>>, Seq<u8>>(e),
            }),
        decreases n - i,
    {
        proof {
            lemma_skip_succ(evs, i as int);
            assert(evs.skip(i as int).skip(1) =~= evs.skip(i + 1));
        }
        let ev = &events[i];
        proof {
            assert(evs[i as int] == ev@);
        }
        match ev {
            MdEvent::FenceStart(info) => {
                match fence_decision(info.as_slice(), cx, os) {
                    Ok(b) => {
                        if b {
                            dump = true;
                        }
                    },
                    Err(e) => {
                        proof {
                            assert(filter_run(evs, false, cx@, os@) == Err::<
                                Seq<Seq<char>>,
                                Seq<u8>,
                            >(info@));
                        }
                        return Err(e);
                    },
                }
            },
            MdEvent::FenceEnd => {
                dump = false;
            },
            MdEvent::Text(t) => {
                if dump {
                    let ghost pre = out@;
                    out.push(t.as_str().to_owned());
                    proof {
                        assert(out@.map_values(|s: String| s@) =~= pre.map_values(
                            |s: String| s@,
                        ) + seq![t@]);
                        let rr = filter_run(evs.skip(i + 1), dump, cx@, os@);
                        if rr is Ok {
                            assert(pre.map_values(|s: String| s@) + (seq![t@] + rr->Ok_0)
                                =~= out@.map_values(|s: String| s@) + rr->Ok_0);
                        }
                    }
                }
            },
            MdEvent::Other => {},
        }
        i = i + 1;
    }
    proof {
        assert(evs.skip(n as int) =~= Seq::<EventModel>::empty());
        assert(filter_run(evs.skip(n as int), dump, cx@, os@) == Ok::<Seq<Seq<char>>, Seq<u8>>(
            seq![],
        ));
        assert(out@.map_values(|s: String| s@) + seq![] =~= out@.map_values(|s: String| s@));
    }
    Ok(out)
}

/// Extracts the selected shell command text from a Markdown document: builds
/// the OS map from `os_release`, parses `md`, and filters its events. The
/// result is the emitted text chunks in document order; the errors are the
/// first os-release line without `=`, or else the first ill-formed fence.
pub fn filter_markdown(cx: &Context, os_release: &str, md: &str) -> (r: Result<
    Vec<String>,
    MdshError,
>)
    ensures
        (match parse_os_lines(lines_of(os_release.spec_bytes()), Map::empty()) {
            Err(l) => r matches Err(e) && e matches MdshError::InvalidOsReleaseLine(v) && v@
                == l,
            Ok(m) => match filter_run(events_of(md@), false, cx@, m) {
                Ok(ts) => r matches Ok(out) && out@.map_values(|s: String| s@) == ts,
                Err(f) => r matches Err(e) && e matches MdshError::MalformedFence(v) && v@
                    == f,
            },
        }),
        (match parse_os_lines(lines_of(os_release.spec_bytes()), Map::empty()) {
            Ok(m) => r matches Ok(out) ==> out@.map_values(|s: String| s@) == selected_texts(
                blocks_from(events_of(md@), None),
                cx@,
                m,
            ),
            Err(_) => true,
        }),
{
    let os = match parse_os_release(os_release) {
        Ok(m) => m,
        Err(e) => {
            return Err(e);
        },
    };
    let events = parse_events(md);
    let r = filter_events(&events, cx, &os);
    proof {
        if r is Ok {
            lemma_output_is_selected_blocks(events_of(md@), cx@, os@);
        }
    }
    r
}

} // verus!
