//! Image-editor conversation sessions: session ids, and how a conversation is cut
//! into segment files and read back.

use vstd::prelude::*;

use crate::text::{
    chars_of, decimal, ends_with, extend_chars, extend_str, seq_ends_with, seq_starts_with,
    starts_with, str_eq, string_from_chars, zero_pad, zero_padded_decimal,
};

verus! {

/// Most user turns that one segment file holds.
pub const EDITOR_SESSION_SEGMENT_TURNS: usize = 100;

/// A file attached to an editor message.
#[derive(Clone, Debug)]
pub struct EditorSessionAttachment {
    pub path: String,
    pub label: String,
}

/// One message of an editor conversation.
#[derive(Clone, Debug)]
pub struct EditorSessionMessage {
    pub id: String,
    pub role: String,
    pub content: String,
    pub attachments: Vec<EditorSessionAttachment>,
    pub tone: Option<String>,
    pub aspect_ratio: Option<String>,
    pub resolution: Option<String>,
    pub image_count: Option<u8>,
}

/// One stored segment of a conversation.
#[derive(Debug)]
pub struct EditorSessionSegment {
    pub session_id: String,
    pub segment_index: usize,
    pub messages: Vec<EditorSessionMessage>,
    pub created_at: i64,
    pub updated_at: i64,
}

// ---------------------------------------------------------------------------
// Session ids
// ---------------------------------------------------------------------------

pub open spec fn is_session_id_char(c: char) -> bool {
    ('a' <= c && c <= 'z') || ('A' <= c && c <= 'Z') || ('0' <= c && c <= '9') || c == '-'
        || c == '_'
}

/// A session id is non-empty and made of ASCII letters, digits, `-` and `_`.
pub open spec fn is_valid_session_id(s: Seq<char>) -> bool {
    s.len() > 0 && forall|i: int| 0 <= i < s.len() ==> is_session_id_char(#[trigger] s[i])
}

pub open spec fn invalid_session_id_message() -> Seq<char> {
    "Invalid editor session id"@
}

/// Checks that `session_id` can name a session directory.
pub fn validate_editor_session_id(session_id: &str) -> (r: Result<(), String>)
    ensures
        r is Ok <==> is_valid_session_id(session_id@),
        r matches Err(e) ==> e@ == invalid_session_id_message(),
{
    let v = chars_of(session_id);
    let mut ok = v.len() > 0;
    let mut i: usize = 0;
    while i < v.len()
        invariant
            i <= v@.len(),
            v@ == session_id@,
            ok == (v@.len() > 0 && forall|k: int| 0 <= k < i ==> is_session_id_char(#[trigger] v@[k])),
        decreases v.len() - i,
    {
        let c = v[i];
        let good = ('a' <= c && c <= 'z') || ('A' <= c && c <= 'Z') || ('0' <= c && c <= '9')
            || c == '-' || c == '_';
        ok = ok && good;
        i += 1;
    }
    if ok {
        Ok(())
    } else {
        Err("Invalid editor session id".to_owned())
    }
}

/// The id of a session started at `nanos` nanoseconds after the epoch: `session-{nanos}`.
pub fn session_id_from_nanos(nanos: u64) -> (r: String)
    ensures
        r@ == "session-"@ + decimal(nanos as nat),
        is_valid_session_id(r@),
{
    let mut v: Vec<char> = Vec::new();
    extend_str(&mut v, "session-");
    let digits = crate::text::decimal_chars(nanos);
    extend_chars(&mut v, &digits);
    proof {
        reveal_strlit("session-");
        crate::text::lemma_decimal_digits(nanos as nat);
        assert forall|i: int| 0 <= i < v@.len() implies is_session_id_char(#[trigger] v@[i]) by {
            if i >= 8 {
                assert(v@[i] == decimal(nanos as nat)[i - 8]);
            }
        }
    }
    string_from_chars(&v)
}

// ---------------------------------------------------------------------------
// Cutting a conversation into segments
// ---------------------------------------------------------------------------

pub open spec fn is_user_message(m: EditorSessionMessage) -> bool {
    m.role@ == "user"@
}

/// Number of user messages in `msgs`.
pub open spec fn user_turns(msgs: Seq<EditorSessionMessage>) -> nat
    decreases msgs.len(),
{
    if msgs.len() == 0 {
        0
    } else {
        user_turns(msgs.drop_last()) + if is_user_message(msgs.last()) {
            1nat
        } else {
            0nat
        }
    }
}

pub open spec fn segments_view(segs: Seq<Vec<EditorSessionMessage>>) -> Seq<
    Seq<EditorSessionMessage>,
> {
    segs.map_values(|v: Vec<EditorSessionMessage>| v@)
}

/// `segs` cuts `msgs` as the session store does: the segments, in order, are `msgs`;
/// none is empty; none holds more than a hundred user turns; and a new segment starts
/// exactly at a user message that would have been the hundred-and-first of the one before.
pub open spec fn is_session_segmentation(
    msgs: Seq<EditorSessionMessage>,
    segs: Seq<Seq<EditorSessionMessage>>,
) -> bool {
    &&& segs.flatten() == msgs
    &&& forall|k: int|
        0 <= k < segs.len() ==> (#[trigger] segs[k]).len() > 0 && user_turns(segs[k])
            <= EDITOR_SESSION_SEGMENT_TURNS
    &&& forall|k: int|
        0 < k < segs.len() ==> is_user_message((#[trigger] segs[k])[0]) && user_turns(segs[k - 1])
            == EDITOR_SESSION_SEGMENT_TURNS
}

proof fn lemma_user_turns_push(msgs: Seq<EditorSessionMessage>, m: EditorSessionMessage)
    ensures
        user_turns(msgs.push(m)) == user_turns(msgs) + if is_user_message(m) {
            1nat
        } else {
            0nat
        },
{
    assert(msgs.push(m).drop_last() =~= msgs);
}

proof fn lemma_user_turns_le_len(msgs: Seq<EditorSessionMessage>)
    ensures
        user_turns(msgs) <= msgs.len(),
    decreases msgs.len(),
{
    if msgs.len() > 0 {
        lemma_user_turns_le_len(msgs.drop_last());
    }
}

proof fn lemma_flatten_alt_push(segs: Seq<Seq<EditorSessionMessage>>, s: Seq<EditorSessionMessage>)
    ensures
        segs.push(s).flatten_alt() == segs.flatten_alt() + s,
{
    assert(segs.push(s).drop_last() =~= segs);
}

/// Cuts a conversation into the segments that are stored one per file.
pub fn segment_session_messages(messages: Vec<EditorSessionMessage>) -> (r: Vec<
    Vec<EditorSessionMessage>,
>)
    ensures
        is_session_segmentation(messages@, segments_view(r@)),
{
    let ghost msgs = messages@;
    let mut segments: Vec<Vec<EditorSessionMessage>> = Vec::new();
    let mut current: Vec<EditorSessionMessage> = Vec::new();
    let mut turn_count: usize = 0;
    proof {
        assert(segments_view(segments@) =~= Seq::<Seq<EditorSessionMessage>>::empty());
        lemma_flatten_alt_push(segments_view(segments@), current@);
        assert(current@ =~= Seq::<EditorSessionMessage>::empty());
        assert(msgs.take(0) =~= Seq::<EditorSessionMessage>::empty());
    }
    for message in it: messages.into_iter()
        invariant
            it.seq() == msgs,
            segments_view(segments@).push(current@).flatten_alt() == msgs.take(it.index() as int),
            forall|k: int|
                0 <= k < segments_view(segments@).len() ==> (#[trigger] segments_view(
                    segments@,
                )[k]).len() > 0 && user_turns(segments_view(segments@)[k])
                    == EDITOR_SESSION_SEGMENT_TURNS,
            forall|k: int|
                0 < k < segments_view(segments@).len() ==> is_user_message(
                    (#[trigger] segments_view(segments@)[k])[0],
                ),
            segments@.len() > 0 ==> current@.len() > 0 && is_user_message(current@[0]),
            turn_count == user_turns(current@),
            turn_count <= EDITOR_SESSION_SEGMENT_TURNS,
    {
        let ghost before = segments_view(segments@).push(current@).flatten_alt();
        let ghost old_segments = segments_view(segments@);
        let is_user = str_eq(message.role.as_str(), "user");
        if is_user && turn_count >= EDITOR_SESSION_SEGMENT_TURNS {
            proof {
                lemma_user_turns_le_len(current@);
            }
            let mut full: Vec<EditorSessionMessage> = Vec::new();
            std::mem::swap(&mut full, &mut current);
            segments.push(full);
            turn_count = 0;
            proof {
                assert(segments_view(segments@) =~= old_segments.push(full@));
                lemma_flatten_alt_push(old_segments, full@);
                lemma_flatten_alt_push(segments_view(segments@), current@);
                assert(current@ =~= Seq::<EditorSessionMessage>::empty());
                assert(segments_view(segments@).push(current@).flatten_alt() == before);
            }
        }
        if is_user {
            turn_count += 1;
        }
        let ghost prior = current@;
        let ghost m = message;
        current.push(message);
        proof {
            lemma_user_turns_push(prior, m);
            lemma_flatten_alt_push(segments_view(segments@), prior);
            lemma_flatten_alt_push(segments_view(segments@), current@);
            assert(msgs.take(it.index() + 1) =~= msgs.take(it.index() as int).push(m));
            assert(prior.len() == 0 ==> current@[0] == m);
        }
    }
    let ghost all = segments_view(segments@);
    if current.len() > 0 {
        segments.push(current);
        proof {
            assert(segments_view(segments@) =~= all.push(current@));
        }
    } else {
        proof {
            lemma_flatten_alt_push(all, current@);
            assert(current@ =~= Seq::<EditorSessionMessage>::empty());
        }
    }
    proof {
        let sv = segments_view(segments@);
        sv.lemma_flatten_and_flatten_alt_are_equivalent();
        assert(msgs.take(msgs.len() as int) =~= msgs);
        lemma_flatten_alt_push(all, current@);
        assert forall|k: int| 0 <= k < sv.len() implies (#[trigger] sv[k]).len() > 0 && user_turns(
            sv[k],
        ) <= EDITOR_SESSION_SEGMENT_TURNS by {
            if k < all.len() {
                assert(sv[k] == all[k]);
            }
        }
        assert forall|k: int| 0 < k < sv.len() implies is_user_message((#[trigger] sv[k])[0])
            && user_turns(sv[k - 1]) == EDITOR_SESSION_SEGMENT_TURNS by {
            assert(sv[k - 1] == all[k - 1]);
            if k < all.len() {
                assert(sv[k] == all[k]);
            }
        }
    }
    segments
}

// ---------------------------------------------------------------------------
// Stored segments and their files
// ---------------------------------------------------------------------------

pub open spec fn segment_messages_view(segs: Seq<EditorSessionSegment>) -> Seq<
    Seq<EditorSessionMessage>,
> {
    segs.map_values(|g: EditorSessionSegment| g.messages@)
}

/// The segments of session `session_id` that store `messages`, all stamped `now`.
pub fn build_session_segments(
    session_id: &String,
    messages: Vec<EditorSessionMessage>,
    now: i64,
) -> (r: Vec<EditorSessionSegment>)
    ensures
        is_session_segmentation(messages@, segment_messages_view(r@)),
        forall|k: int|
            0 <= k < r@.len() ==> (#[trigger] r@[k]).session_id@ == session_id@
                && r@[k].segment_index == k && r@[k].created_at == now && r@[k].updated_at == now,
{
    let parts = segment_session_messages(messages);
    let ghost pv = segments_view(parts@);
    let mut out: Vec<EditorSessionSegment> = Vec::new();
    let mut index: usize = 0;
    let n = parts.len();
    for part in it: parts.into_iter()
        invariant
            segments_view(it.seq()) == pv,
            it.seq().len() == n,
            out@.len() == it.index(),
            segment_messages_view(out@) == pv.take(it.index() as int),
            forall|k: int|
                0 <= k < out@.len() ==> (#[trigger] out@[k]).session_id@ == session_id@
                    && out@[k].segment_index == k && out@[k].created_at == now
                    && out@[k].updated_at == now,
            index == it.index(),
    {
        let ghost before = out@;
        out.push(
            EditorSessionSegment {
                session_id: session_id.clone(),
                segment_index: index,
                messages: part,
                created_at: now,
                updated_at: now,
            },
        );
        proof {
            assert(segment_messages_view(out@) =~= pv.take(it.index() + 1)) by {
                assert(segments_view(it.seq())[it.index() as int] == pv[it.index() as int]);
            }
        }
        index += 1;
    }
    proof {
        assert(pv.take(pv.len() as int) =~= pv);
    }
    out
}

/// The name of the file that stores segment `index`: `segment-{index:05}.json`.
pub fn segment_file_name(index: usize) -> (r: String)
    ensures
        r@ == "segment-"@ + zero_pad(decimal(index as nat), 5) + ".json"@,
{
    let mut v: Vec<char> = Vec::new();
    extend_str(&mut v, "segment-");
    let digits = zero_padded_decimal(index as u64, 5);
    extend_chars(&mut v, &digits);
    extend_str(&mut v, ".json");
    string_from_chars(&v)
}

/// Whether a file name is that of a stored segment.
pub fn is_segment_file_name(name: &str) -> (r: bool)
    ensures
        r == (seq_starts_with(name@, "segment-"@) && seq_ends_with(name@, ".json"@)),
{
    let v = chars_of(name);
    let prefix = chars_of("segment-");
    let suffix = chars_of(".json");
    starts_with(&v, &prefix) && ends_with(&v, &suffix)
}

/// The messages of the segments that belong to `session_id`, in order.
pub open spec fn session_messages_of(session_id: Seq<char>, segs: Seq<EditorSessionSegment>) -> Seq<
    EditorSessionMessage,
>
    decreases segs.len(),
{
    if segs.len() == 0 {
        Seq::empty()
    } else {
        session_messages_of(session_id, segs.drop_last()) + if segs.last().session_id@
            == session_id {
            segs.last().messages@
        } else {
            Seq::empty()
        }
    }
}

/// Joins, in order, the messages of the segments (read in file-name order) that belong
/// to `session_id`; segments of other sessions are passed over.
pub fn collect_session_messages(session_id: &str, segments: Vec<EditorSessionSegment>) -> (r: Vec<
    EditorSessionMessage,
>)
    ensures
        r@ == session_messages_of(session_id@, segments@),
{
    let ghost segs = segments@;
    let mut out: Vec<EditorSessionMessage> = Vec::new();
    for segment in it: segments.into_iter()
        invariant
            it.seq() == segs,
            out@ == session_messages_of(session_id@, segs.take(it.index() as int)),
    {
        let ghost g = segment;
        let ghost before = out@;
        assert(segs.take(it.index() + 1).drop_last() =~= segs.take(it.index() as int));
        if str_eq(segment.session_id.as_str(), session_id) {
            let mut msgs = segment.messages;
            out.append(&mut msgs);
        }
        assert(segs.take(it.index() + 1).last() == g);
    }
    assert(segs.take(segs.len() as int) =~= segs);
    out
}

/// What is saved is what is loaded back: the segments that `build_session_segments` makes
/// for a session hold, read back in order for that session, exactly the saved messages.
pub proof fn lemma_saved_session_reads_back(
    session_id: Seq<char>,
    messages: Seq<EditorSessionMessage>,
    segs: Seq<EditorSessionSegment>,
)
    requires
        is_session_segmentation(messages, segment_messages_view(segs)),
        forall|k: int| 0 <= k < segs.len() ==> (#[trigger] segs[k]).session_id@ == session_id,
    ensures
        session_messages_of(session_id, segs) == messages,
{
    lemma_own_segments_flatten(session_id, segs);
    segment_messages_view(segs).lemma_flatten_and_flatten_alt_are_equivalent();
}

proof fn lemma_own_segments_flatten(session_id: Seq<char>, segs: Seq<EditorSessionSegment>)
    requires
        forall|k: int| 0 <= k < segs.len() ==> (#[trigger] segs[k]).session_id@ == session_id,
    ensures
        session_messages_of(session_id, segs) == segment_messages_view(segs).flatten_alt(),
    decreases segs.len(),
{
    if segs.len() > 0 {
        let init = segs.drop_last();
        assert forall|k: int| 0 <= k < init.len() implies (#[trigger] init[k]).session_id@
            == session_id by {
            assert(init[k] == segs[k]);
        }
        lemma_own_segments_flatten(session_id, init);
        assert(segment_messages_view(segs).drop_last() =~= segment_messages_view(init));
        assert(segs.last() == segs[segs.len() - 1]);
    }
}

/// The session to continue: the stored current session when its id is valid; `None`
/// when a new session must be started.
pub fn stored_session_choice(stored: Option<String>) -> (r: Option<String>)
    ensures
        match stored {
            Some(id) => if is_valid_session_id(id@) {
                r matches Some(x) && x@ == id@
            } else {
                r is None
            },
            None => r is None,
        },
{
    match stored {
        Some(id) => {
            if validate_editor_session_id(id.as_str()).is_ok() {
                Some(id)
            } else {
                None
            }
        },
        None => None,
    }
}

} // verus!
