//! Read-aloud decisions: voice status, speaker selection, the cache of
//! synthesised chunks and the checks on what the VOICEVOX engine returns.

use vstd::prelude::*;
use crate::speech::SpeechPlan;
use crate::text::{decimal, push_decimal, string_push_str, strings_view};

verus! {

// ---------------------------------------------------------------------------
// Status
// ---------------------------------------------------------------------------

/// What the reader is doing.
#[derive(Clone, Debug, PartialEq, Eq)]
pub enum VoiceStatus {
    Idle,
    Loading,
    Speaking,
    Error(String),
}

/// Mathematical value of a [`VoiceStatus`].
pub enum StatusView {
    Idle,
    Loading,
    Speaking,
    Error(Seq<char>),
}

impl View for VoiceStatus {
    type V = StatusView;

    open spec fn view(&self) -> StatusView {
        match self {
            VoiceStatus::Idle => StatusView::Idle,
            VoiceStatus::Loading => StatusView::Loading,
            VoiceStatus::Speaking => StatusView::Speaking,
            VoiceStatus::Error(m) => StatusView::Error(m@),
        }
    }
}

/// The message given when there is nothing to read.
pub open spec fn nothing_to_read() -> Seq<char> {
    "読み上げるテキストがありません"@
}

/// The status a reading session starts in: an error when the plan has no
/// chunk or no text, else loading.
pub open spec fn start_status_spec(plan: crate::speech::PlanView) -> StatusView {
    if plan.chunks.len() == 0 || plan.normalized_text.len() == 0 {
        StatusView::Error(nothing_to_read())
    } else {
        StatusView::Loading
    }
}

/// The status a reading session starts in (see [`start_status_spec`]).
pub fn start_status(plan: &SpeechPlan) -> (r: VoiceStatus)
    ensures
        r@ == start_status_spec(plan@),
{
    if plan.chunks.len() == 0 || plan.normalized_text.as_str().is_empty() {
        VoiceStatus::Error("読み上げるテキストがありません".to_string())
    } else {
        VoiceStatus::Loading
    }
}

/// The status after a reading session: idle when playback ended normally
/// or was stopped, else the error of the playback.
pub fn end_status(outcome: &Result<(), String>, stopped: bool) -> (r: VoiceStatus)
    ensures
        r@ == match outcome {
            Ok(()) => StatusView::Idle,
            Err(m) => if stopped {
                StatusView::Idle
            } else {
                StatusView::Error(m@)
            },
        },
{
    match outcome {
        Ok(()) => VoiceStatus::Idle,
        Err(m) => if stopped {
            VoiceStatus::Idle
        } else {
            VoiceStatus::Error(m.clone())
        },
    }
}

// ---------------------------------------------------------------------------
// Speakers
// ---------------------------------------------------------------------------

/// A voice (a style of a VOICEVOX speaker): its id and its label.
#[derive(Clone, Debug)]
pub struct SpeakerInfo {
    pub id: u32,
    pub label: String,
}

/// Mathematical value of a [`SpeakerInfo`].
pub struct SpeakerView {
    pub id: u32,
    pub label: Seq<char>,
}

impl View for SpeakerInfo {
    type V = SpeakerView;

    open spec fn view(&self) -> SpeakerView {
        SpeakerView { id: self.id, label: self.label@ }
    }
}

/// The values of a list of speakers.
pub open spec fn speakers_view(v: Seq<SpeakerInfo>) -> Seq<SpeakerView> {
    v.map_values(|x: SpeakerInfo| x@)
}

/// The label of a voice known only by its id: `話者 <id>`.
pub open spec fn default_label(id: u32) -> Seq<char> {
    seq!['話', '者', ' '] + decimal(id as nat)
}

/// Position of the first speaker with id `id` at or after `k`.
pub open spec fn position_from(s: Seq<SpeakerView>, id: u32, k: int) -> Option<int>
    decreases s.len() - k,
{
    if k < 0 || k >= s.len() {
        None
    } else if s[k].id == id {
        Some(k)
    } else {
        position_from(s, id, k + 1)
    }
}

proof fn lemma_position_from_bounds(s: Seq<SpeakerView>, id: u32, k: int)
    requires
        0 <= k,
    ensures
        position_from(s, id, k) matches Some(i) ==> k <= i < s.len() && s[i].id == id,
    decreases s.len() - k,
{
    if k < s.len() && s[k].id != id {
        lemma_position_from_bounds(s, id, k + 1);
    }
}

/// The position before `i` in a ring of `n` positions.
pub open spec fn prev_index(i: nat, n: nat) -> nat {
    if i == 0 {
        (n - 1) as nat
    } else {
        (i - 1) as nat
    }
}

/// The position after `i` in a ring of `n` positions.
pub open spec fn next_index(i: nat, n: nat) -> nat {
    if i + 1 == n {
        0
    } else {
        i + 1
    }
}

/// Law of speaker switching: choosing the next voice and then the previous
/// one (or the other way round) comes back to the same voice, and the choice
/// always stays in the list.
pub proof fn law_speaker_ring(i: nat, n: nat)
    requires
        i < n,
    ensures
        prev_index(next_index(i, n), n) == i,
        next_index(prev_index(i, n), n) == i,
        next_index(i, n) < n,
        prev_index(i, n) < n,
{
}

/// The speakers to choose from, with the one chosen.
pub struct SpeakerSelection {
    speakers: Vec<SpeakerInfo>,
    index: usize,
}

/// Mathematical value of a [`SpeakerSelection`].
pub struct SelectionView {
    pub speakers: Seq<SpeakerView>,
    pub index: nat,
}

impl View for SpeakerSelection {
    type V = SelectionView;

    closed spec fn view(&self) -> SelectionView {
        SelectionView { speakers: speakers_view(self.speakers@), index: self.index as nat }
    }
}

impl SpeakerSelection {
    #[verifier::type_invariant]
    closed spec fn inv(&self) -> bool {
        self.speakers@.len() > 0 && self.index < self.speakers@.len()
    }

    /// A selection among `speakers` (or, if there are none, the one voice
    /// `speaker` labelled `話者 <speaker>`), starting at the first voice with
    /// id `speaker`, or at the first voice if none has it.
    pub fn new(speaker: u32, speakers: Vec<SpeakerInfo>) -> (r: Self)
        ensures
            r@.speakers == if speakers@.len() == 0 {
                seq![SpeakerView { id: speaker, label: default_label(speaker) }]
            } else {
                speakers_view(speakers@)
            },
            r@.index == match position_from(r@.speakers, speaker, 0) {
                Some(i) => i,
                None => 0,
            },
    {
        let list = if speakers.len() == 0 {
            let mut label = String::new();
            string_push_str(&mut label, "話者 ");
            push_decimal(&mut label, speaker as u128);
            proof {
                reveal_strlit("話者 ");
            }
            assert(label@ =~= default_label(speaker));
            let mut v: Vec<SpeakerInfo> = Vec::new();
            v.push(SpeakerInfo { id: speaker, label });
            assert(speakers_view(v@) =~= seq![SpeakerView { id: speaker, label: default_label(speaker) }]);
            v
        } else {
            speakers
        };
        let ghost sv = speakers_view(list@);
        let mut k: usize = 0;
        while k < list.len() && list[k].id != speaker
            invariant
                k <= list@.len(),
                sv == speakers_view(list@),
                position_from(sv, speaker, 0) == position_from(sv, speaker, k as int),
            decreases list.len() - k,
        {
            k = k + 1;
        }
        let index = if k < list.len() {
            k
        } else {
            0
        };
        proof {
            lemma_position_from_bounds(sv, speaker, 0);
        }
        SpeakerSelection { speakers: list, index }
    }

    /// The chosen voice's id.
    pub fn speaker_id(&self) -> (r: u32)
        ensures
            r == self@.speakers[self@.index as int].id,
    {
        proof {
            use_type_invariant(self);
        }
        self.speakers[self.index].id
    }

    /// The chosen voice's label.
    pub fn speaker_label(&self) -> (r: String)
        ensures
            r@ == self@.speakers[self@.index as int].label,
    {
        proof {
            use_type_invariant(self);
        }
        self.speakers[self.index].label.clone()
    }

    /// Chooses the previous voice, the last one after the first.
    pub fn prev_speaker(&mut self)
        ensures
            final(self)@.speakers == old(self)@.speakers,
            final(self)@.index == prev_index(old(self)@.index, old(self)@.speakers.len()),
    {
        proof {
            use_type_invariant(&*self);
        }
        if self.index == 0 {
            self.index = self.speakers.len() - 1;
        } else {
            self.index = self.index - 1;
        }
    }

    /// Chooses the next voice, the first one after the last.
    pub fn next_speaker(&mut self)
        ensures
            final(self)@.speakers == old(self)@.speakers,
            final(self)@.index == next_index(old(self)@.index, old(self)@.speakers.len()),
    {
        proof {
            use_type_invariant(&*self);
        }
        let n = self.speakers.len();
        if self.index + 1 == n {
            self.index = 0;
        } else {
            self.index = self.index + 1;
        }
    }
}

// ---------------------------------------------------------------------------
// Synthesised chunks
// ---------------------------------------------------------------------------

/// How many chunks ahead of the one being played are synthesised.
pub const PRELOAD_AHEAD: usize = 5;

/// The message given when reading is stopped while a chunk is awaited.
pub open spec fn stopped_message() -> Seq<char> {
    "読み上げを停止しました"@
}

/// What the player gets when it looks at chunk `i`: an error when reading
/// was stopped, else the chunk's bytes or its error message, else nothing
/// yet (it waits and looks again).
pub open spec fn take_spec(slots: Seq<SlotView>, i: int, stopped: bool) -> Result<
    Option<Seq<u8>>,
    Seq<char>,
> {
    if stopped {
        Err(stopped_message())
    } else {
        match slots[i] {
            SlotView::Pending => Ok(None),
            SlotView::Ready(b) => Ok(Some(b)),
            SlotView::Failed(m) => Err(m),
        }
    }
}

/// Mathematical value of what [`ChunkCache::take`] returns.
pub open spec fn take_view(r: Result<Option<Vec<u8>>, String>) -> Result<Option<Seq<u8>>, Seq<char>> {
    match r {
        Ok(Some(w)) => Ok(Some(w@)),
        Ok(None) => Ok(None),
        Err(m) => Err(m@),
    }
}

/// Law of the chunk cache: once the outcome of chunk `i` is recorded, the
/// player gets exactly that outcome for it (unless reading is stopped), and
/// the other chunks are as they were.
pub proof fn law_cache_read_after_write(
    slots: Seq<SlotView>,
    i: int,
    outcome: Result<Seq<u8>, Seq<char>>,
    j: int,
)
    requires
        0 <= i < slots.len(),
        0 <= j < slots.len(),
    ensures
        ({
            let written = slots.update(
                i,
                match outcome {
                    Ok(b) => SlotView::Ready(b),
                    Err(m) => SlotView::Failed(m),
                },
            );
            &&& take_spec(written, i, false) == match outcome {
                Ok(b) => Ok::<Option<Seq<u8>>, Seq<char>>(Some(b)),
                Err(m) => Err::<Option<Seq<u8>>, Seq<char>>(m),
            }
            &&& j != i ==> take_spec(written, j, false) == take_spec(slots, j, false)
            &&& !(written[i] is Pending)
        }),
{
}

/// The outcome of synthesising each chunk of a reading session: nothing yet,
/// the WAV bytes, or an error message.
pub struct ChunkCache {
    slots: Vec<Option<Result<Vec<u8>, String>>>,
}

/// Mathematical value of one slot of a [`ChunkCache`].
pub enum SlotView {
    Pending,
    Ready(Seq<u8>),
    Failed(Seq<char>),
}

/// Mathematical value of one slot.
pub open spec fn slot_view(s: Option<Result<Vec<u8>, String>>) -> SlotView {
    match s {
        None => SlotView::Pending,
        Some(Ok(b)) => SlotView::Ready(b@),
        Some(Err(m)) => SlotView::Failed(m@),
    }
}

impl View for ChunkCache {
    type V = Seq<SlotView>;

    closed spec fn view(&self) -> Seq<SlotView> {
        self.slots@.map_values(|s: Option<Result<Vec<u8>, String>>| slot_view(s))
    }
}

impl ChunkCache {
    /// A cache of `len` chunks, none synthesised yet.
    pub fn new(len: usize) -> (r: Self)
        ensures
            r@ == Seq::new(len as nat, |i: int| SlotView::Pending),
    {
        let mut slots: Vec<Option<Result<Vec<u8>, String>>> = Vec::new();
        let mut i: usize = 0;
        while i < len
            invariant
                i <= len,
                slots@.len() == i,
                forall|q: int| 0 <= q < i ==> #[trigger] slots@[q] is None,
            decreases len - i,
        {
            slots.push(None);
            i = i + 1;
        }
        let r = ChunkCache { slots };
        assert(r@ =~= Seq::new(len as nat, |i: int| SlotView::Pending));
        r
    }

    /// Number of chunks.
    pub fn len(&self) -> (r: usize)
        ensures
            r == self@.len(),
    {
        self.slots.len()
    }

    /// Records the outcome of synthesising chunk `index`.
    pub fn set(&mut self, index: usize, result: Result<Vec<u8>, String>)
        requires
            index < old(self)@.len(),
        ensures
            final(self)@ == old(self)@.update(index as int, slot_view(Some(result))),
    {
        let ghost before = self.slots@;
        self.slots.set(index, Some(result));
        assert(self@ =~= old(self)@.update(index as int, slot_view(Some(result))));
    }

    /// One look at chunk `index` for the player (see [`take_spec`]).
    pub fn take(&self, index: usize, stopped: bool) -> (r: Result<Option<Vec<u8>>, String>)
        requires
            index < self@.len(),
        ensures
            take_view(r) == take_spec(self@, index as int, stopped),
    {
        if stopped {
            return Err("読み上げを停止しました".to_string());
        }
        match &self.slots[index] {
            Some(Ok(wav)) => Ok(Some(wav.clone())),
            Some(Err(message)) => Err(message.clone()),
            None => Ok(None),
        }
    }

    /// Whether chunk `index` is still to be synthesised.
    pub fn is_pending(&self, index: usize) -> (r: bool)
        requires
            index < self@.len(),
        ensures
            r == (self@[index as int] is Pending),
    {
        self.slots[index].is_none()
    }
}

/// Whether each of the first `len` chunks (all of them if there are fewer)
/// has an outcome.
pub open spec fn all_cached_spec(slots: Seq<SlotView>, len: nat) -> bool {
    forall|i: int| 0 <= i < len && i < slots.len() ==> !(#[trigger] slots[i] is Pending)
}

/// Whether each of the first `len` chunks has an outcome.
pub fn all_chunks_cached(cache: &ChunkCache, len: usize) -> (r: bool)
    ensures
        r == all_cached_spec(cache@, len as nat),
{
    let n = cache.len();
    let mut i: usize = 0;
    while i < len && i < n
        invariant
            i <= n,
            n == cache@.len(),
            forall|q: int| 0 <= q < i ==> !(#[trigger] cache@[q] is Pending),
        decreases n - i,
    {
        if cache.is_pending(i) {
            return false;
        }
        i = i + 1;
    }
    true
}

/// The end of the window of chunks to synthesise: [`PRELOAD_AHEAD`] chunks
/// past the one being played, within the `len` chunks.
pub open spec fn preload_end(play_index: nat, len: nat) -> nat {
    if play_index + PRELOAD_AHEAD + 1 < len {
        (play_index + PRELOAD_AHEAD + 1) as nat
    } else {
        len
    }
}

/// The chunks below `end` still pending and not being synthesised, in order.
pub open spec fn to_load_spec(slots: Seq<SlotView>, inflight: Seq<usize>, end: nat) -> Seq<usize>
    decreases end,
{
    if end == 0 {
        seq![]
    } else {
        let rest = to_load_spec(slots, inflight, (end - 1) as nat);
        let i = (end - 1) as int;
        if slots[i] is Pending && !inflight.contains(i as usize) {
            rest.push(i as usize)
        } else {
            rest
        }
    }
}

/// The chunks to synthesise next: those below [`preload_end`] that are
/// pending and not already being synthesised.
pub fn chunks_to_load(cache: &ChunkCache, inflight: &Vec<usize>, play_index: usize, len: usize) -> (r:
    Vec<usize>)
    requires
        len <= cache@.len(),
    ensures
        r@ == to_load_spec(cache@, inflight@, preload_end(play_index as nat, len as nat)),
{
    let end = if play_index < len && len - play_index > PRELOAD_AHEAD + 1 {
        play_index + PRELOAD_AHEAD + 1
    } else {
        len
    };
    assert(end == preload_end(play_index as nat, len as nat));
    let mut out: Vec<usize> = Vec::new();
    let mut i: usize = 0;
    while i < end
        invariant
            i <= end,
            end <= len,
            len <= cache@.len(),
            out@ == to_load_spec(cache@, inflight@, i as nat),
        decreases end - i,
    {
        let mut busy = false;
        let mut k: usize = 0;
        while k < inflight.len()
            invariant
                k <= inflight.len(),
                busy == inflight@.take(k as int).contains(i),
            decreases inflight.len() - k,
        {
            let ghost t = inflight@.take(k as int);
            let ghost t1 = inflight@.take(k + 1);
            assert(t1 =~= t.push(inflight@[k as int]));
            if inflight[k] == i {
                busy = true;
            }
            proof {
                if t1.contains(i) {
                    let j = choose|j: int| 0 <= j < t1.len() && t1[j] == i;
                    if j < k {
                        assert(t[j] == i);
                    }
                }
                if t.contains(i) {
                    let j = choose|j: int| 0 <= j < t.len() && t[j] == i;
                    assert(t1[j] == i);
                }
                if inflight@[k as int] == i {
                    assert(t1[k as int] == i);
                }
            }
            k = k + 1;
        }
        assert(inflight@.take(inflight.len() as int) =~= inflight@);
        if cache.is_pending(i) && !busy {
            out.push(i);
        }
        i = i + 1;
    }
    out
}

proof fn lemma_to_load(slots: Seq<SlotView>, inflight: Seq<usize>, end: nat)
    requires
        end <= slots.len(),
        end <= usize::MAX,
    ensures
        forall|k: int|
            0 <= k < to_load_spec(slots, inflight, end).len() ==> {
                let c = #[trigger] to_load_spec(slots, inflight, end)[k];
                &&& c < end
                &&& slots[c as int] is Pending
                &&& !inflight.contains(c)
            },
        forall|c: usize|
            c < end && slots[c as int] is Pending && !inflight.contains(c) ==> #[trigger] to_load_spec(
                slots,
                inflight,
                end,
            ).contains(c),
        forall|a: int, b: int|
            0 <= a < b < to_load_spec(slots, inflight, end).len() ==> #[trigger] to_load_spec(
                slots,
                inflight,
                end,
            )[a] < #[trigger] to_load_spec(slots, inflight, end)[b],
    decreases end,
{
    if end > 0 {
        let prev = (end - 1) as nat;
        lemma_to_load(slots, inflight, prev);
        let rest = to_load_spec(slots, inflight, prev);
        let all = to_load_spec(slots, inflight, end);
        let i = (end - 1) as int;
        assert forall|c: usize|
            c < end && slots[c as int] is Pending && !inflight.contains(c) implies #[trigger] all.contains(
                c,
            ) by {
            if c < prev {
                assert(rest.contains(c));
                let k = choose|k: int| 0 <= k < rest.len() && rest[k] == c;
                assert(all[k] == c);
            } else {
                assert(all[all.len() - 1] == c);
            }
        }
        assert forall|k: int| 0 <= k < all.len() implies {
            let c = #[trigger] all[k];
            &&& c < end
            &&& slots[c as int] is Pending
            &&& !inflight.contains(c)
        } by {
            if k < rest.len() {
                assert(all[k] == rest[k]);
            } else {
                assert(all[k] == i as usize);
                assert((i as usize) as int == i);
            }
        }
        assert forall|a: int, b: int| 0 <= a < b < all.len() implies #[trigger] all[a] < #[trigger] all[b] by {
            if b < rest.len() {
                assert(all[a] == rest[a] && all[b] == rest[b]);
            } else {
                assert(all[a] == rest[a]);
                assert(rest[a] < prev);
                assert(all[b] == i as usize);
            }
        }
    }
}

/// Law of preloading: the chunks to synthesise next are exactly those in the
/// window (up to [`PRELOAD_AHEAD`] chunks past the one being played) that are
/// still pending and not being synthesised, each once, in increasing order.
pub proof fn law_preload_window(slots: Seq<SlotView>, inflight: Seq<usize>, play_index: nat, len: nat)
    requires
        len <= slots.len(),
        len <= usize::MAX,
    ensures
        ({
            let end = preload_end(play_index, len);
            let r = to_load_spec(slots, inflight, end);
            &&& forall|k: int|
                0 <= k < r.len() ==> {
                    &&& #[trigger] r[k] < end
                    &&& r[k] <= play_index + PRELOAD_AHEAD
                    &&& slots[r[k] as int] is Pending
                    &&& !inflight.contains(r[k])
                }
            &&& forall|c: usize|
                c < end && slots[c as int] is Pending && !inflight.contains(c) ==> #[trigger] r.contains(c)
            &&& forall|a: int, b: int| 0 <= a < b < r.len() ==> #[trigger] r[a] < #[trigger] r[b]
        }),
{
    lemma_to_load(slots, inflight, preload_end(play_index, len));
}

/// Whether the synthesis of a session is done: the window reaches the last
/// chunk and every chunk has an outcome.
pub fn preload_finished(cache: &ChunkCache, play_index: usize, len: usize) -> (r: bool)
    ensures
        r == (preload_end(play_index as nat, len as nat) >= len && all_cached_spec(
            cache@,
            len as nat,
        )),
{
    let end = if play_index < len && len - play_index > PRELOAD_AHEAD + 1 {
        play_index + PRELOAD_AHEAD + 1
    } else {
        len
    };
    end >= len && all_chunks_cached(cache, len)
}

// ---------------------------------------------------------------------------
// Engine replies
// ---------------------------------------------------------------------------

/// The text that `String::from_utf8_lossy` decodes from `bytes`.
pub uninterp spec fn spec_utf8_lossy(bytes: Seq<u8>) -> Seq<char>;

/// Calls `String::from_utf8_lossy`. The claim: the result is the named
/// function of the bytes.
#[verifier::external_body]
fn utf8_lossy(bytes: &[u8]) -> (r: String)
    ensures
        r@ == spec_utf8_lossy(bytes@),
{
    String::from_utf8_lossy(bytes).into_owned()
}

/// The message for a reply too short to hold audio.
pub open spec fn empty_audio_message() -> Seq<char> {
    "音声データが空です"@
}

/// The start of the message for a reply that is not WAV audio.
pub open spec fn not_wav_message() -> Seq<char> {
    "VOICEVOX が WAV ではなくエラーを返しました: "@
}

/// The signature that starts a WAV file: `RIFF`.
pub open spec fn riff_signature() -> Seq<u8> {
    seq![0x52u8, 0x49u8, 0x46u8, 0x46u8]
}

/// The check on synthesised audio: under 12 bytes it is empty; starting
/// with `RIFF` it is accepted; otherwise it is an error reply, and the
/// message quotes its first 120 bytes, decoded as UTF-8.
pub open spec fn validate_wav_spec(wav: Seq<u8>) -> Result<(), Seq<char>> {
    if wav.len() < 12 {
        Err(empty_audio_message())
    } else if wav.take(4) == riff_signature() {
        Ok(())
    } else {
        let n: int = if wav.len() < 120 {
            wav.len() as int
        } else {
            120
        };
        Err(not_wav_message() + spec_utf8_lossy(wav.take(n)))
    }
}

/// Checks that the engine replied with WAV audio (see [`validate_wav_spec`]).
pub fn validate_wav_bytes(wav: &[u8]) -> (r: Result<(), String>)
    ensures
        match r {
            Ok(()) => validate_wav_spec(wav@) is Ok,
            Err(m) => validate_wav_spec(wav@) == Err::<(), Seq<char>>(m@),
        },
{
    if wav.len() < 12 {
        return Err("音声データが空です".to_string());
    }
    if wav[0] == 0x52u8 && wav[1] == 0x49u8 && wav[2] == 0x46u8 && wav[3] == 0x46u8 {
        assert(wav@.take(4) =~= riff_signature());
        return Ok(());
    }
    assert(wav@.take(4) != riff_signature()) by {
        if wav@.take(4) == riff_signature() {
            assert(wav@.take(4)[0] == wav@[0]);
            assert(wav@.take(4)[1] == wav@[1]);
            assert(wav@.take(4)[2] == wav@[2]);
            assert(wav@.take(4)[3] == wav@[3]);
        }
    }
    let n: usize = if wav.len() < 120 {
        wav.len()
    } else {
        120
    };
    let mut head: Vec<u8> = Vec::new();
    let mut i: usize = 0;
    while i < n
        invariant
            i <= n,
            n <= wav@.len(),
            head@ == wav@.take(i as int),
        decreases n - i,
    {
        head.push(wav[i]);
        i = i + 1;
        assert(head@ =~= wav@.take(i as int));
    }
    let preview = utf8_lossy(head.as_slice());
    let mut message = String::new();
    string_push_str(&mut message, "VOICEVOX が WAV ではなくエラーを返しました: ");
    string_push_str(&mut message, preview.as_str());
    Err(message)
}

/// A style of a speaker as the engine lists it: its name and its id, each
/// where the reply gives one of the expected type.
pub struct StyleEntry {
    pub name: Option<String>,
    pub id: Option<u64>,
}

/// A speaker as the engine lists it: its name and its styles, each where
/// the reply gives one of the expected type.
pub struct SpeakerEntry {
    pub name: Option<String>,
    pub styles: Option<Vec<StyleEntry>>,
}

/// Mathematical value of a [`StyleEntry`].
pub struct StyleView {
    pub name: Option<Seq<char>>,
    pub id: Option<u64>,
}

/// Mathematical value of a [`SpeakerEntry`].
pub struct SpeakerEntryView {
    pub name: Option<Seq<char>>,
    pub styles: Option<Seq<StyleView>>,
}

/// Mathematical value of a string option.
pub open spec fn text_view(o: Option<String>) -> Option<Seq<char>> {
    match o {
        Some(s) => Some(s@),
        None => None,
    }
}

impl View for StyleEntry {
    type V = StyleView;

    open spec fn view(&self) -> StyleView {
        StyleView { name: text_view(self.name), id: self.id }
    }
}

/// The values of a list of styles.
pub open spec fn styles_view(v: Seq<StyleEntry>) -> Seq<StyleView> {
    v.map_values(|x: StyleEntry| x@)
}

impl View for SpeakerEntry {
    type V = SpeakerEntryView;

    open spec fn view(&self) -> SpeakerEntryView {
        SpeakerEntryView {
            name: text_view(self.name),
            styles: match self.styles {
                Some(v) => Some(styles_view(v@)),
                None => None,
            },
        }
    }
}

/// The values of an optional list of speakers.
pub open spec fn entries_opt_view(o: Option<Vec<SpeakerEntry>>) -> Option<Seq<SpeakerEntryView>> {
    match o {
        Some(v) => Some(v@.map_values(|x: SpeakerEntry| x@)),
        None => None,
    }
}

/// The speakers that `serde_json` reads from a reply of the `/speakers`
/// endpoint, if it is a JSON array.
pub uninterp spec fn spec_parse_speakers(bytes: Seq<u8>) -> Option<Seq<SpeakerEntryView>>;

/// Parses the reply with `serde_json::from_slice` as an array of values and
/// takes from each its `name` (a string) and `styles` (an array), and from
/// each style its `name` (a string) and `id` (an unsigned integer). The
/// claim: the result is the named function of the bytes.
#[verifier::external_body]
fn parse_speakers_json(bytes: &[u8]) -> (r: Option<Vec<SpeakerEntry>>)
    ensures
        entries_opt_view(r) == spec_parse_speakers(bytes@),
{
    let values: Vec<serde_json::Value> = serde_json::from_slice(bytes).ok()?;
    let text = |v: &serde_json::Value, k: &str| v.get(k).and_then(|x| x.as_str()).map(str::to_string);
    Some(values.iter().map(|v| SpeakerEntry {
        name: text(v, "name"),
        styles: v.get("styles").and_then(|x| x.as_array()).map(|a| a.iter().map(|st| StyleEntry {
            name: text(st, "name"),
            id: st.get("id").and_then(|x| x.as_u64()),
        }).collect()),
    }).collect())
}

/// `o`'s text, or `default`.
pub open spec fn text_or(o: Option<Seq<char>>, default: Seq<char>) -> Seq<char> {
    match o {
        Some(t) => t,
        None => default,
    }
}

/// The label of a voice: `<speaker name> (<style name>)`, with `不明` and
/// `ノーマル` for missing names.
pub open spec fn voice_label(speaker: Option<Seq<char>>, style: Option<Seq<char>>) -> Seq<char> {
    text_or(speaker, "不明"@) + " ("@ + text_or(style, "ノーマル"@) + ")"@
}

/// The voice of one style: its id (0 where missing, cut to 32 bits) and label.
pub open spec fn style_voice(speaker: Option<Seq<char>>, st: StyleView) -> SpeakerView {
    SpeakerView {
        id: match st.id {
            Some(i) => #[verifier::truncate] (i as u32),
            None => 0u32,
        },
        label: voice_label(speaker, st.name),
    }
}

/// The voices of the listed speakers, speaker by speaker, style by style;
/// speakers without a list of styles give none.
pub open spec fn entries_voices(e: Seq<SpeakerEntryView>) -> Seq<SpeakerView>
    decreases e.len(),
{
    if e.len() == 0 {
        seq![]
    } else {
        entries_voices(e.drop_last()) + match e.last().styles {
            Some(st) => st.map_values(|x: StyleView| style_voice(e.last().name, x)),
            None => seq![],
        }
    }
}

/// `x` put into `s` after the last element whose id is not greater than its own.
pub open spec fn insert_by_id(s: Seq<SpeakerView>, x: SpeakerView) -> Seq<SpeakerView>
    decreases s.len(),
{
    if s.len() == 0 {
        seq![x]
    } else if s.last().id <= x.id {
        s.push(x)
    } else {
        insert_by_id(s.drop_last(), x).push(s.last())
    }
}

/// `s` sorted by id, keeping the order of equal ids (stable insertion sort).
pub open spec fn sort_by_id(s: Seq<SpeakerView>) -> Seq<SpeakerView>
    decreases s.len(),
{
    if s.len() == 0 {
        seq![]
    } else {
        insert_by_id(sort_by_id(s.drop_last()), s.last())
    }
}

/// Whether the ids never decrease along `s`.
pub open spec fn sorted_by_id(s: Seq<SpeakerView>) -> bool {
    forall|i: int, j: int| 0 <= i <= j < s.len() ==> #[trigger] s[i].id <= #[trigger] s[j].id
}

proof fn lemma_insert_bound(s: Seq<SpeakerView>, x: SpeakerView, b: u32)
    requires
        forall|k: int| 0 <= k < s.len() ==> #[trigger] s[k].id <= b,
        x.id <= b,
    ensures
        forall|k: int| 0 <= k < insert_by_id(s, x).len() ==> #[trigger] insert_by_id(s, x)[k].id <= b,
        insert_by_id(s, x).len() == s.len() + 1,
    decreases s.len(),
{
    if s.len() > 0 && s.last().id > x.id {
        lemma_insert_bound(s.drop_last(), x, b);
    }
}

proof fn lemma_insert_sorted(s: Seq<SpeakerView>, x: SpeakerView)
    requires
        sorted_by_id(s),
    ensures
        sorted_by_id(insert_by_id(s, x)),
        insert_by_id(s, x).len() == s.len() + 1,
    decreases s.len(),
{
    if s.len() > 0 {
        if s.last().id > x.id {
            let d = s.drop_last();
            assert(sorted_by_id(d));
            lemma_insert_sorted(d, x);
            assert(forall|k: int| 0 <= k < d.len() ==> #[trigger] d[k].id <= s.last().id) by {
                assert(forall|k: int| 0 <= k < d.len() ==> d[k] == s[k]);
            }
            lemma_insert_bound(d, x, s.last().id);
        }
    }
}

/// Law of the speaker list: sorting by id keeps every voice (the length is
/// unchanged) and leaves the ids in non-decreasing order.
pub proof fn law_speakers_sorted(s: Seq<SpeakerView>)
    ensures
        sorted_by_id(sort_by_id(s)),
        sort_by_id(s).len() == s.len(),
    decreases s.len(),
{
    if s.len() > 0 {
        law_speakers_sorted(s.drop_last());
        lemma_insert_sorted(sort_by_id(s.drop_last()), s.last());
    }
}

/// The message when the list of speakers cannot be read.
pub open spec fn speakers_parse_error() -> Seq<char> {
    "話者一覧の解析に失敗しました"@
}

/// The voices that a `/speakers` reply lists, sorted by id; an error when
/// the reply is not a JSON array.
pub open spec fn speakers_from_json_spec(bytes: Seq<u8>) -> Result<Seq<SpeakerView>, Seq<char>> {
    match spec_parse_speakers(bytes) {
        Some(e) => Ok(sort_by_id(entries_voices(e))),
        None => Err(speakers_parse_error()),
    }
}

/// The label of a voice (see [`voice_label`]).
fn voice_label_exec(speaker: &Option<String>, style: &Option<String>) -> (r: String)
    ensures
        r@ == voice_label(text_view(*speaker), text_view(*style)),
{
    let mut s = String::new();
    match speaker {
        Some(n) => string_push_str(&mut s, n.as_str()),
        None => string_push_str(&mut s, "不明"),
    }
    string_push_str(&mut s, " (");
    match style {
        Some(n) => string_push_str(&mut s, n.as_str()),
        None => string_push_str(&mut s, "ノーマル"),
    }
    string_push_str(&mut s, ")");
    s
}

/// Inserts `x` after the last element whose id is not greater than its own.
fn insert_by_id_exec(v: &mut Vec<SpeakerInfo>, x: SpeakerInfo)
    ensures
        speakers_view(final(v)@) == insert_by_id(speakers_view(old(v)@), x@),
{
    let ghost sv = speakers_view(v@);
    let mut p = v.len();
    assert(sv.take(p as int) =~= sv);
    assert(sv.skip(p as int) =~= seq![]);
    while p > 0 && v[p - 1].id > x.id
        invariant
            p <= v@.len(),
            sv == speakers_view(v@),
            insert_by_id(sv, x@) == insert_by_id(sv.take(p as int), x@) + sv.skip(p as int),
        decreases p,
    {
        let ghost t = sv.take(p as int);
        assert(t.drop_last() =~= sv.take(p - 1));
        assert(t.last() == sv[p - 1]);
        assert(seq![sv[p - 1]] + sv.skip(p as int) =~= sv.skip(p - 1));
        assert(insert_by_id(t, x@) == insert_by_id(sv.take(p - 1), x@).push(sv[p - 1]));
        assert(insert_by_id(sv.take(p - 1), x@).push(sv[p - 1]) + sv.skip(p as int)
            =~= insert_by_id(sv.take(p - 1), x@) + sv.skip(p - 1));
        p = p - 1;
    }
    let ghost xv = x@;
    v.insert(p, x);
    proof {
        let t = sv.take(p as int);
        if p > 0 {
            assert(t.last() == sv[p - 1]);
            assert(insert_by_id(t, xv) == t.push(xv));
        } else {
            assert(t =~= seq![]);
        }
        assert(speakers_view(v@) =~= t.push(xv) + sv.skip(p as int));
    }
}

/// The voices that a `/speakers` reply lists, sorted by id (see
/// [`speakers_from_json_spec`]).
pub fn speakers_from_json(bytes: &[u8]) -> (r: Result<Vec<SpeakerInfo>, String>)
    ensures
        match r {
            Ok(v) => speakers_from_json_spec(bytes@) == Ok::<Seq<SpeakerView>, Seq<char>>(
                speakers_view(v@),
            ),
            Err(m) => speakers_from_json_spec(bytes@) == Err::<Seq<SpeakerView>, Seq<char>>(m@),
        },
{
    let entries = match parse_speakers_json(bytes) {
        Some(e) => e,
        None => return Err("話者一覧の解析に失敗しました".to_string()),
    };
    let ghost ev = entries@.map_values(|x: SpeakerEntry| x@);
    let mut sorted: Vec<SpeakerInfo> = Vec::new();
    let ghost mut all: Seq<SpeakerView> = seq![];
    let mut i: usize = 0;
    while i < entries.len()
        invariant
            i <= entries.len(),
            ev == entries@.map_values(|x: SpeakerEntry| x@),
            all == entries_voices(ev.take(i as int)),
            speakers_view(sorted@) == sort_by_id(all),
        decreases entries.len() - i,
    {
        assert(ev.take(i + 1).drop_last() =~= ev.take(i as int));
        assert(ev.take(i + 1).last() == entries@[i as int]@);
        match &entries[i].styles {
            Some(styles) => {
                let ghost sts = styles_view(styles@);
                let ghost base = all;
                let mut k: usize = 0;
                while k < styles.len()
                    invariant
                        k <= styles.len(),
                        i < entries@.len(),
                        sts == styles_view(styles@),
                        all == base + sts.take(k as int).map_values(
                            |x: StyleView| style_voice(entries@[i as int]@.name, x),
                        ),
                        speakers_view(sorted@) == sort_by_id(all),
                    decreases styles.len() - k,
                {
                    let id: u32 = match styles[k].id {
                        Some(n) => #[verifier::truncate] (n as u32),
                        None => 0,
                    };
                    let label = voice_label_exec(&entries[i].name, &styles[k].name);
                    let voice = SpeakerInfo { id, label };
                    assert(voice@ == style_voice(entries@[i as int]@.name, sts[k as int]));
                    insert_by_id_exec(&mut sorted, voice);
                    proof {
                        let next = all.push(voice@);
                        assert(next.drop_last() =~= all);
                        assert(sort_by_id(next) == insert_by_id(sort_by_id(all), voice@));
                        all = next;
                    }
                    assert(sts.take(k + 1).map_values(
                        |x: StyleView| style_voice(entries@[i as int]@.name, x),
                    ) =~= sts.take(k as int).map_values(
                        |x: StyleView| style_voice(entries@[i as int]@.name, x),
                    ).push(voice@));
                    k = k + 1;
                }
                assert(sts.take(styles.len() as int) =~= sts);
            },
            None => {
                assert(all + seq![] =~= all);
            },
        }
        i = i + 1;
    }
    assert(ev.take(entries.len() as int) =~= ev);
    Ok(sorted)
}

} // verus!
