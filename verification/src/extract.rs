use vstd::prelude::*;
use crate::clock::{clock_minutes, minute_of_day, MINUTES_PER_DAY};
use crate::markup::{
    attribute_views, event_views, markup_events, read_events, EventView, MarkupEvent,
};
use crate::normalize::{blacklisted, in_blacklist, lemmatize, normalized};
use crate::roster::{
    admitted, blank_histogram, consistent, counted, document_views, empty_roster,
    lemma_admission_step, lemma_admitted_consistent, lemma_counted_consistent, released,
    stands_after, Admission, Document, DocumentView, HeldView, Roster,
};
use crate::text::{same_text, space_count, spaces_in, trim, trimmed};

verus! {

/// What the extraction is run with.
#[derive(Clone, Copy)]
pub struct Settings {
    /// A message qualifies if its normal form holds at least this many words, counted
    /// as one more than its spaces.
    pub min_qualifying_tokens: usize,
    /// How many qualifying messages, after the first, admit an author.
    pub probation_size: usize,
    /// Whether normal forms are in lower case.
    pub case_fold: bool,
    /// Whether tokens are words, and messages are stemmed.
    pub word_mode: bool,
}

/// A qualifying message held back during its author's probation.
pub struct Held {
    pub text: String,
    pub minute: usize,
}

impl View for Held {
    type V = HeldView;

    open spec fn view(&self) -> HeldView {
        HeldView { text: self.text@, minute: self.minute as nat }
    }
}

/// Where an author stands.
pub enum Standing {
    /// No qualifying message yet.
    Unseen,
    /// On probation, with the messages held back.
    Probation(Vec<Held>),
    /// Admitted under this ID.
    Admitted(usize),
}

/// What is kept of one author name.
pub struct AuthorEntry {
    pub name: String,
    /// How many messages were posted at each minute of the day.
    pub histogram: Vec<u64>,
    pub standing: Standing,
}

/// The result of an extraction.
pub struct Extraction {
    /// The corpus, in the order of emission.
    pub documents: Vec<Document>,
    /// The author names by ID; index 0 holds the empty name.
    pub authors: Vec<String>,
    /// One entry for every author name seen with a message, in the order of first
    /// appearance.
    pub entries: Vec<AuthorEntry>,
}

/// The views of held messages, in order.
pub open spec fn held_views(held: Seq<Held>) -> Seq<HeldView> {
    Seq::new(held.len(), |i: int| held[i]@)
}

/// The views of a run of strings, in order.
pub open spec fn string_views(strings: Seq<String>) -> Seq<Seq<char>> {
    Seq::new(strings.len(), |i: int| strings[i]@)
}

/// A histogram's counts as natural numbers.
pub open spec fn counts(histogram: Seq<u64>) -> Seq<nat> {
    Seq::new(histogram.len(), |i: int| histogram[i] as nat)
}

/// The standing of an entry that is past `Unseen`.
pub open spec fn standing_view(standing: Standing) -> Admission {
    match standing {
        Standing::Admitted(id) => Admission::Admitted(id as nat),
        Standing::Probation(held) => Admission::Probation(held_views(held@)),
        Standing::Unseen => Admission::Probation(Seq::empty()),
    }
}

/// Whether some entry carries `name`.
pub open spec fn has_entry(entries: Seq<AuthorEntry>, name: Seq<char>) -> bool {
    exists|i: int| 0 <= i < entries.len() && (#[trigger] entries[i]).name@ == name
}

/// The place of an entry that carries `name`.
pub open spec fn entry_at(entries: Seq<AuthorEntry>, name: Seq<char>) -> int {
    choose|i: int| 0 <= i < entries.len() && (#[trigger] entries[i]).name@ == name
}

/// Whether no two entries carry the same name.
pub open spec fn names_distinct(entries: Seq<AuthorEntry>) -> bool {
    forall|i: int, j: int|
        0 <= i < j < entries.len() ==> (#[trigger] entries[i]).name@ != (#[trigger] entries[j]).name@
}

/// The histograms of the entries, by name.
pub open spec fn histograms_of(entries: Seq<AuthorEntry>) -> Map<Seq<char>, Seq<nat>> {
    Map::new(
        |name: Seq<char>| has_entry(entries, name),
        |name: Seq<char>| counts(entries[entry_at(entries, name)].histogram@),
    )
}

/// The standing of the entries that are past `Unseen`, by name.
pub open spec fn admission_of(entries: Seq<AuthorEntry>) -> Map<Seq<char>, Admission> {
    Map::new(
        |name: Seq<char>|
            has_entry(entries, name) && !(entries[entry_at(entries, name)].standing is Unseen),
        |name: Seq<char>| standing_view(entries[entry_at(entries, name)].standing),
    )
}

impl View for Extraction {
    type V = Roster;

    open spec fn view(&self) -> Roster {
        Roster {
            corpus: document_views(self.documents@),
            names: string_views(self.authors@),
            admission: admission_of(self.entries@),
            histograms: histograms_of(self.entries@),
        }
    }
}

impl Extraction {
    /// The shape that every extraction has: one entry per name, and a slot for every
    /// minute of the day in every histogram.
    pub open spec fn well_formed(&self) -> bool {
        &&& names_distinct(self.entries@)
        &&& forall|i: int|
            0 <= i < self.entries.len() ==> (#[trigger] self.entries[i]).histogram.len()
                == MINUTES_PER_DAY
    }

    /// The ID under which `name` was admitted, if it was.
    pub open spec fn id_of(&self, name: Seq<char>) -> Option<usize> {
        if has_entry(self.entries@, name) {
            match self.entries[entry_at(self.entries@, name)].standing {
                Standing::Admitted(id) => Some(id),
                _ => None,
            }
        } else {
            None
        }
    }

    /// Whether no count of any histogram is above `limit`.
    pub open spec fn counts_within(&self, limit: nat) -> bool {
        forall|i: int, m: int|
            0 <= i < self.entries.len() && 0 <= m < self.entries[i].histogram.len() ==> (
            #[trigger] self.entries[i].histogram[m]) <= limit
    }
}

pub(crate) proof fn lemma_entry_found(entries: Seq<AuthorEntry>, i: int)
    requires
        names_distinct(entries),
        0 <= i < entries.len(),
    ensures
        has_entry(entries, entries[i].name@),
        entry_at(entries, entries[i].name@) == i,
{
    let name = entries[i].name@;
    assert(0 <= i < entries.len() && entries[i].name@ == name);
    let j = entry_at(entries, name);
    if j < i {
        assert(entries[j].name@ != entries[i].name@);
    } else if i < j {
        assert(entries[i].name@ != entries[j].name@);
    }
}

proof fn lemma_entry_changed(before: Seq<AuthorEntry>, after: Seq<AuthorEntry>, i: int)
    requires
        names_distinct(before),
        before.len() == after.len(),
        0 <= i < before.len(),
        after[i].name@ == before[i].name@,
        forall|k: int| 0 <= k < before.len() && k != i ==> after[k] == before[k],
    ensures
        names_distinct(after),
        histograms_of(after) == histograms_of(before).insert(
            before[i].name@,
            counts(after[i].histogram@),
        ),
        after[i].histogram@ == before[i].histogram@ ==> histograms_of(after) == histograms_of(
            before,
        ),
        !(after[i].standing is Unseen) ==> admission_of(after) == admission_of(before).insert(
            before[i].name@,
            standing_view(after[i].standing),
        ),
        after[i].standing == before[i].standing ==> admission_of(after) == admission_of(before),
{
    assert forall|a: int, b: int| 0 <= a < b < after.len() implies (#[trigger] after[a]).name@ != (
    #[trigger] after[b]).name@ by {
        assert(after[a].name@ == before[a].name@);
        assert(after[b].name@ == before[b].name@);
    }
    assert forall|name: Seq<char>|
        has_entry(after, name) == has_entry(before, name) && (has_entry(before, name) ==> entry_at(
            after,
            name,
        ) == entry_at(before, name)) by {
        if has_entry(before, name) {
            let k = entry_at(before, name);
            assert(after[k].name@ == name);
            lemma_entry_found(before, k);
            lemma_entry_found(after, k);
        }
        if has_entry(after, name) {
            let k = entry_at(after, name);
            assert(before[k].name@ == name);
        }
    }
    lemma_entry_found(before, i);
    lemma_entry_found(after, i);
    let name = before[i].name@;
    assert(histograms_of(after) =~= histograms_of(before).insert(name, counts(after[i].histogram@)));
    if after[i].histogram@ == before[i].histogram@ {
        assert(histograms_of(after) =~= histograms_of(before));
    }
    if !(after[i].standing is Unseen) {
        assert(admission_of(after) =~= admission_of(before).insert(
            name,
            standing_view(after[i].standing),
        ));
    }
    if after[i].standing == before[i].standing {
        assert(admission_of(after) =~= admission_of(before));
    }
}

proof fn lemma_entry_added(before: Seq<AuthorEntry>, entry: AuthorEntry)
    requires
        names_distinct(before),
        !has_entry(before, entry.name@),
        entry.standing is Unseen,
    ensures
        names_distinct(before.push(entry)),
        histograms_of(before.push(entry)) == histograms_of(before).insert(
            entry.name@,
            counts(entry.histogram@),
        ),
        admission_of(before.push(entry)) == admission_of(before),
{
    let after = before.push(entry);
    assert forall|a: int, b: int| 0 <= a < b < after.len() implies (#[trigger] after[a]).name@ != (
    #[trigger] after[b]).name@ by {
        assert(after[a] == before[a]);
        if b < before.len() {
            assert(after[b] == before[b]);
        }
    }
    assert forall|name: Seq<char>|
        has_entry(after, name) == (has_entry(before, name) || name == entry.name@) && (has_entry(
            before,
            name,
        ) ==> entry_at(after, name) == entry_at(before, name)) by {
        if has_entry(before, name) {
            let k = entry_at(before, name);
            assert(after[k] == before[k]);
            lemma_entry_found(after, k);
        }
        if has_entry(after, name) {
            let k = entry_at(after, name);
            if k < before.len() {
                assert(after[k] == before[k]);
            }
        }
        if name == entry.name@ {
            assert(after[before.len() as int].name@ == name);
        }
    }
    lemma_entry_found(after, before.len() as int);
    assert(histograms_of(after) =~= histograms_of(before).insert(
        entry.name@,
        counts(entry.histogram@),
    ));
    assert(admission_of(after) =~= admission_of(before));
}

/// Finds the entry that carries `name`.
pub(crate) fn find_entry(entries: &Vec<AuthorEntry>, name: &String) -> (found: Option<usize>)
    ensures
        match found {
            Some(i) => i < entries.len() && entries[i as int].name@ == name@,
            None => !has_entry(entries@, name@),
        },
{
    let mut i: usize = 0;
    while i < entries.len()
        invariant
            i <= entries.len(),
            forall|k: int| 0 <= k < i ==> (#[trigger] entries[k]).name@ != name@,
        decreases entries.len() - i,
    {
        if entries[i].name == *name {
            return Some(i);
        }
        i = i + 1;
    }
    None
}

impl Extraction {
    /// Looks up the ID of the author `name`. Only admitted authors have one.
    pub fn author_id(&self, name: &str) -> (id: Option<usize>)
        requires
            self.well_formed(),
        ensures
            id == self.id_of(name@),
            match id {
                Some(id) => self@.admission.dom().contains(name@) && self@.admission[name@]
                    == Admission::Admitted(id as nat),
                None => !self@.admission.dom().contains(name@) || self@.admission[name@] is Probation,
            },
    {
        let name = name.to_owned();
        match find_entry(&self.entries, &name) {
            Some(at) => {
                proof {
                    lemma_entry_found(self.entries@, at as int);
                }
                match &self.entries[at].standing {
                    Standing::Admitted(id) => Some(*id),
                    _ => None,
                }
            },
            None => None,
        }
    }
}

/// What a scan remembers between events.
pub struct ScanState {
    /// The class labels of the containers that are open, innermost last.
    pub labels: Seq<Seq<char>>,
    /// The author of the message at hand.
    pub author: Seq<char>,
    /// The minute of the day of the message at hand.
    pub minute: nat,
    pub roster: Roster,
}

/// The state before the first event: one unlabelled container, no author, midnight.
pub open spec fn start_state() -> ScanState {
    ScanState {
        labels: seq![Seq::<char>::empty()],
        author: Seq::empty(),
        minute: 0,
        roster: empty_roster(),
    }
}

/// The values of the `class` attributes among `attributes`, in order.
pub open spec fn class_values(attributes: Seq<Option<(Seq<char>, Seq<char>)>>) -> Seq<Seq<char>>
    decreases attributes.len(),
{
    if attributes.len() == 0 {
        Seq::empty()
    } else {
        let before = class_values(attributes.drop_last());
        match attributes.last() {
            Some(a) => if a.0 == "class"@ {
                before.push(a.1)
            } else {
                before
            },
            None => before,
        }
    }
}

/// Whether a message in its normal form is long enough: it holds at least
/// `min_tokens - 1` spaces.
pub open spec fn qualifies(text: Seq<char>, min_tokens: nat) -> bool {
    spaces_in(text) + 1 >= min_tokens
}

/// The minute after a timestamp `raw` was read: the one it names, if it is a clock
/// time within one day; else the minute before.
pub open spec fn minute_after(minute: nat, raw: Seq<char>) -> nat {
    match clock_minutes(trimmed(raw)) {
        Some(m) => if m < MINUTES_PER_DAY {
            m
        } else {
            minute
        },
        None => minute,
    }
}

/// The roster after the body `raw` of a message of `author` at `minute`: the message
/// is counted, and admitted if its normal form qualifies.
pub open spec fn posted(
    r: Roster,
    author: Seq<char>,
    minute: nat,
    raw: Seq<char>,
    settings: Settings,
) -> Roster {
    let text = normalized(raw, settings.word_mode, settings.case_fold);
    let r = counted(r, author, minute);
    if qualifies(text, settings.min_qualifying_tokens as nat) {
        admitted(r, author, text, minute, settings.probation_size as nat)
    } else {
        r
    }
}

/// The body of a message as it was posted: under which author name, at which minute,
/// and the text before it is brought into its normal form.
pub struct Post {
    pub author: Seq<char>,
    pub minute: nat,
    pub raw: Seq<char>,
}

/// The roster after a run of posts, taken in order.
pub open spec fn posted_run(r: Roster, posts: Seq<Post>, settings: Settings) -> Roster
    decreases posts.len(),
{
    if posts.len() == 0 {
        r
    } else {
        let last = posts.last();
        posted(posted_run(r, posts.drop_last(), settings), last.author, last.minute, last.raw, settings)
    }
}

/// The posts of `name` that qualify, in order, each in its normal form.
pub open spec fn qualifying_of(posts: Seq<Post>, name: Seq<char>, settings: Settings) -> Seq<
    HeldView,
>
    decreases posts.len(),
{
    if posts.len() == 0 {
        Seq::empty()
    } else {
        let before = qualifying_of(posts.drop_last(), name, settings);
        let last = posts.last();
        let text = normalized(last.raw, settings.word_mode, settings.case_fold);
        if last.author == name && qualifies(text, settings.min_qualifying_tokens as nat) {
            before.push(HeldView { text, minute: last.minute })
        } else {
            before
        }
    }
}

/// A run of posts keeps a roster consistent.
pub proof fn lemma_run_consistent(r: Roster, posts: Seq<Post>, settings: Settings)
    requires
        consistent(r, settings.probation_size as nat),
        settings.probation_size >= 1,
        forall|k: int| 0 <= k < posts.len() ==> (#[trigger] posts[k]).minute < MINUTES_PER_DAY,
    ensures
        consistent(posted_run(r, posts, settings), settings.probation_size as nat),
    decreases posts.len(),
{
    if posts.len() > 0 {
        let last = posts.last();
        let probation = settings.probation_size as nat;
        assert(last == posts[posts.len() - 1]);
        assert forall|k: int| 0 <= k < posts.drop_last().len() implies (
        #[trigger] posts.drop_last()[k]).minute < MINUTES_PER_DAY by {
            assert(posts.drop_last()[k] == posts[k]);
        }
        lemma_run_consistent(r, posts.drop_last(), settings);
        let before = posted_run(r, posts.drop_last(), settings);
        lemma_counted_consistent(before, last.author, last.minute, probation);
        lemma_admitted_consistent(
            counted(before, last.author, last.minute),
            last.author,
            normalized(last.raw, settings.word_mode, settings.case_fold),
            last.minute,
            probation,
        );
    }
}

/// Probation delays admission, and loses the first message only. An author who is
/// unseen and then posts, among the posts of any other authors, is admitted by the
/// qualifying message number `probation_size + 1` and not before; from then on the
/// author's documents are the qualifying messages from the second on, each with its
/// own normal form and minute, in the order of posting, all under the one ID that
/// the author was given. The first qualifying message is never a document, and
/// neither is any message that does not qualify.
pub proof fn lemma_probation_delays_admission(
    r: Roster,
    posts: Seq<Post>,
    name: Seq<char>,
    settings: Settings,
)
    requires
        consistent(r, settings.probation_size as nat),
        settings.probation_size >= 1,
        !r.admission.dom().contains(name),
        forall|k: int| 0 <= k < posts.len() ==> (#[trigger] posts[k]).minute < MINUTES_PER_DAY,
    ensures
        stands_after(
            posted_run(r, posts, settings),
            name,
            qualifying_of(posts, name, settings),
            settings.probation_size as nat,
        ),
    decreases posts.len(),
{
    if posts.len() > 0 {
        let shorter = posts.drop_last();
        let last = posts.last();
        let probation = settings.probation_size as nat;
        assert(last == posts[posts.len() - 1]);
        assert forall|k: int| 0 <= k < shorter.len() implies (#[trigger] shorter[k]).minute
            < MINUTES_PER_DAY by {
            assert(shorter[k] == posts[k]);
        }
        lemma_probation_delays_admission(r, shorter, name, settings);
        lemma_run_consistent(r, shorter, settings);
        let before = posted_run(r, shorter, settings);
        let text = normalized(last.raw, settings.word_mode, settings.case_fold);
        let after_count = counted(before, last.author, last.minute);
        lemma_counted_consistent(before, last.author, last.minute, probation);
        if qualifies(text, settings.min_qualifying_tokens as nat) {
            lemma_admission_step(
                after_count,
                last.author,
                text,
                last.minute,
                name,
                qualifying_of(shorter, name, settings),
                probation,
            );
        }
    }
}

/// The state after character data `raw`. What it means goes by the label of the
/// innermost open container: a timestamp sets the minute, a name sets the author, a
/// body under an author who is not blacklisted is a message. Under any other label,
/// or with no container open, it means nothing.
pub open spec fn after_text(s: ScanState, raw: Seq<char>, settings: Settings) -> ScanState {
    if s.labels.len() == 0 {
        s
    } else {
        let top = s.labels.last();
        let minute = if top == "pull_right date details"@ {
            minute_after(s.minute, raw)
        } else {
            s.minute
        };
        if top == "text"@ && !blacklisted(s.author) {
            ScanState { minute, roster: posted(s.roster, s.author, minute, raw, settings), ..s }
        } else if top == "from_name"@ {
            ScanState { minute, author: trimmed(raw), ..s }
        } else {
            ScanState { minute, ..s }
        }
    }
}

/// The state after an opening tag: a `div` opens one container for each of its `class`
/// attributes.
pub open spec fn after_open(
    s: ScanState,
    name: Seq<char>,
    attributes: Seq<Option<(Seq<char>, Seq<char>)>>,
) -> ScanState {
    if name == "div"@ {
        ScanState { labels: s.labels + class_values(attributes), ..s }
    } else {
        s
    }
}

/// The state after a closing tag: a `div` closes the innermost container, if any is
/// open.
pub open spec fn after_close(s: ScanState, name: Seq<char>) -> ScanState {
    if name == "div"@ && s.labels.len() > 0 {
        ScanState { labels: s.labels.drop_last(), ..s }
    } else {
        s
    }
}

/// The state after one event. Tags open and close containers, text that could be
/// unescaped is read by `after_text`, and everything else is passed over.
pub open spec fn after_event(s: ScanState, event: EventView, settings: Settings) -> ScanState {
    match event {
        EventView::Open { name, attributes } => after_open(s, name, attributes),
        EventView::Close { name } => after_close(s, name),
        EventView::Text { content: Some(raw) } => after_text(s, raw, settings),
        _ => s,
    }
}

/// The state after a run of events.
pub open spec fn scanned(events: Seq<EventView>, settings: Settings) -> ScanState
    decreases events.len(),
{
    if events.len() == 0 {
        start_state()
    } else {
        after_event(scanned(events.drop_last(), settings), events.last(), settings)
    }
}

/// The roster that a run of events leaves.
pub open spec fn extraction(events: Seq<EventView>, settings: Settings) -> Roster {
    scanned(events, settings).roster
}

/// Every scan leaves a consistent roster, and ends on a minute of the day.
pub proof fn lemma_scanned_consistent(events: Seq<EventView>, settings: Settings)
    requires
        settings.probation_size >= 1,
    ensures
        consistent(extraction(events, settings), settings.probation_size as nat),
        scanned(events, settings).minute < MINUTES_PER_DAY,
    decreases events.len(),
{
    if events.len() > 0 {
        lemma_scanned_consistent(events.drop_last(), settings);
        let s = scanned(events.drop_last(), settings);
        let probation = settings.probation_size as nat;
        match events.last() {
            EventView::Text { content: Some(raw) } => {
                if s.labels.len() > 0 {
                    let minute = after_text(s, raw, settings).minute;
                    let text = normalized(raw, settings.word_mode, settings.case_fold);
                    lemma_counted_consistent(s.roster, s.author, minute, probation);
                    lemma_admitted_consistent(
                        counted(s.roster, s.author, minute),
                        s.author,
                        text,
                        minute,
                        probation,
                    );
                }
            },
            _ => {},
        }
    }
}

/// Every scan ends on a minute of the day.
pub proof fn lemma_scanned_minute(events: Seq<EventView>, settings: Settings)
    ensures
        scanned(events, settings).minute < MINUTES_PER_DAY,
    decreases events.len(),
{
    if events.len() > 0 {
        lemma_scanned_minute(events.drop_last(), settings);
    }
}

/// Whether text that comes in the state `s` is the body of a message that counts:
/// the innermost open container is labelled `text`, and the author at hand is not
/// blacklisted.
pub open spec fn reads_post(s: ScanState) -> bool {
    s.labels.len() > 0 && s.labels.last() == "text"@ && !blacklisted(s.author)
}

/// The posts that a scan reads from a run of events, in order, each with the author
/// and the minute at hand when its text came.
pub open spec fn posts_of(events: Seq<EventView>, settings: Settings) -> Seq<Post>
    decreases events.len(),
{
    if events.len() == 0 {
        Seq::empty()
    } else {
        let before = posts_of(events.drop_last(), settings);
        let s = scanned(events.drop_last(), settings);
        match events.last() {
            EventView::Text { content: Some(raw) } => if reads_post(s) {
                before.push(Post { author: s.author, minute: s.minute, raw })
            } else {
                before
            },
            _ => before,
        }
    }
}

/// The roster that a scan leaves is the roster after the run of the posts that it
/// read, started on the empty roster. No post comes at a minute outside the day.
pub proof fn lemma_scan_is_run_of_posts(events: Seq<EventView>, settings: Settings)
    ensures
        extraction(events, settings) == posted_run(
            empty_roster(),
            posts_of(events, settings),
            settings,
        ),
        forall|k: int|
            0 <= k < posts_of(events, settings).len() ==> (#[trigger] posts_of(
                events,
                settings,
            )[k]).minute < MINUTES_PER_DAY,
    decreases events.len(),
{
    if events.len() > 0 {
        let shorter = events.drop_last();
        lemma_scan_is_run_of_posts(shorter, settings);
        lemma_scanned_minute(shorter, settings);
        let s = scanned(shorter, settings);
        let before = posts_of(shorter, settings);
        let now = posts_of(events, settings);
        match events.last() {
            EventView::Text { content: Some(raw) } => {
                if reads_post(s) {
                    reveal_strlit("text");
                    reveal_strlit("pull_right date details");
                    assert("text"@.len() != "pull_right date details"@.len());
                    let post = Post { author: s.author, minute: s.minute, raw };
                    assert(now == before.push(post));
                    assert(now.drop_last() =~= before);
                    assert(now.last() == post);
                    assert forall|k: int| 0 <= k < now.len() implies (#[trigger] now[k]).minute
                        < MINUTES_PER_DAY by {
                        if k < before.len() {
                            assert(now[k] == before[k]);
                        }
                    }
                }
            },
            _ => {},
        }
    }
}

/// Probation, as it shows in the result of a scan. For any author name, the roster
/// that the scan leaves holds the author as the author's qualifying posts among the
/// scanned events put the author: unseen with none of them, on probation with up to
/// `probation_size`, and admitted with more, with all of them but the first as the
/// author's documents, in order, under one ID.
pub proof fn lemma_extraction_probation(events: Seq<EventView>, settings: Settings, name: Seq<char>)
    requires
        settings.probation_size >= 1,
    ensures
        stands_after(
            extraction(events, settings),
            name,
            qualifying_of(posts_of(events, settings), name, settings),
            settings.probation_size as nat,
        ),
{
    lemma_scan_is_run_of_posts(events, settings);
    lemma_probation_delays_admission(empty_roster(), posts_of(events, settings), name, settings);
}

/// A scan under way.
struct Scanner {
    labels: Vec<String>,
    author: String,
    minute: usize,
    found: Extraction,
}

impl View for Scanner {
    type V = ScanState;

    closed spec fn view(&self) -> ScanState {
        ScanState {
            labels: string_views(self.labels@),
            author: self.author@,
            minute: self.minute as nat,
            roster: self.found@,
        }
    }
}

impl Scanner {
    /// What every scan keeps: a minute of the day, a well-formed extraction, and no
    /// count above `budget`, the number of events read.
    spec fn inv(&self, budget: nat) -> bool {
        &&& self.minute < MINUTES_PER_DAY
        &&& self.found.well_formed()
        &&& self.found.counts_within(budget)
    }

    fn new() -> (scanner: Scanner)
        ensures
            scanner@ == start_state(),
            scanner.inv(0),
    {
        let mut labels: Vec<String> = Vec::new();
        labels.push(String::new());
        let mut authors: Vec<String> = Vec::new();
        authors.push(String::new());
        let scanner = Scanner {
            labels,
            author: String::new(),
            minute: 0,
            found: Extraction { documents: Vec::new(), authors, entries: Vec::new() },
        };
        proof {
            assert(scanner@.labels =~= start_state().labels);
            assert(scanner@.roster.names =~= empty_roster().names);
            assert(scanner@.roster.corpus =~= empty_roster().corpus);
            assert(scanner@.roster.admission =~= empty_roster().admission);
            assert(scanner@.roster.histograms =~= empty_roster().histograms);
        }
        scanner
    }

    /// Opens one container for each `class` attribute of an opening `div`.
    fn open(&mut self, name: &String, attributes: &Vec<Option<(String, String)>>, Ghost(budget): Ghost<nat>)
        requires
            old(self).inv(budget),
        ensures
            final(self).inv(budget),
            final(self)@ == after_open(old(self)@, name@, attribute_views(attributes@)),
    {
        if !same_text(name.as_str(), "div") {
            return ;
        }
        let ghost views = attribute_views(attributes@);
        let mut i: usize = 0;
        proof {
            assert(views.take(0) =~= Seq::<Option<(Seq<char>, Seq<char>)>>::empty());
            assert(string_views(self.labels@) + class_values(views.take(0)) =~= string_views(
                self.labels@,
            ));
        }
        while i < attributes.len()
            invariant
                i <= attributes.len(),
                views == attribute_views(attributes@),
                self.author == old(self).author,
                self.minute == old(self).minute,
                self.found == old(self).found,
                string_views(self.labels@) == string_views(old(self).labels@) + class_values(
                    views.take(i as int),
                ),
            decreases attributes.len() - i,
        {
            proof {
                assert(views.take(i + 1).drop_last() =~= views.take(i as int));
                assert(views.take(i + 1).last() == views[i as int]);
            }
            match &attributes[i] {
                Some(attribute) => {
                    if same_text(attribute.0.as_str(), "class") {
                        let ghost before = string_views(self.labels@);
                        self.labels.push(attribute.1.clone());
                        assert(string_views(self.labels@) =~= before.push(attribute.1@));
                        assert(string_views(old(self).labels@) + class_values(
                            views.take(i as int),
                        ).push(attribute.1@) =~= before.push(attribute.1@));
                    }
                },
                None => {},
            }
            i = i + 1;
        }
        assert(views.take(i as int) =~= views);
    }

    /// Closes the innermost container, if one is open.
    fn close(&mut self, name: &String, Ghost(budget): Ghost<nat>)
        requires
            old(self).inv(budget),
        ensures
            final(self).inv(budget),
            final(self)@ == after_close(old(self)@, name@),
    {
        if same_text(name.as_str(), "div") && self.labels.len() > 0 {
            self.labels.pop();
            assert(string_views(self.labels@) =~= string_views(old(self).labels@).drop_last());
        }
    }
    /// Counts one message of the author at hand at the minute at hand, and returns
    /// the place of the author's entry.
    fn count(&mut self, Ghost(budget): Ghost<nat>) -> (index: usize)
        requires
            old(self).inv(budget),
            budget < u64::MAX,
        ensures
            final(self).inv(budget + 1),
            index < final(self).found.entries.len(),
            final(self).found.entries[index as int].name@ == old(self).author@,
            final(self)@ == (ScanState {
                roster: counted(old(self)@.roster, old(self)@.author, old(self)@.minute),
                ..old(self)@
            }),
    {
        let minute = self.minute;
        let ghost before = self.found.entries@;
        match find_entry(&self.found.entries, &self.author) {
            Some(index) => {
                let entry = &mut self.found.entries[index];
                let seen = entry.histogram[minute];
                entry.histogram[minute] = seen + 1;
                proof {
                    let after = self.found.entries@;
                    lemma_entry_found(before, index as int);
                    lemma_entry_changed(before, after, index as int);
                    let was = counts(before[index as int].histogram@);
                    assert(counts(after[index as int].histogram@) =~= was.update(
                        minute as int,
                        was[minute as int] + 1,
                    ));
                }
                index
            },
            None => {
                let mut histogram: Vec<u64> = vec![0u64; MINUTES_PER_DAY];
                histogram[minute] = 1;
                let index = self.found.entries.len();
                let entry = AuthorEntry {
                    name: self.author.clone(),
                    histogram,
                    standing: Standing::Unseen,
                };
                self.found.entries.push(entry);
                proof {
                    lemma_entry_added(before, entry);
                    let was = blank_histogram();
                    assert(counts(entry.histogram@) =~= was.update(
                        minute as int,
                        was[minute as int] + 1,
                    ));
                }
                index
            },
        }
    }

    /// Emits the held messages as documents of the author with the ID `id`.
    fn release(&mut self, held: Vec<Held>, id: usize)
        ensures
            final(self).labels == old(self).labels,
            final(self).author == old(self).author,
            final(self).minute == old(self).minute,
            final(self).found.authors == old(self).found.authors,
            final(self).found.entries == old(self).found.entries,
            document_views(final(self).found.documents@) == document_views(
                old(self).found.documents@,
            ) + released(held_views(held@), id as nat),
    {
        let mut rest = held;
        let ghost all = held_views(held@);
        assert(document_views(self.found.documents@) + released(all.take(0), id as nat)
            =~= document_views(self.found.documents@));
        assert(all.skip(0) =~= all);
        while rest.len() > 0
            invariant
                self.labels == old(self).labels,
                self.author == old(self).author,
                self.minute == old(self).minute,
                self.found.authors == old(self).found.authors,
                self.found.entries == old(self).found.entries,
                all == held_views(held@),
                rest.len() <= all.len(),
                held_views(rest@) == all.skip(all.len() - rest.len()),
                document_views(self.found.documents@) == document_views(
                    old(self).found.documents@,
                ) + released(all.take(all.len() - rest.len()), id as nat),
            decreases rest.len(),
        {
            let ghost done = all.len() - rest.len();
            let ghost emitted = document_views(self.found.documents@);
            let ghost waiting = held_views(rest@);
            let ghost queue = rest@;
            let message = rest.remove(0);
            proof {
                assert(message@ == waiting[0]);
                assert(waiting[0] == all[done]);
                assert forall|k: int| 0 <= k < rest.len() implies held_views(rest@)[k] == all.skip(
                    done + 1,
                )[k] by {
                    assert(rest@[k] == queue[k + 1]);
                    assert(waiting[k + 1] == queue[k + 1]@);
                    assert(waiting[k + 1] == all[done + k + 1]);
                }
                assert(held_views(rest@) =~= all.skip(done + 1));
            }
            self.found.documents.push(
                Document { author: id, text: message.text, minute: message.minute },
            );
            proof {
                assert(document_views(self.found.documents@) =~= emitted.push(
                    DocumentView { author: id as nat, text: message.text@, minute: message.minute as nat },
                ));
                assert(released(all.take(done + 1), id as nat) =~= released(
                    all.take(done),
                    id as nat,
                ).push(
                    DocumentView { author: id as nat, text: message.text@, minute: message.minute as nat },
                ));
                assert(document_views(self.found.documents@) =~= document_views(
                    old(self).found.documents@,
                ) + released(all.take(done + 1), id as nat));
            }
        }
        assert(all.take(all.len() as int) =~= all);
    }

    /// Takes a qualifying message of the author at hand, whose entry is at `index`.
    fn enrol(&mut self, index: usize, text: String, probation: usize, Ghost(budget): Ghost<nat>)
        requires
            old(self).inv(budget),
            index < old(self).found.entries.len(),
            old(self).found.entries[index as int].name@ == old(self).author@,
        ensures
            final(self).inv(budget),
            final(self)@ == (ScanState {
                roster: admitted(
                    old(self)@.roster,
                    old(self)@.author,
                    text@,
                    old(self)@.minute,
                    probation as nat,
                ),
                ..old(self)@
            }),
    {
        let minute = self.minute;
        let ghost before = self.found.entries@;
        let ghost name = self.author@;
        proof {
            lemma_entry_found(before, index as int);
        }
        let mut standing = Standing::Unseen;
        std::mem::swap(&mut self.found.entries[index].standing, &mut standing);
        match standing {
            Standing::Unseen => {
                self.found.entries[index].standing = Standing::Probation(Vec::new());
                proof {
                    lemma_entry_changed(before, self.found.entries@, index as int);
                    assert(held_views(Seq::<Held>::empty()) =~= Seq::<HeldView>::empty());
                }
            },
            Standing::Admitted(id) => {
                self.found.entries[index].standing = Standing::Admitted(id);
                let ghost emitted = document_views(self.found.documents@);
                self.found.documents.push(Document { author: id, text, minute });
                proof {
                    lemma_entry_changed(before, self.found.entries@, index as int);
                    assert(self.found.entries@[index as int].standing == before[index as int].standing);
                    assert(document_views(self.found.documents@) =~= emitted.push(
                        DocumentView { author: id as nat, text: text@, minute: minute as nat },
                    ));
                }
            },
            Standing::Probation(mut held) => {
                let ghost waiting = held_views(held@);
                held.push(Held { text, minute });
                assert(held_views(held@) =~= waiting.push(
                    HeldView { text: text@, minute: minute as nat },
                ));
                if held.len() == probation {
                    let id = self.found.authors.len();
                    let ghost known = string_views(self.found.authors@);
                    self.found.authors.push(self.author.clone());
                    assert(string_views(self.found.authors@) =~= known.push(name));
                    self.found.entries[index].standing = Standing::Admitted(id);
                    proof {
                        lemma_entry_changed(before, self.found.entries@, index as int);
                    }
                    self.release(held, id);
                } else {
                    self.found.entries[index].standing = Standing::Probation(held);
                    proof {
                        lemma_entry_changed(before, self.found.entries@, index as int);
                    }
                }
            },
        }
    }

    /// Reads character data.
    fn text(&mut self, raw: &String, settings: &Settings, Ghost(budget): Ghost<nat>)
        requires
            old(self).inv(budget),
            budget < u64::MAX,
        ensures
            final(self).inv(budget + 1),
            final(self)@ == after_text(old(self)@, raw@, *settings),
    {
        if self.labels.len() == 0 {
            return ;
        }
        let top = &self.labels[self.labels.len() - 1];
        let is_date = same_text(top.as_str(), "pull_right date details");
        let is_body = same_text(top.as_str(), "text");
        let is_name = same_text(top.as_str(), "from_name");
        assert(string_views(self.labels@).last() == top@);
        if is_date {
            let stamp = trim(raw.as_str());
            match minute_of_day(stamp.as_str()) {
                Some(minute) => {
                    self.minute = minute;
                },
                None => {},
            }
        }
        if is_body && !in_blacklist(self.author.as_str()) {
            let index = self.count(Ghost(budget));
            let text = lemmatize(raw.as_str(), settings.word_mode, settings.case_fold);
            let spaces = space_count(text.as_str());
            if settings.min_qualifying_tokens == 0 || spaces >= settings.min_qualifying_tokens - 1 {
                self.enrol(index, text, settings.probation_size, Ghost((budget + 1) as nat));
            }
        } else if is_name {
            self.author = trim(raw.as_str());
        }
    }

    /// Reads one event.
    fn event(&mut self, event: &MarkupEvent, settings: &Settings, Ghost(budget): Ghost<nat>)
        requires
            old(self).inv(budget),
            budget < u64::MAX,
        ensures
            final(self).inv(budget + 1),
            final(self)@ == after_event(old(self)@, event@, *settings),
    {
        match event {
            MarkupEvent::Open { name, attributes } => {
                self.open(name, attributes, Ghost(budget));
            },
            MarkupEvent::Close { name } => {
                self.close(name, Ghost(budget));
            },
            MarkupEvent::Text { content: Some(raw) } => {
                self.text(raw, settings, Ghost(budget));
            },
            _ => {},
        }
    }
}

/// Runs the extraction over events that were read before.
pub fn extract_events(events: &Vec<MarkupEvent>, settings: &Settings) -> (found: Extraction)
    ensures
        found@ == extraction(event_views(events@), *settings),
        found.well_formed(),
        found.counts_within(events.len() as nat),
        settings.probation_size >= 1 ==> consistent(found@, settings.probation_size as nat),
{
    proof {
        if settings.probation_size >= 1 {
            lemma_scanned_consistent(event_views(events@), *settings);
        }
    }
    let mut scanner = Scanner::new();
    let mut i: usize = 0;
    let ghost views = event_views(events@);
    assert(views.take(0) =~= Seq::<EventView>::empty());
    while i < events.len()
        invariant
            i <= events.len(),
            views == event_views(events@),
            scanner.inv(i as nat),
            scanner@ == scanned(views.take(i as int), *settings),
        decreases events.len() - i,
    {
        proof {
            assert(views.take(i + 1).drop_last() =~= views.take(i as int));
            assert(views.take(i + 1).last() == events[i as int]@);
        }
        scanner.event(&events[i], settings, Ghost(i as nat));
        i = i + 1;
    }
    assert(views.take(i as int) =~= views);
    scanner.found
}

/// Extracts the corpus, the authors and their activity from exported markup.
pub fn parse(markup: &str, settings: &Settings) -> (found: Extraction)
    ensures
        found@ == extraction(markup_events(markup@), *settings),
        found.well_formed(),
        settings.probation_size >= 1 ==> consistent(found@, settings.probation_size as nat),
{
    let events = read_events(markup);
    extract_events(&events, settings)
}

} // verus!
