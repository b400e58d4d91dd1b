use vstd::prelude::*;
use crate::clock::MINUTES_PER_DAY;

verus! {

/// One message of the corpus: who wrote it, its normal form, and the minute of the day
/// at which it was posted.
pub struct Document {
    pub author: usize,
    pub text: String,
    pub minute: usize,
}

/// A document as mathematics.
pub struct DocumentView {
    pub author: nat,
    pub text: Seq<char>,
    pub minute: nat,
}

impl View for Document {
    type V = DocumentView;

    open spec fn view(&self) -> DocumentView {
        DocumentView { author: self.author as nat, text: self.text@, minute: self.minute as nat }
    }
}

/// The views of a run of documents, in order.
pub open spec fn document_views(documents: Seq<Document>) -> Seq<DocumentView> {
    Seq::new(documents.len(), |i: int| documents[i]@)
}

/// A qualifying message that waits for its author's admission: text and minute.
pub struct HeldView {
    pub text: Seq<char>,
    pub minute: nat,
}

/// Where an author who has posted a qualifying message stands. An author without one
/// is unseen and has no standing.
pub enum Admission {
    /// On probation, with the qualifying messages held back so far (the first one is
    /// not among them: it is dropped).
    Probation(Seq<HeldView>),
    /// Admitted under this ID.
    Admitted(nat),
}

/// Everything that admission keeps: the corpus, the names by ID, the standing of each
/// author, and the raw activity histogram of each author.
pub struct Roster {
    /// The documents emitted so far, in the order of emission.
    pub corpus: Seq<DocumentView>,
    /// The author names by ID. Index 0 is a placeholder: the empty name.
    pub names: Seq<Seq<char>>,
    /// The standing of every author seen with a qualifying message.
    pub admission: Map<Seq<char>, Admission>,
    /// For every author seen with a message, how many were posted at each minute.
    pub histograms: Map<Seq<char>, Seq<nat>>,
}

/// The roster before any message.
pub open spec fn empty_roster() -> Roster {
    Roster {
        corpus: Seq::empty(),
        names: seq![Seq::<char>::empty()],
        admission: Map::empty(),
        histograms: Map::empty(),
    }
}

/// A histogram without a message.
pub open spec fn blank_histogram() -> Seq<nat> {
    Seq::new(MINUTES_PER_DAY as nat, |i: int| 0nat)
}

/// The roster after one more message of `name` at `minute` was counted. Every message
/// under a name that is not blacklisted is counted, whether or not it qualifies.
pub open spec fn counted(r: Roster, name: Seq<char>, minute: nat) -> Roster {
    let before = if r.histograms.dom().contains(name) {
        r.histograms[name]
    } else {
        blank_histogram()
    };
    Roster {
        histograms: r.histograms.insert(
            name,
            before.update(minute as int, before[minute as int] + 1),
        ),
        ..r
    }
}

/// The documents that held messages become once their author has the ID `id`.
pub open spec fn released(held: Seq<HeldView>, id: nat) -> Seq<DocumentView> {
    Seq::new(
        held.len(),
        |i: int| DocumentView { author: id, text: held[i].text, minute: held[i].minute },
    )
}

/// The roster after a qualifying message of `name`. The first one puts the author on
/// probation and is dropped. Later ones are held back until `probation` of them are
/// held; then the author gets the next ID and all of them are emitted, in order.
/// Every qualifying message of an admitted author is emitted at once.
pub open spec fn admitted(
    r: Roster,
    name: Seq<char>,
    text: Seq<char>,
    minute: nat,
    probation: nat,
) -> Roster {
    if !r.admission.dom().contains(name) {
        Roster { admission: r.admission.insert(name, Admission::Probation(Seq::empty())), ..r }
    } else {
        match r.admission[name] {
            Admission::Admitted(id) => Roster {
                corpus: r.corpus.push(DocumentView { author: id, text, minute }),
                ..r
            },
            Admission::Probation(held) => {
                let held = held.push(HeldView { text, minute });
                if held.len() == probation {
                    let id = r.names.len();
                    Roster {
                        corpus: r.corpus + released(held, id),
                        names: r.names.push(name),
                        admission: r.admission.insert(name, Admission::Admitted(id)),
                        ..r
                    }
                } else {
                    Roster { admission: r.admission.insert(name, Admission::Probation(held)), ..r }
                }
            },
        }
    }
}

/// Whether `histogram` has a slot for every minute of the day and counts at least one
/// message.
pub open spec fn is_activity(histogram: Seq<nat>) -> bool {
    &&& histogram.len() == MINUTES_PER_DAY
    &&& exists|m: int| 0 <= m < histogram.len() && #[trigger] histogram[m] > 0
}

/// What holds of every roster that messages can lead to. ID 0 belongs to nobody: its
/// name is the empty name. The names from ID 1 on are exactly the admitted authors,
/// each under its own ID. Every document carries the ID of an admitted author and a
/// minute of the day. An author on probation holds fewer messages than admission
/// takes. Every histogram has a slot for each minute and counts at least one
/// message, and every author with a standing has a histogram.
pub open spec fn consistent(r: Roster, probation: nat) -> bool {
    &&& r.names.len() >= 1
    &&& r.names[0] == Seq::<char>::empty()
    &&& forall|id: int|
        1 <= id < r.names.len() ==> r.admission.dom().contains(#[trigger] r.names[id])
            && r.admission[r.names[id]] == Admission::Admitted(id as nat)
    &&& forall|name: Seq<char>| #[trigger]
        r.admission.dom().contains(name) ==> r.histograms.dom().contains(name) && match r.admission[name] {
            Admission::Admitted(id) => 1 <= id < r.names.len() && r.names[id as int] == name,
            Admission::Probation(held) => held.len() < probation && forall|k: int|
                0 <= k < held.len() ==> (#[trigger] held[k]).minute < MINUTES_PER_DAY,
        }
    &&& forall|i: int|
        0 <= i < r.corpus.len() ==> 1 <= (#[trigger] r.corpus[i]).author < r.names.len()
            && r.corpus[i].minute < MINUTES_PER_DAY
    &&& forall|name: Seq<char>| #[trigger]
        r.histograms.dom().contains(name) ==> is_activity(r.histograms[name])
}

/// A consistent roster gives no two IDs the same name.
pub proof fn lemma_names_distinct(r: Roster, probation: nat, a: int, b: int)
    requires
        consistent(r, probation),
        1 <= a < r.names.len(),
        1 <= b < r.names.len(),
        r.names[a] == r.names[b],
    ensures
        a == b,
{
    assert(r.admission[r.names[a]] == Admission::Admitted(a as nat));
    assert(r.admission[r.names[b]] == Admission::Admitted(b as nat));
}

/// In a consistent roster every admitted author has a histogram that counts at
/// least one message.
pub proof fn lemma_admitted_are_active(r: Roster, probation: nat, id: int)
    requires
        consistent(r, probation),
        1 <= id < r.names.len(),
    ensures
        r.histograms.dom().contains(r.names[id]),
        is_activity(r.histograms[r.names[id]]),
{
    assert(r.admission.dom().contains(r.names[id]));
}

/// Counting a message keeps a roster consistent, and leaves the author with a
/// histogram.
pub proof fn lemma_counted_consistent(r: Roster, name: Seq<char>, minute: nat, probation: nat)
    requires
        consistent(r, probation),
        minute < MINUTES_PER_DAY,
    ensures
        consistent(counted(r, name, minute), probation),
        counted(r, name, minute).histograms.dom().contains(name),
{
    let after = counted(r, name, minute);
    assert(after.histograms[name][minute as int] > 0);
    assert(is_activity(after.histograms[name]));
    assert forall|other: Seq<char>| #[trigger]
        after.histograms.dom().contains(other) implies is_activity(after.histograms[other]) by {
        if other != name {
            assert(r.histograms.dom().contains(other));
        }
    }
}

/// Admission keeps a roster consistent.
pub proof fn lemma_admitted_consistent(
    r: Roster,
    name: Seq<char>,
    text: Seq<char>,
    minute: nat,
    probation: nat,
)
    requires
        consistent(r, probation),
        probation >= 1,
        minute < MINUTES_PER_DAY,
        r.histograms.dom().contains(name),
    ensures
        consistent(admitted(r, name, text, minute, probation), probation),
{
    let after = admitted(r, name, text, minute, probation);
    if r.admission.dom().contains(name) {
        match r.admission[name] {
            Admission::Admitted(id) => {},
            Admission::Probation(held) => {
                let held = held.push(HeldView { text, minute });
                if held.len() == probation {
                    let id = r.names.len();
                    assert forall|k: int| 1 <= k < after.names.len() implies after.admission.dom().contains(
                        #[trigger] after.names[k],
                    ) && after.admission[after.names[k]] == Admission::Admitted(k as nat) by {
                        if k < r.names.len() {
                            assert(r.names[k] == after.names[k]);
                            assert(r.admission[r.names[k]] == Admission::Admitted(k as nat));
                        }
                    }
                    assert forall|i: int| 0 <= i < after.corpus.len() implies 1 <= (
                    #[trigger] after.corpus[i]).author < after.names.len() && after.corpus[i].minute
                        < MINUTES_PER_DAY by {
                        if i < r.corpus.len() {
                            assert(after.corpus[i] == r.corpus[i]);
                        } else {
                            assert(after.corpus[i] == released(held, id)[i - r.corpus.len()]);
                        }
                    }
                }
            },
        }
    }
}

/// The documents of the author `id` in `corpus`, in order.
pub open spec fn documents_of(corpus: Seq<DocumentView>, id: nat) -> Seq<DocumentView>
    decreases corpus.len(),
{
    if corpus.len() == 0 {
        Seq::empty()
    } else {
        let before = documents_of(corpus.drop_last(), id);
        if corpus.last().author == id {
            before.push(corpus.last())
        } else {
            before
        }
    }
}

proof fn lemma_documents_of_others(corpus: Seq<DocumentView>, id: nat)
    requires
        forall|i: int| 0 <= i < corpus.len() ==> (#[trigger] corpus[i]).author != id,
    ensures
        documents_of(corpus, id) == Seq::<DocumentView>::empty(),
    decreases corpus.len(),
{
    if corpus.len() > 0 {
        assert(corpus.last() == corpus[corpus.len() - 1]);
        assert forall|i: int| 0 <= i < corpus.drop_last().len() implies (
        #[trigger] corpus.drop_last()[i]).author != id by {
            assert(corpus.drop_last()[i] == corpus[i]);
        }
        lemma_documents_of_others(corpus.drop_last(), id);
    }
}

proof fn lemma_documents_of_own(corpus: Seq<DocumentView>, id: nat)
    requires
        forall|i: int| 0 <= i < corpus.len() ==> (#[trigger] corpus[i]).author == id,
    ensures
        documents_of(corpus, id) == corpus,
    decreases corpus.len(),
{
    if corpus.len() > 0 {
        assert(corpus.last() == corpus[corpus.len() - 1]);
        assert forall|i: int| 0 <= i < corpus.drop_last().len() implies (
        #[trigger] corpus.drop_last()[i]).author == id by {
            assert(corpus.drop_last()[i] == corpus[i]);
        }
        lemma_documents_of_own(corpus.drop_last(), id);
        assert(corpus.drop_last().push(corpus.last()) =~= corpus);
    } else {
        assert(corpus =~= Seq::<DocumentView>::empty());
    }
}

proof fn lemma_documents_of_joined(front: Seq<DocumentView>, back: Seq<DocumentView>, id: nat)
    ensures
        documents_of(front + back, id) == documents_of(front, id) + documents_of(back, id),
    decreases back.len(),
{
    if back.len() == 0 {
        assert(front + back =~= front);
        assert(documents_of(front, id) + documents_of(back, id) =~= documents_of(front, id));
    } else {
        let joined = front + back;
        assert(joined.drop_last() =~= front + back.drop_last());
        assert(joined.last() == back.last());
        lemma_documents_of_joined(front, back.drop_last(), id);
        if back.last().author == id {
            assert(documents_of(front, id) + documents_of(back.drop_last(), id).push(back.last())
                =~= (documents_of(front, id) + documents_of(back.drop_last(), id)).push(
                back.last(),
            ));
        }
    }
}

/// Where an author who was unseen stands after posting the qualifying messages
/// `mine`, among those of any other authors. With none, the author is still unseen.
/// With up to `probation` of them, the author is on probation and holds all but the
/// first. With more, the author is admitted, and the author's documents are all the
/// author's messages but the first, in order, under the author's ID.
pub open spec fn stands_after(after: Roster, name: Seq<char>, mine: Seq<HeldView>, probation: nat) -> bool {
    if mine.len() == 0 {
        !after.admission.dom().contains(name)
    } else if mine.len() <= probation {
        after.admission.dom().contains(name) && after.admission[name] == Admission::Probation(
            mine.skip(1),
        )
    } else {
        after.admission.dom().contains(name) && match after.admission[name] {
            Admission::Admitted(id) => documents_of(after.corpus, id) == released(mine.skip(1), id),
            Admission::Probation(_) => false,
        }
    }
}

/// One more qualifying message, of `author`, leaves the author `name` where the
/// messages so far and this one, if it is the author's own, put the author.
pub proof fn lemma_admission_step(
    before: Roster,
    author: Seq<char>,
    text: Seq<char>,
    minute: nat,
    name: Seq<char>,
    mine: Seq<HeldView>,
    probation: nat,
)
    requires
        consistent(before, probation),
        probation >= 1,
        stands_after(before, name, mine, probation),
    ensures
        stands_after(
            admitted(before, author, text, minute, probation),
            name,
            if author == name {
                mine.push(HeldView { text, minute })
            } else {
                mine
            },
            probation,
        ),
{
    let after = admitted(before, author, text, minute, probation);
    let held_last = HeldView { text, minute };
    let doc_last = |id: nat| DocumentView { author: id, text, minute };
    if author == name {
        let grown = mine.push(held_last);
        if mine.len() == 0 {
            assert(grown.skip(1) =~= Seq::<HeldView>::empty());
        } else if mine.len() <= probation {
            let held = mine.skip(1).push(held_last);
            assert(held =~= grown.skip(1));
            if held.len() == probation {
                let id = before.names.len();
                assert forall|i: int| 0 <= i < before.corpus.len() implies (
                #[trigger] before.corpus[i]).author != id by {}
                lemma_documents_of_others(before.corpus, id);
                lemma_documents_of_own(released(held, id), id);
                lemma_documents_of_joined(before.corpus, released(held, id), id);
                assert(Seq::<DocumentView>::empty() + released(held, id) =~= released(held, id));
            }
        } else {
            let id = before.admission[name]->Admitted_0;
            assert(after.corpus == before.corpus.push(doc_last(id)));
            assert(after.corpus.drop_last() =~= before.corpus);
            assert(released(grown.skip(1), id) =~= released(mine.skip(1), id).push(doc_last(id)));
        }
    } else if mine.len() > probation {
        let id = before.admission[name]->Admitted_0;
        assert(before.names[id as int] == name);
        if before.admission.dom().contains(author) {
            match before.admission[author] {
                Admission::Admitted(other) => {
                    assert(before.names[other as int] == author);
                    assert(after.corpus == before.corpus.push(doc_last(other)));
                    assert(after.corpus.drop_last() =~= before.corpus);
                },
                Admission::Probation(held) => {
                    let held = held.push(held_last);
                    if held.len() == probation {
                        let other = before.names.len();
                        assert forall|i: int| 0 <= i < released(held, other).len() implies (
                        #[trigger] released(held, other)[i]).author != id by {}
                        lemma_documents_of_others(released(held, other), id);
                        lemma_documents_of_joined(before.corpus, released(held, other), id);
                        assert(documents_of(before.corpus, id) + Seq::<DocumentView>::empty()
                            =~= documents_of(before.corpus, id));
                    }
                },
            }
        }
    }
}

} // verus!
