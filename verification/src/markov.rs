use vstd::prelude::*;
use crate::roster::{document_views, Document, DocumentView};
use crate::text::{same_chars, token_views, tokenize, tokens_of};

verus! {

/// A token that was seen after a context, and how often.
pub struct Successor {
    pub token: Vec<char>,
    pub count: u128,
}

/// A context, which is the previous token, with everything seen after it. The
/// probability of a successor is its count over the context's total.
pub struct Context {
    pub token: Vec<char>,
    pub total: u128,
    pub successors: Vec<Successor>,
}

/// The transition model of one author: for each context the counts of what followed.
/// The empty token stands for the start of a document as a context, and for its end
/// as a successor.
pub struct TransitionModel {
    pub contexts: Vec<Context>,
    /// How many transitions were recorded.
    pub recorded: u128,
}

/// The tokens of a row's successors, in order.
pub open spec fn successor_keys(successors: Seq<Successor>) -> Seq<Seq<char>> {
    Seq::new(successors.len(), |i: int| successors[i].token@)
}

/// The tokens of the contexts, in order.
pub open spec fn context_keys(contexts: Seq<Context>) -> Seq<Seq<char>> {
    Seq::new(contexts.len(), |i: int| contexts[i].token@)
}

/// The sum of a row's counts.
pub open spec fn row_sum(successors: Seq<Successor>) -> nat
    decreases successors.len(),
{
    if successors.len() == 0 {
        0
    } else {
        row_sum(successors.drop_last()) + successors.last().count as nat
    }
}

impl Context {
    /// There is a successor, no successor stands twice, none has the count 0, and the
    /// total is the sum of the counts: the probabilities of a row sum to 1.
    pub open spec fn well_formed(&self) -> bool {
        &&& self.successors.len() >= 1
        &&& successor_keys(self.successors@).no_duplicates()
        &&& forall|k: int| 0 <= k < self.successors.len() ==> (#[trigger] self.successors[k]).count >= 1
        &&& self.total == row_sum(self.successors@)
    }

    /// How often `next` was seen after this context.
    pub open spec fn count(&self, next: Seq<char>) -> nat {
        let keys = successor_keys(self.successors@);
        if keys.contains(next) {
            self.successors[keys.index_of(next)].count as nat
        } else {
            0
        }
    }
}

impl TransitionModel {
    /// No context stands twice, every row is well formed, and no row has more
    /// transitions than were recorded.
    pub open spec fn well_formed(&self) -> bool {
        &&& context_keys(self.contexts@).no_duplicates()
        &&& forall|c: int|
            0 <= c < self.contexts.len() ==> (#[trigger] self.contexts[c]).well_formed()
                && self.contexts[c].total <= self.recorded
    }

    /// How often `next` was seen after `prev`.
    pub open spec fn count(&self, prev: Seq<char>, next: Seq<char>) -> nat {
        let keys = context_keys(self.contexts@);
        if keys.contains(prev) {
            self.contexts[keys.index_of(prev)].count(next)
        } else {
            0
        }
    }

    /// How often anything was seen after `prev`.
    pub open spec fn total(&self, prev: Seq<char>) -> nat {
        let keys = context_keys(self.contexts@);
        if keys.contains(prev) {
            self.contexts[keys.index_of(prev)].total as nat
        } else {
            0
        }
    }
}

proof fn lemma_key_found(keys: Seq<Seq<char>>, i: int)
    requires
        keys.no_duplicates(),
        0 <= i < keys.len(),
    ensures
        keys.contains(keys[i]),
        keys.index_of(keys[i]) == i,
{
    assert(0 <= i < keys.len() && keys[i] == keys[i]);
}

proof fn lemma_row_bump(before: Seq<Successor>, after: Seq<Successor>, k: int)
    requires
        before.len() == after.len(),
        0 <= k < before.len(),
        after[k].count == before[k].count + 1,
        forall|j: int| 0 <= j < before.len() && j != k ==> after[j] == before[j],
    ensures
        row_sum(after) == row_sum(before) + 1,
    decreases before.len(),
{
    if k == before.len() - 1 {
        assert(after.drop_last() =~= before.drop_last());
    } else {
        lemma_row_bump(before.drop_last(), after.drop_last(), k);
    }
}

proof fn lemma_row_bounds(successors: Seq<Successor>, k: int)
    requires
        0 <= k < successors.len(),
    ensures
        successors[k].count <= row_sum(successors),
    decreases successors.len(),
{
    if k < successors.len() - 1 {
        lemma_row_bounds(successors.drop_last(), k);
    }
}

/// The probabilities of a row sum to 1. In a well-formed model every context has a
/// positive total, the total is the sum of the counts of the context's successors,
/// each of these counts is the count of the step from the context to the successor,
/// and no step from the context to anything else was seen.
pub proof fn lemma_rows_sum_to_one(model: TransitionModel, c: int)
    requires
        model.well_formed(),
        0 <= c < model.contexts.len(),
    ensures
        model.contexts[c].total >= 1,
        row_sum(model.contexts[c].successors@) == model.contexts[c].total,
        model.total(model.contexts[c].token@) == model.contexts[c].total,
        forall|k: int|
            0 <= k < model.contexts[c].successors.len() ==> model.count(
                model.contexts[c].token@,
                (#[trigger] model.contexts[c].successors[k]).token@,
            ) == model.contexts[c].successors[k].count,
        forall|next: Seq<char>|
            !successor_keys(model.contexts[c].successors@).contains(next) ==> #[trigger] model.count(
                model.contexts[c].token@,
                next,
            ) == 0,
{
    let context = model.contexts[c];
    let keys = successor_keys(context.successors@);
    lemma_key_found(context_keys(model.contexts@), c);
    assert(context.well_formed());
    lemma_row_bounds(context.successors@, 0);
    assert forall|k: int| 0 <= k < context.successors.len() implies model.count(
        context.token@,
        (#[trigger] context.successors[k]).token@,
    ) == context.successors[k].count by {
        lemma_key_found(keys, k);
    }
}

/// A copy of `v`.
fn copy_chars(v: &Vec<char>) -> (r: Vec<char>)
    ensures
        r@ == v@,
{
    let mut r: Vec<char> = Vec::new();
    let mut i: usize = 0;
    while i < v.len()
        invariant
            i <= v.len(),
            r@ == v@.take(i as int),
        decreases v.len() - i,
    {
        r.push(v[i]);
        assert(r@ =~= v@.take(i + 1));
        i = i + 1;
    }
    assert(v@.take(i as int) =~= v@);
    r
}

impl Context {
    /// Finds the successor with the token `next`.
    fn find(&self, next: &Vec<char>) -> (found: Option<usize>)
        ensures
            match found {
                Some(k) => k < self.successors.len() && self.successors[k as int].token@ == next@,
                None => !successor_keys(self.successors@).contains(next@),
            },
    {
        let mut k: usize = 0;
        while k < self.successors.len()
            invariant
                k <= self.successors.len(),
                forall|j: int| 0 <= j < k ==> (#[trigger] self.successors[j]).token@ != next@,
            decreases self.successors.len() - k,
        {
            if same_chars(&self.successors[k].token, next) {
                return Some(k);
            }
            k = k + 1;
        }
        assert forall|j: int| 0 <= j < self.successors.len() implies successor_keys(
            self.successors@,
        )[j] != next@ by {
            assert(self.successors[j].token@ != next@);
        }
        None
    }

    /// Counts one more `next` after this context.
    fn bump(&mut self, next: &Vec<char>)
        requires
            old(self).well_formed(),
            old(self).total < u128::MAX,
        ensures
            final(self).well_formed(),
            final(self).token == old(self).token,
            final(self).total == old(self).total + 1,
            forall|n: Seq<char>| #[trigger]
                final(self).count(n) == old(self).count(n) + if n == next@ {
                    1nat
                } else {
                    0nat
                },
    {
        let ghost before = self.successors@;
        let ghost keys = successor_keys(before);
        match self.find(next) {
            Some(k) => {
                proof {
                    lemma_row_bounds(before, k as int);
                }
                let seen = self.successors[k].count;
                self.successors[k].count = seen + 1;
                self.total = self.total + 1;
                proof {
                    let after = self.successors@;
                    lemma_row_bump(before, after, k as int);
                    assert(successor_keys(after) =~= keys);
                    lemma_key_found(keys, k as int);
                    assert forall|n: Seq<char>| #[trigger]
                        self.count(n) == old(self).count(n) + if n == next@ {
                            1nat
                        } else {
                            0nat
                        } by {
                        if keys.contains(n) {
                            let j = keys.index_of(n);
                            if j != k {
                                assert(after[j] == before[j]);
                            }
                        }
                    }
                }
            },
            None => {
                let successor = Successor { token: copy_chars(next), count: 1 };
                self.successors.push(successor);
                self.total = self.total + 1;
                proof {
                    let after = self.successors@;
                    let grown = successor_keys(after);
                    assert(grown =~= keys.push(next@));
                    assert(after.drop_last() =~= before);
                    assert forall|n: Seq<char>| #[trigger]
                        self.count(n) == old(self).count(n) + if n == next@ {
                            1nat
                        } else {
                            0nat
                        } by {
                        if keys.contains(n) {
                            let j = keys.index_of(n);
                            assert(grown[j] == n);
                            lemma_key_found(grown, j);
                        }
                        if n == next@ {
                            lemma_key_found(grown, before.len() as int);
                        }
                        if grown.contains(n) {
                            let j = grown.index_of(n);
                            if j < before.len() {
                                assert(keys[j] == n);
                            }
                        }
                    }
                }
            },
        }
    }
}

impl TransitionModel {
    /// The model of an author without a document: no context.
    pub fn new() -> (model: TransitionModel)
        ensures
            model.well_formed(),
            model.recorded == 0,
            forall|p: Seq<char>, n: Seq<char>| #[trigger] model.count(p, n) == 0,
            forall|p: Seq<char>| #[trigger] model.total(p) == 0,
    {
        TransitionModel { contexts: Vec::new(), recorded: 0 }
    }

    /// Finds the context with the token `prev`.
    fn find(&self, prev: &Vec<char>) -> (found: Option<usize>)
        ensures
            match found {
                Some(c) => c < self.contexts.len() && self.contexts[c as int].token@ == prev@,
                None => !context_keys(self.contexts@).contains(prev@),
            },
    {
        let mut c: usize = 0;
        while c < self.contexts.len()
            invariant
                c <= self.contexts.len(),
                forall|j: int| 0 <= j < c ==> (#[trigger] self.contexts[j]).token@ != prev@,
            decreases self.contexts.len() - c,
        {
            if same_chars(&self.contexts[c].token, prev) {
                return Some(c);
            }
            c = c + 1;
        }
        assert forall|j: int| 0 <= j < self.contexts.len() implies context_keys(self.contexts@)[j]
            != prev@ by {
            assert(self.contexts[j].token@ != prev@);
        }
        None
    }

    /// Records one transition from `prev` to `next`.
    pub fn record(&mut self, prev: &Vec<char>, next: &Vec<char>)
        requires
            old(self).well_formed(),
            old(self).recorded < u128::MAX,
        ensures
            final(self).well_formed(),
            final(self).recorded == old(self).recorded + 1,
            forall|p: Seq<char>, n: Seq<char>| #[trigger]
                final(self).count(p, n) == old(self).count(p, n) + if p == prev@ && n == next@ {
                    1nat
                } else {
                    0nat
                },
            forall|p: Seq<char>| #[trigger]
                final(self).total(p) == old(self).total(p) + if p == prev@ {
                    1nat
                } else {
                    0nat
                },
    {
        let ghost before = self.contexts@;
        let ghost keys = context_keys(before);
        match self.find(prev) {
            Some(c) => {
                self.contexts[c].bump(next);
                self.recorded = self.recorded + 1;
                proof {
                    let after = self.contexts@;
                    assert(context_keys(after) =~= keys);
                    lemma_key_found(keys, c as int);
                    assert forall|p: Seq<char>, n: Seq<char>| #[trigger]
                        self.count(p, n) == old(self).count(p, n) + if p == prev@ && n == next@ {
                            1nat
                        } else {
                            0nat
                        } by {
                        if keys.contains(p) {
                            let j = keys.index_of(p);
                            if j != c {
                                assert(after[j] == before[j]);
                            }
                        }
                    }
                    assert forall|p: Seq<char>| #[trigger]
                        self.total(p) == old(self).total(p) + if p == prev@ {
                            1nat
                        } else {
                            0nat
                        } by {
                        if keys.contains(p) {
                            let j = keys.index_of(p);
                            if j != c {
                                assert(after[j] == before[j]);
                            }
                        }
                    }
                    assert forall|j: int| 0 <= j < after.len() implies (#[trigger] after[j]).well_formed()
                        && after[j].total <= self.recorded by {
                        if j != c {
                            assert(after[j] == before[j]);
                        }
                    }
                }
            },
            None => {
                let mut successors: Vec<Successor> = Vec::new();
                successors.push(Successor { token: copy_chars(next), count: 1 });
                let context = Context { token: copy_chars(prev), total: 1, successors };
                proof {
                    let row = context.successors@;
                    assert(row.drop_last() =~= Seq::<Successor>::empty());
                    assert(row_sum(row.drop_last()) == 0);
                    assert(row_sum(row) == 1);
                    assert(successor_keys(row) =~= seq![next@]);
                    lemma_key_found(successor_keys(row), 0);
                    assert forall|n: Seq<char>| #[trigger]
                        context.count(n) == if n == next@ {
                            1nat
                        } else {
                            0nat
                        } by {
                        if successor_keys(row).contains(n) {
                            let j = successor_keys(row).index_of(n);
                            assert(successor_keys(row)[j] == n);
                        }
                    }
                }
                self.contexts.push(context);
                self.recorded = self.recorded + 1;
                proof {
                    let after = self.contexts@;
                    let grown = context_keys(after);
                    assert(grown =~= keys.push(prev@));
                    lemma_key_found(grown, before.len() as int);
                    assert forall|p: Seq<char>|
                        (keys.contains(p) ==> grown.contains(p) && grown.index_of(p)
                            == keys.index_of(p)) && (grown.contains(p) ==> keys.contains(p) || p
                            == prev@) by {
                        if keys.contains(p) {
                            let j = keys.index_of(p);
                            assert(grown[j] == p);
                            lemma_key_found(grown, j);
                        }
                        if grown.contains(p) {
                            let j = grown.index_of(p);
                            if j < before.len() {
                                assert(keys[j] == p);
                            }
                        }
                    }
                    assert forall|p: Seq<char>, n: Seq<char>| #[trigger]
                        self.count(p, n) == old(self).count(p, n) + if p == prev@ && n == next@ {
                            1nat
                        } else {
                            0nat
                        } by {
                        if keys.contains(p) {
                            assert(after[keys.index_of(p)] == before[keys.index_of(p)]);
                        }
                    }
                    assert forall|p: Seq<char>| #[trigger]
                        self.total(p) == old(self).total(p) + if p == prev@ {
                            1nat
                        } else {
                            0nat
                        } by {
                        if keys.contains(p) {
                            assert(after[keys.index_of(p)] == before[keys.index_of(p)]);
                        }
                    }
                    assert forall|j: int| 0 <= j < after.len() implies (#[trigger] after[j]).well_formed()
                        && after[j].total <= self.recorded by {
                        if j < before.len() {
                            assert(after[j] == before[j]);
                        }
                    }
                }
            },
        }
    }
}

/// The way through a document: from the start mark over its tokens to the end mark.
/// Both marks are the empty token.
pub open spec fn document_path(tokens: Seq<Seq<char>>) -> Seq<Seq<char>> {
    seq![Seq::<char>::empty()] + tokens + seq![Seq::<char>::empty()]
}

/// How many steps of `path` lead from `prev` to `next`.
pub open spec fn steps(path: Seq<Seq<char>>, prev: Seq<char>, next: Seq<char>) -> nat
    decreases path.len(),
{
    if path.len() < 2 {
        0
    } else {
        steps(path.drop_last(), prev, next) + if path[path.len() - 2] == prev && path.last()
            == next {
            1nat
        } else {
            0nat
        }
    }
}

/// How many steps of `path` leave `prev`.
pub open spec fn departures(path: Seq<Seq<char>>, prev: Seq<char>) -> nat
    decreases path.len(),
{
    if path.len() < 2 {
        0
    } else {
        departures(path.drop_last(), prev) + if path[path.len() - 2] == prev {
            1nat
        } else {
            0nat
        }
    }
}

/// How often the documents of `author` step from `prev` to `next`.
pub open spec fn transitions(
    documents: Seq<DocumentView>,
    author: nat,
    prev: Seq<char>,
    next: Seq<char>,
    word_mode: bool,
) -> nat
    decreases documents.len(),
{
    if documents.len() == 0 {
        0
    } else {
        transitions(documents.drop_last(), author, prev, next, word_mode) + if documents.last().author
            == author {
            steps(document_path(tokens_of(documents.last().text, word_mode)), prev, next)
        } else {
            0
        }
    }
}

/// How often the documents of `author` leave `prev`.
pub open spec fn departures_in(
    documents: Seq<DocumentView>,
    author: nat,
    prev: Seq<char>,
    word_mode: bool,
) -> nat
    decreases documents.len(),
{
    if documents.len() == 0 {
        0
    } else {
        departures_in(documents.drop_last(), author, prev, word_mode) + if documents.last().author
            == author {
            departures(document_path(tokens_of(documents.last().text, word_mode)), prev)
        } else {
            0
        }
    }
}

impl TransitionModel {
    /// The count of `next` after `prev` and the total of `prev`, if `next` was ever
    /// seen after `prev`.
    pub fn transition(&self, prev: &Vec<char>, next: &Vec<char>) -> (found: Option<(u128, u128)>)
        requires
            self.well_formed(),
        ensures
            match found {
                Some((count, total)) => count == self.count(prev@, next@) && total == self.total(
                    prev@,
                ) && 1 <= count <= total,
                None => self.count(prev@, next@) == 0,
            },
    {
        match self.find(prev) {
            Some(c) => {
                proof {
                    lemma_key_found(context_keys(self.contexts@), c as int);
                }
                let context = &self.contexts[c];
                match context.find(next) {
                    Some(k) => {
                        proof {
                            lemma_key_found(successor_keys(context.successors@), k as int);
                            lemma_row_bounds(context.successors@, k as int);
                        }
                        Some((context.successors[k].count, context.total))
                    },
                    None => None,
                }
            },
            None => None,
        }
    }

    /// Records the way through one document.
    fn learn(&mut self, tokens: &Vec<Vec<char>>)
        requires
            old(self).well_formed(),
            old(self).recorded + tokens.len() + 1 <= u128::MAX,
        ensures
            final(self).well_formed(),
            final(self).recorded == old(self).recorded + tokens.len() + 1,
            forall|p: Seq<char>, n: Seq<char>| #[trigger]
                final(self).count(p, n) == old(self).count(p, n) + steps(
                    document_path(token_views(tokens@)),
                    p,
                    n,
                ),
            forall|p: Seq<char>| #[trigger]
                final(self).total(p) == old(self).total(p) + departures(
                    document_path(token_views(tokens@)),
                    p,
                ),
    {
        let mark: Vec<char> = Vec::new();
        let ghost path = document_path(token_views(tokens@));
        let mut k: usize = 0;
        assert(path.take(1).len() < 2);
        while k < tokens.len()
            invariant
                k <= tokens.len(),
                mark@ == Seq::<char>::empty(),
                path == document_path(token_views(tokens@)),
                self.well_formed(),
                self.recorded == old(self).recorded + k,
                old(self).recorded + tokens.len() + 1 <= u128::MAX,
                forall|p: Seq<char>, n: Seq<char>| #[trigger]
                    self.count(p, n) == old(self).count(p, n) + steps(path.take(k + 1), p, n),
                forall|p: Seq<char>| #[trigger]
                    self.total(p) == old(self).total(p) + departures(path.take(k + 1), p),
            decreases tokens.len() - k,
        {
            proof {
                let grown = path.take(k + 2);
                assert(grown.drop_last() =~= path.take(k + 1));
                assert(grown.last() == tokens@[k as int]@);
                if k > 0 {
                    assert(grown[grown.len() - 2] == tokens@[k - 1]@);
                } else {
                    assert(grown[grown.len() - 2] == mark@);
                }
            }
            if k == 0 {
                self.record(&mark, &tokens[k]);
            } else {
                self.record(&tokens[k - 1], &tokens[k]);
            }
            k = k + 1;
        }
        proof {
            assert(path.take(k + 2) =~= path);
            assert(path.drop_last() =~= path.take(k + 1));
            assert(path.last() == mark@);
            if k > 0 {
                assert(path[path.len() - 2] == tokens@[k - 1]@);
            } else {
                assert(path[path.len() - 2] == mark@);
            }
        }
        if k == 0 {
            self.record(&mark, &mark);
        } else {
            self.record(&tokens[k - 1], &mark);
        }
    }
}

/// Whether `model` holds exactly the transitions of the documents of `author`.
pub open spec fn trained_on(
    model: TransitionModel,
    documents: Seq<DocumentView>,
    author: nat,
    word_mode: bool,
) -> bool {
    &&& model.well_formed()
    &&& forall|p: Seq<char>, n: Seq<char>| #[trigger]
        model.count(p, n) == transitions(documents, author, p, n, word_mode)
    &&& forall|p: Seq<char>| #[trigger]
        model.total(p) == departures_in(documents, author, p, word_mode)
}

/// Trains one transition model for each of the IDs from 0 to `authors` on the
/// documents that carry the ID. The model of an ID without documents has no context.
/// Documents with an ID above `authors` are left aside.
pub fn learn_markov(documents: &Vec<Document>, authors: usize, word_mode: bool) -> (models: Vec<
    TransitionModel,
>)
    ensures
        models.len() == authors + 1,
        forall|a: int|
            0 <= a <= authors ==> trained_on(
                #[trigger] models[a],
                document_views(documents@),
                a as nat,
                word_mode,
            ),
{
    let mut models: Vec<TransitionModel> = Vec::new();
    let ghost views = document_views(documents@);
    loop
        invariant_except_break
            models.len() <= authors,
        invariant
            views == document_views(documents@),
            forall|a: int|
                0 <= a < models.len() ==> (#[trigger] models[a]).recorded == 0 && trained_on(
                    models[a],
                    views.take(0),
                    a as nat,
                    word_mode,
                ),
        ensures
            models.len() == authors + 1,
            forall|a: int|
                0 <= a < models.len() ==> (#[trigger] models[a]).recorded == 0 && trained_on(
                    models[a],
                    views.take(0),
                    a as nat,
                    word_mode,
                ),
        decreases authors - models.len(),
    {
        models.push(TransitionModel::new());
        if models.len() > authors {
            break ;
        }
    }
    let mut i: usize = 0;
    while i < documents.len()
        invariant
            i <= documents.len(),
            models.len() == authors + 1,
            views == document_views(documents@),
            forall|a: int|
                0 <= a < models.len() ==> (#[trigger] models[a]).recorded <= i
                    * 0x1_0000_0000_0000_0000 && trained_on(
                    models[a],
                    views.take(i as int),
                    a as nat,
                    word_mode,
                ),
        decreases documents.len() - i,
    {
        let document = &documents[i];
        let author = document.author;
        proof {
            assert(views.take(i + 1).drop_last() =~= views.take(i as int));
            assert(views.take(i + 1).last() == document@);
        }
        if author <= authors {
            let tokens = tokenize(document.text.as_str(), word_mode);
            let ghost before = models@;
            models[author].learn(&tokens);
            proof {
                assert forall|a: int| 0 <= a < models.len() implies (#[trigger] models[a]).recorded
                    <= (i + 1) * 0x1_0000_0000_0000_0000 && trained_on(
                    models[a],
                    views.take(i + 1),
                    a as nat,
                    word_mode,
                ) by {
                    if a != author {
                        assert(models[a] == before[a]);
                    }
                }
            }
        }
        i = i + 1;
    }
    assert(views.take(i as int) =~= views);
    models
}

} // verus!
