use vstd::prelude::*;
use crate::clock::MINUTES_PER_DAY;
use crate::markov::TransitionModel;
use crate::roster::Document;
use crate::temporal::TemporalProfile;
use crate::text::token_views;

verus! {

/// What one step of a document is worth under an author's model.
#[derive(Clone, Copy)]
pub enum Factor {
    /// The step was seen in training: its probability is `count` over `total`.
    Observed { count: u128, total: u128 },
    /// The step was never seen: the fallback probability stands in.
    Unseen,
}

/// The factor of the step from `prev` to `next`.
pub open spec fn factor_of(model: TransitionModel, prev: Seq<char>, next: Seq<char>) -> Factor {
    if model.count(prev, next) > 0 {
        Factor::Observed {
            count: model.count(prev, next) as u128,
            total: model.total(prev) as u128,
        }
    } else {
        Factor::Unseen
    }
}

/// The token before the `i`-th one; before the first stands the start mark, the empty
/// token.
pub open spec fn context_at(tokens: Seq<Seq<char>>, i: int) -> Seq<char> {
    if i == 0 {
        Seq::empty()
    } else {
        tokens[i - 1]
    }
}

/// The factors of a document, one for each token: the step from the start mark to
/// the first token, then from each token to the next. The step from the last token
/// to the end mark is not among them, though training records it.
pub open spec fn factors_of(model: TransitionModel, tokens: Seq<Seq<char>>) -> Seq<Factor> {
    Seq::new(tokens.len(), |i: int| factor_of(model, context_at(tokens, i), tokens[i]))
}

/// Looks up the factors of a document under one model.
pub fn transition_factors(model: &TransitionModel, tokens: &Vec<Vec<char>>) -> (factors: Vec<
    Factor,
>)
    requires
        model.well_formed(),
    ensures
        factors@ == factors_of(*model, token_views(tokens@)),
{
    let mark: Vec<char> = Vec::new();
    let mut factors: Vec<Factor> = Vec::new();
    let ghost views = token_views(tokens@);
    let mut i: usize = 0;
    while i < tokens.len()
        invariant
            i <= tokens.len(),
            model.well_formed(),
            mark@ == Seq::<char>::empty(),
            views == token_views(tokens@),
            factors.len() == i,
            forall|k: int| 0 <= k < i ==> factors@[k] == factor_of(
                *model,
                context_at(views, k),
                views[k],
            ),
        decreases tokens.len() - i,
    {
        let found = if i == 0 {
            model.transition(&mark, &tokens[i])
        } else {
            model.transition(&tokens[i - 1], &tokens[i])
        };
        let factor = match found {
            Some((count, total)) => Factor::Observed { count, total },
            None => Factor::Unseen,
        };
        factors.push(factor);
        i = i + 1;
    }
    assert(factors@ =~= factors_of(*model, views));
    factors
}

/// What a document says for one author: the factors of its steps under the author's
/// model, and, where the time of posting is known, the author's activity at that
/// minute as a weight and the total of all weights.
pub struct Evidence {
    pub author: usize,
    pub factors: Vec<Factor>,
    pub activity: Option<(u128, u128)>,
}

/// Whether `evidence` is what `tokens`, posted at `minute`, say for the author `id`.
pub open spec fn is_evidence_for(
    evidence: Evidence,
    id: int,
    models: Seq<TransitionModel>,
    profiles: Seq<TemporalProfile>,
    tokens: Seq<Seq<char>>,
    minute: Option<usize>,
) -> bool {
    &&& evidence.author == id
    &&& evidence.factors@ == factors_of(models[id], tokens)
    &&& evidence.activity == match minute {
        Some(m) => Some((profiles[id].weights[m as int], profiles[id].total)),
        None => None,
    }
}

/// Gathers the evidence of a document for every author: one entry for each ID from 1
/// on, in the order of the IDs.
pub fn evidence(
    models: &Vec<TransitionModel>,
    profiles: &Vec<TemporalProfile>,
    tokens: &Vec<Vec<char>>,
    minute: Option<usize>,
) -> (gathered: Vec<Evidence>)
    requires
        forall|a: int| 0 <= a < models.len() ==> (#[trigger] models[a]).well_formed(),
        minute is Some ==> minute.unwrap() < MINUTES_PER_DAY && profiles.len() >= models.len()
            && forall|a: int| 0 <= a < profiles.len() ==> (#[trigger] profiles[a]).well_formed(),
    ensures
        gathered.len() + 1 == models.len() || (gathered.len() == 0 && models.len() == 0),
        forall|j: int|
            0 <= j < gathered.len() ==> is_evidence_for(
                #[trigger] gathered[j],
                j + 1,
                models@,
                profiles@,
                token_views(tokens@),
                minute,
            ),
{
    let mut gathered: Vec<Evidence> = Vec::new();
    let mut id: usize = 1;
    while id < models.len()
        invariant
            1 <= id,
            id <= models.len() || (models.len() == 0 && id == 1),
            gathered.len() + 1 == id,
            forall|a: int| 0 <= a < models.len() ==> (#[trigger] models[a]).well_formed(),
            minute is Some ==> minute.unwrap() < MINUTES_PER_DAY && profiles.len() >= models.len()
                && forall|a: int| 0 <= a < profiles.len() ==> (#[trigger] profiles[a]).well_formed(),
            forall|j: int|
                0 <= j < gathered.len() ==> is_evidence_for(
                    #[trigger] gathered[j],
                    j + 1,
                    models@,
                    profiles@,
                    token_views(tokens@),
                    minute,
                ),
        decreases models.len() - id,
    {
        let factors = transition_factors(&models[id], tokens);
        let activity = match minute {
            Some(m) => {
                assert(profiles[id as int].well_formed());
                Some((profiles[id].weights[m], profiles[id].total))
            },
            None => None,
        };
        gathered.push(Evidence { author: id, factors, activity });
        id = id + 1;
    }
    gathered
}

/// Whether `order` ranks the places of `keys`: it holds every place once, a place
/// with a higher key stands before one with a lower key, and of two places with the
/// same key the earlier stands first.
pub open spec fn ranks(order: Seq<usize>, keys: Seq<u64>) -> bool {
    &&& order.len() == keys.len()
    &&& forall|i: int| 0 <= i < order.len() ==> #[trigger] order[i] < keys.len()
    &&& forall|i: int, j: int|
        0 <= i < j < order.len() ==> keys[#[trigger] order[i] as int] > keys[#[trigger] order[j] as int]
            || (keys[order[i] as int] == keys[order[j] as int] && order[i] < order[j])
}

/// Ranks the places of `keys` from the highest key to the lowest. Places with the
/// same key keep their order.
pub fn rank(keys: &Vec<u64>) -> (order: Vec<usize>)
    ensures
        ranks(order@, keys@),
{
    let mut order: Vec<usize> = Vec::new();
    let mut n: usize = 0;
    while n < keys.len()
        invariant
            n <= keys.len(),
            order.len() == n,
            forall|i: int| 0 <= i < order.len() ==> #[trigger] order[i] < n,
            forall|i: int, j: int|
                0 <= i < j < order.len() ==> keys[#[trigger] order[i] as int] > keys[
                #[trigger] order[j] as int] || (keys[order[i] as int] == keys[order[j] as int]
                    && order[i] < order[j]),
        decreases keys.len() - n,
    {
        let key = keys[n];
        let mut p: usize = 0;
        while p < order.len() && keys[order[p]] >= key
            invariant
                p <= order.len(),
                order.len() == n,
                n < keys.len(),
                key == keys[n as int],
                forall|i: int| 0 <= i < order.len() ==> #[trigger] order[i] < n,
                forall|i: int| 0 <= i < p ==> keys[#[trigger] order[i] as int] >= key,
            decreases order.len() - p,
        {
            p = p + 1;
        }
        let ghost before = order@;
        order.insert(p, n);
        proof {
            let after = order@;
            assert forall|i: int, j: int| 0 <= i < j < after.len() implies keys[
            #[trigger] after[i] as int] > keys[#[trigger] after[j] as int] || (keys[after[i] as int]
                == keys[after[j] as int] && after[i] < after[j]) by {
                if j < p {
                    assert(after[i] == before[i] && after[j] == before[j]);
                } else if j == p {
                    assert(after[i] == before[i]);
                    assert(before[i] < n);
                } else if i < p {
                    assert(after[i] == before[i] && after[j] == before[j - 1]);
                } else if i == p {
                    assert(after[j] == before[j - 1]);
                    assert(keys[before[p as int] as int] < key);
                    if j - 1 > p {
                        assert(keys[before[p as int] as int] >= keys[before[j - 1] as int]);
                    }
                } else {
                    assert(after[i] == before[i - 1] && after[j] == before[j - 1]);
                }
            }
            assert forall|i: int| 0 <= i < after.len() implies #[trigger] after[i] < n + 1 by {
                if i < p {
                    assert(after[i] == before[i]);
                } else if i > p {
                    assert(after[i] == before[i - 1]);
                }
            }
        }
        n = n + 1;
    }
    order
}

/// How many of the first `n` documents were attributed to their author.
pub open spec fn hits(truth: Seq<usize>, guesses: Seq<Option<usize>>, n: int) -> nat
    decreases n,
{
    if n <= 0 {
        0
    } else {
        hits(truth, guesses, n - 1) + if guesses[n - 1] == Some(truth[n - 1]) {
            1nat
        } else {
            0nat
        }
    }
}

/// The outcome of an evaluation: how many documents were attributed to their author,
/// out of how many. The accuracy is `hits` over `total`, and 0 where no document was
/// evaluated.
pub struct Tally {
    pub hits: usize,
    pub total: usize,
}

/// The authors of the documents, in order.
pub open spec fn authors_of(documents: Seq<Document>) -> Seq<usize> {
    Seq::new(documents.len(), |i: int| documents[i].author)
}

/// Compares the author of each evaluated document with the top-ranked author that
/// scoring gave for it, and counts the matches. Where scoring ranked no author, the
/// guess is `None` and matches nobody.
pub fn evaluate(documents: &Vec<Document>, guesses: &Vec<Option<usize>>) -> (tally: Tally)
    requires
        documents.len() == guesses.len(),
    ensures
        tally.total == documents.len(),
        tally.hits == hits(authors_of(documents@), guesses@, documents.len() as int),
        tally.hits <= tally.total,
{
    let mut found: usize = 0;
    let mut i: usize = 0;
    while i < documents.len()
        invariant
            i <= documents.len(),
            documents.len() == guesses.len(),
            found <= i,
            found == hits(authors_of(documents@), guesses@, i as int),
        decreases documents.len() - i,
    {
        let matched = match guesses[i] {
            Some(guess) => guess == documents[i].author,
            None => false,
        };
        if matched {
            found = found + 1;
        }
        i = i + 1;
    }
    Tally { hits: found, total: documents.len() }
}

/// `base` multiplied by itself `exponent` times.
pub open spec fn power(base: nat, exponent: nat) -> nat
    decreases exponent,
{
    if exponent == 0 {
        1
    } else {
        base * power(base, (exponent - 1) as nat)
    }
}

/// Of two activities, the higher keeps the lead under every whole exponent from 1
/// on, and the lead does not shrink as the exponent grows; it grows where the lower
/// activity is not 0. The activities are stated over a common total: `high` and
/// `low` stand for the products of each weight with the other profile's total, and
/// the lead for the ratio of the two powers, which is compared by its cross
/// products. Nothing is said here of exponents that are not whole.
pub proof fn lemma_activity_lead_grows(high: nat, low: nat, exponent: nat)
    requires
        high > low,
        exponent >= 1,
    ensures
        power(high, exponent) > power(low, exponent),
        power(high, exponent + 1) * power(low, exponent) >= power(high, exponent) * power(
            low,
            exponent + 1,
        ),
        low > 0 ==> power(high, exponent + 1) * power(low, exponent) > power(high, exponent)
            * power(low, exponent + 1),
    decreases exponent,
{
    let h = power(high, exponent);
    let l = power(low, exponent);
    if exponent == 1 {
        assert(power(high, 0) == 1 && power(low, 0) == 1);
        assert(h == high && l == low) by (nonlinear_arith)
            requires
                h == high * 1,
                l == low * 1,
        ;
    } else {
        lemma_activity_lead_grows(high, low, (exponent - 1) as nat);
        let hp = power(high, (exponent - 1) as nat);
        let lp = power(low, (exponent - 1) as nat);
        assert(high * hp > low * lp) by (nonlinear_arith)
            requires
                high > low,
                hp > lp,
        ;
    }
    assert(power(high, exponent + 1) == high * h);
    assert(power(low, exponent + 1) == low * l);
    assert((high * h) * l >= h * (low * l)) by (nonlinear_arith)
        requires
            high > low,
            h > l,
    ;
    if low > 0 {
        assert(l > 0) by {
            lemma_power_positive(low, exponent);
        }
        assert((high * h) * l > h * (low * l)) by (nonlinear_arith)
            requires
                high > low,
                h > l,
                l > 0,
        ;
    }
}

proof fn lemma_power_positive(base: nat, exponent: nat)
    requires
        base > 0,
    ensures
        power(base, exponent) > 0,
    decreases exponent,
{
    if exponent > 0 {
        lemma_power_positive(base, (exponent - 1) as nat);
        let p = power(base, (exponent - 1) as nat);
        assert(base * p > 0) by (nonlinear_arith)
            requires
                base > 0,
                p > 0,
        ;
    }
}

} // verus!
