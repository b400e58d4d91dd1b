use vstd::prelude::*;
use crate::clock::MINUTES_PER_DAY;
use crate::extract::{
    counts, extraction, find_entry, lemma_entry_found, lemma_scan_is_run_of_posts, posted_run,
    posted, posts_of, string_views, Extraction, Post, Settings,
};
use crate::markup::EventView;
use crate::roster::{blank_histogram, empty_roster, is_activity, Roster};

verus! {

/// The minute of the day that lies `i` minutes after midnight, around the clock.
pub open spec fn wrap(i: int) -> int {
    i % (MINUTES_PER_DAY as int)
}

/// The sum of the counts at the `2 * reach + 1` minutes around `center`, around the
/// clock: minute 1439 lies next to minute 0.
pub open spec fn window_sum(raw: Seq<nat>, center: int, reach: nat) -> nat
    decreases reach,
{
    if reach == 0 {
        raw[wrap(center)]
    } else {
        window_sum(raw, center, (reach - 1) as nat) + raw[wrap(center - reach)] + raw[wrap(
            center + reach,
        )]
    }
}

/// The histogram in which every minute holds the sum of its window.
pub open spec fn smoothed(raw: Seq<nat>, half_window: nat) -> Seq<nat> {
    Seq::new(MINUTES_PER_DAY as nat, |i: int| window_sum(raw, i, half_window))
}

/// The histogram turned by `k` minutes: what stood at minute `i + k` stands at `i`.
pub open spec fn rotated(s: Seq<nat>, k: int) -> Seq<nat> {
    Seq::new(s.len(), |i: int| s[wrap(i + k)])
}

/// The sum of a histogram's values.
pub open spec fn sum(s: Seq<nat>) -> nat
    decreases s.len(),
{
    if s.len() == 0 {
        0
    } else {
        sum(s.drop_last()) + s.last()
    }
}

/// The values of the weights as natural numbers.
pub open spec fn weight_values(weights: Seq<u128>) -> Seq<nat> {
    Seq::new(weights.len(), |i: int| weights[i] as nat)
}

/// The activity of one author over the day. The density at a minute is its weight
/// over the total, so the densities of a profile with a positive total sum to 1.
pub struct TemporalProfile {
    pub weights: Vec<u128>,
    pub total: u128,
}

impl TemporalProfile {
    /// One weight for each minute of the day, and the total is their sum.
    pub open spec fn well_formed(&self) -> bool {
        &&& self.weights.len() == MINUTES_PER_DAY
        &&& self.total == sum(weight_values(self.weights@))
    }
}

proof fn lemma_window_bounds(raw: Seq<nat>, center: int, reach: nat, limit: nat)
    requires
        raw.len() == MINUTES_PER_DAY,
        forall|m: int| 0 <= m < raw.len() ==> raw[m] <= limit,
    ensures
        raw[wrap(center)] <= window_sum(raw, center, reach) <= (2 * reach + 1) * limit,
    decreases reach,
{
    if reach > 0 {
        lemma_window_bounds(raw, center, (reach - 1) as nat, limit);
        assert((2 * reach + 1) * limit == (2 * (reach - 1) + 1) * limit + limit + limit)
            by (nonlinear_arith);
    } else {
        assert((2 * reach + 1) * limit == limit) by (nonlinear_arith)
            requires
                reach == 0,
        ;
    }
}

proof fn lemma_sum_bounds(s: Seq<nat>, limit: nat, m: int)
    requires
        forall|i: int| 0 <= i < s.len() ==> s[i] <= limit,
        0 <= m < s.len(),
    ensures
        s[m] <= sum(s) <= s.len() * limit,
    decreases s.len(),
{
    let shorter = s.drop_last();
    assert forall|i: int| 0 <= i < shorter.len() implies shorter[i] <= limit by {
        assert(shorter[i] == s[i]);
    }
    if shorter.len() == 0 {
        assert(sum(shorter) == 0);
        assert(m == 0);
        assert(s.last() == s[0]);
    } else if m < s.len() - 1 {
        lemma_sum_bounds(shorter, limit, m);
        assert(shorter[m] == s[m]);
    } else {
        lemma_sum_bounds(shorter, limit, 0);
    }
    assert(s.len() * limit == shorter.len() * limit + limit) by (nonlinear_arith)
        requires
            s.len() == shorter.len() + 1,
    ;
}

/// To go `k` minutes on from a minute of the day is to go `k` minutes on from any
/// time that falls on that minute.
proof fn lemma_wrap_shift(a: int, k: int)
    ensures
        wrap(wrap(a) + k) == wrap(a + k),
{
    vstd::arithmetic::div_mod::lemma_add_mod_noop(a, k, MINUTES_PER_DAY as int);
    vstd::arithmetic::div_mod::lemma_add_mod_noop(wrap(a), k, MINUTES_PER_DAY as int);
    vstd::arithmetic::div_mod::lemma_mod_twice(a, MINUTES_PER_DAY as int);
}

/// The window of a turned histogram is the window of the histogram, `k` minutes on.
proof fn lemma_window_rotated(raw: Seq<nat>, k: int, center: int, reach: nat)
    requires
        raw.len() == MINUTES_PER_DAY,
    ensures
        window_sum(rotated(raw, k), center, reach) == window_sum(raw, center + k, reach),
    decreases reach,
{
    let turned = rotated(raw, k);
    lemma_wrap_shift(center, k);
    assert(0 <= wrap(center) < MINUTES_PER_DAY);
    assert(turned[wrap(center)] == raw[wrap(wrap(center) + k)]);
    if reach > 0 {
        lemma_window_rotated(raw, k, center, (reach - 1) as nat);
        lemma_wrap_shift(center - reach, k);
        lemma_wrap_shift(center + reach, k);
        assert(0 <= wrap(center - reach) < MINUTES_PER_DAY);
        assert(0 <= wrap(center + reach) < MINUTES_PER_DAY);
        assert(turned[wrap(center - reach)] == raw[wrap(wrap(center - reach) + k)]);
        assert(turned[wrap(center + reach)] == raw[wrap(wrap(center + reach) + k)]);
        assert(center - reach + k == center + k - reach);
        assert(center + reach + k == center + k + reach);
    }
}

/// A window does not change when its centre goes once more around the clock.
proof fn lemma_window_wraps(raw: Seq<nat>, center: int, reach: nat)
    ensures
        window_sum(raw, wrap(center), reach) == window_sum(raw, center, reach),
    decreases reach,
{
    lemma_wrap_shift(center, 0);
    if reach > 0 {
        lemma_window_wraps(raw, center, (reach - 1) as nat);
        lemma_wrap_shift(center, -(reach as int));
        lemma_wrap_shift(center, reach as int);
        assert(wrap(center) + (-(reach as int)) == wrap(center) - reach);
        assert(center + (-(reach as int)) == center - reach);
    }
}

/// Smoothing goes around the clock: to turn the histogram by `k` minutes and smooth
/// it gives what smoothing it and turning the result by `k` minutes gives.
pub proof fn lemma_smoothing_turns(raw: Seq<nat>, half_window: nat, k: int)
    requires
        raw.len() == MINUTES_PER_DAY,
    ensures
        smoothed(rotated(raw, k), half_window) == rotated(smoothed(raw, half_window), k),
{
    let left = smoothed(rotated(raw, k), half_window);
    let right = rotated(smoothed(raw, half_window), k);
    assert forall|i: int| 0 <= i < MINUTES_PER_DAY implies left[i] == right[i] by {
        lemma_window_rotated(raw, k, i, half_window);
        lemma_window_wraps(raw, i + k, half_window);
    }
    assert(left =~= right);
}

/// Smooths a raw histogram over a window of `2 * half_window + 1` minutes around the
/// clock, and sums the result.
pub fn smooth(raw: &Vec<u64>, half_window: usize) -> (profile: TemporalProfile)
    requires
        raw.len() == MINUTES_PER_DAY,
        half_window < MINUTES_PER_DAY / 2,
    ensures
        profile.well_formed(),
        weight_values(profile.weights@) == smoothed(counts(raw@), half_window as nat),
        (exists|m: int| 0 <= m < raw.len() && raw[m] > 0) ==> profile.total > 0,
{
    let ghost values = counts(raw@);
    let ghost limit: nat = u64::MAX as nat;
    let ghost cap: nat = ((2 * half_window + 1) * limit) as nat;
    proof {
        assert(cap <= 1439 * limit) by (nonlinear_arith)
            requires
                cap == (2 * half_window + 1) * limit,
                half_window < 720,
        ;
    }
    let mut weights: Vec<u128> = Vec::new();
    let mut total: u128 = 0;
    let mut i: usize = 0;
    while i < MINUTES_PER_DAY
        invariant
            i <= MINUTES_PER_DAY,
            raw.len() == MINUTES_PER_DAY,
            half_window < MINUTES_PER_DAY / 2,
            values == counts(raw@),
            limit == u64::MAX,
            cap == (2 * half_window + 1) * limit,
            cap <= 1439 * limit,
            weights.len() == i,
            forall|m: int| 0 <= m < i ==> weights@[m] == window_sum(values, m, half_window as nat),
            total == sum(weight_values(weights@)),
            total <= i * cap,
        decreases MINUTES_PER_DAY - i,
    {
        let mut weight: u128 = raw[i] as u128;
        let mut d: usize = 0;
        proof {
            assert(wrap(i as int) == i);
            assert forall|m: int| 0 <= m < values.len() implies values[m] <= limit by {}
        }
        while d < half_window
            invariant
                d <= half_window,
                i < MINUTES_PER_DAY,
                raw.len() == MINUTES_PER_DAY,
                half_window < MINUTES_PER_DAY / 2,
                values == counts(raw@),
                limit == u64::MAX,
                weight == window_sum(values, i as int, d as nat),
                weight <= (2 * d + 1) * limit,
            decreases half_window - d,
        {
            d = d + 1;
            let before = raw[(i + MINUTES_PER_DAY - d) % MINUTES_PER_DAY];
            let after = raw[(i + d) % MINUTES_PER_DAY];
            proof {
                assert(wrap(i - d) == (i + MINUTES_PER_DAY - d) % (MINUTES_PER_DAY as int));
                assert(wrap(i + d) == (i + d) % (MINUTES_PER_DAY as int));
                assert((2 * d + 1) * limit == (2 * (d - 1) + 1) * limit + limit + limit)
                    by (nonlinear_arith);
                assert((2 * (d - 1) + 1) * limit <= 1439 * limit) by (nonlinear_arith)
                    requires
                        0 < d < 720,
                ;
            }
            weight = weight + before as u128 + after as u128;
        }
        proof {
            lemma_window_bounds(values, i as int, half_window as nat, limit);
            assert((i + 1) * cap == i * cap + cap) by (nonlinear_arith);
            assert((i + 1) * cap <= 1440 * (1439 * limit)) by (nonlinear_arith)
                requires
                    i < 1440,
                    cap <= 1439 * limit,
            ;
        }
        let ghost known = weight_values(weights@);
        weights.push(weight);
        proof {
            assert(weight_values(weights@).drop_last() =~= known);
        }
        total = total + weight;
        i = i + 1;
    }
    let profile = TemporalProfile { weights, total };
    proof {
        assert(weight_values(profile.weights@) =~= smoothed(values, half_window as nat));
        if exists|m: int| 0 <= m < raw.len() && raw[m] > 0 {
            let m = choose|m: int| 0 <= m < raw.len() && raw[m] > 0;
            let smooth_values = smoothed(values, half_window as nat);
            assert forall|j: int| 0 <= j < values.len() implies values[j] <= limit by {}
            assert forall|j: int| 0 <= j < smooth_values.len() implies smooth_values[j]
                <= cap by {
                lemma_window_bounds(values, j, half_window as nat, limit);
            }
            lemma_window_bounds(values, m, half_window as nat, limit);
            assert(wrap(m) == m);
            lemma_sum_bounds(smooth_values, cap, m);
        }
    }
    profile
}

/// The raw histogram of `name`; a histogram without a message where the roster has
/// none for the name.
pub open spec fn activity_of(r: Roster, name: Seq<char>) -> Seq<nat> {
    if r.histograms.dom().contains(name) {
        r.histograms[name]
    } else {
        blank_histogram()
    }
}

/// Smooths the activity of every author of an extraction: one profile for each ID,
/// in the order of the IDs. The profile at index 0 belongs to the placeholder. The
/// profile of an author with at least one message has a positive total, so its
/// densities sum to 1.
pub fn profiles(found: &Extraction, half_window: usize) -> (smooth_profiles: Vec<TemporalProfile>)
    requires
        found.well_formed(),
        half_window < MINUTES_PER_DAY / 2,
    ensures
        smooth_profiles.len() == found.authors.len(),
        forall|id: int|
            0 <= id < smooth_profiles.len() ==> (#[trigger] smooth_profiles[id]).well_formed()
                && weight_values(smooth_profiles[id].weights@) == smoothed(
                activity_of(found@, found@.names[id]),
                half_window as nat,
            ),
        forall|id: int|
            0 <= id < smooth_profiles.len() && is_activity(activity_of(found@, found@.names[id]))
                ==> (#[trigger] smooth_profiles[id]).total > 0,
{
    let mut smooth_profiles: Vec<TemporalProfile> = Vec::new();
    let blank: Vec<u64> = vec![0u64; MINUTES_PER_DAY];
    assert(counts(blank@) =~= blank_histogram());
    let mut id: usize = 0;
    while id < found.authors.len()
        invariant
            id <= found.authors.len(),
            found.well_formed(),
            half_window < MINUTES_PER_DAY / 2,
            blank.len() == MINUTES_PER_DAY,
            counts(blank@) == blank_histogram(),
            smooth_profiles.len() == id,
            forall|k: int|
                0 <= k < id ==> (#[trigger] smooth_profiles[k]).well_formed() && weight_values(
                    smooth_profiles[k].weights@,
                ) == smoothed(activity_of(found@, found@.names[k]), half_window as nat),
            forall|k: int|
                0 <= k < id && is_activity(activity_of(found@, found@.names[k])) ==> (
                #[trigger] smooth_profiles[k]).total > 0,
        decreases found.authors.len() - id,
    {
        assert(found@.names[id as int] == found.authors[id as int]@);
        let profile = match find_entry(&found.entries, &found.authors[id]) {
            Some(at) => {
                proof {
                    lemma_entry_found(found.entries@, at as int);
                    let raw = found.entries[at as int].histogram@;
                    if is_activity(counts(raw)) {
                        let m = choose|m: int| 0 <= m < counts(raw).len() && counts(raw)[m] > 0;
                        assert(0 <= m < raw.len() && raw[m] > 0);
                    }
                }
                smooth(&found.entries[at].histogram, half_window)
            },
            None => {
                proof {
                    assert(!is_activity(blank_histogram()));
                }
                smooth(&blank, half_window)
            },
        };
        smooth_profiles.push(profile);
        id = id + 1;
    }
    smooth_profiles
}

proof fn lemma_sum_joined(front: Seq<nat>, back: Seq<nat>)
    ensures
        sum(front + back) == sum(front) + sum(back),
    decreases back.len(),
{
    if back.len() == 0 {
        assert(front + back =~= front);
    } else {
        assert((front + back).drop_last() =~= front + back.drop_last());
        assert((front + back).last() == back.last());
        lemma_sum_joined(front, back.drop_last());
    }
}

/// Turning a histogram keeps its sum.
pub proof fn lemma_turning_keeps_sum(s: Seq<nat>, k: int)
    requires
        s.len() == MINUTES_PER_DAY,
    ensures
        sum(rotated(s, k)) == sum(s),
{
    let j = wrap(k);
    let turned = rotated(s, k);
    assert forall|i: int| 0 <= i < MINUTES_PER_DAY implies turned[i] == (s.skip(j) + s.take(j))[i] by {
        vstd::arithmetic::div_mod::lemma_add_mod_noop_right(i, k, MINUTES_PER_DAY as int);
        assert(wrap(i + k) == (i + j) % (MINUTES_PER_DAY as int));
    }
    assert(turned =~= s.skip(j) + s.take(j));
    assert(s.take(j) + s.skip(j) =~= s);
    lemma_sum_joined(s.skip(j), s.take(j));
    lemma_sum_joined(s.take(j), s.skip(j));
}

/// The posts with every post of `name` moved on by `k` minutes around the clock.
pub open spec fn shifted(posts: Seq<Post>, name: Seq<char>, k: int) -> Seq<Post> {
    Seq::new(
        posts.len(),
        |i: int|
            if posts[i].author == name {
                Post { minute: wrap(posts[i].minute + k) as nat, ..posts[i] }
            } else {
                posts[i]
            },
    )
}

proof fn lemma_wrap_back(m: int, j: int, k: int)
    requires
        0 <= m < MINUTES_PER_DAY,
        0 <= j < MINUTES_PER_DAY,
    ensures
        (wrap(j - k) == m) == (j == wrap(m + k)),
{
    lemma_wrap_shift(m + k, -k);
    lemma_wrap_shift(j - k, k);
    assert(m + k + (-k) == m);
    assert(j - k + k == j);
    assert(wrap(m) == m);
    assert(wrap(j) == j);
    assert(wrap(m + k) + (-k) == wrap(m + k) - k);
}

/// A histogram with one more message at `minute`.
pub open spec fn bumped(histogram: Seq<nat>, minute: int) -> Seq<nat> {
    histogram.update(minute, histogram[minute] + 1)
}

proof fn lemma_turned_bump(a: Seq<nat>, m: int, k: int)
    requires
        a.len() == MINUTES_PER_DAY,
        0 <= m < MINUTES_PER_DAY,
    ensures
        bumped(rotated(a, -k), wrap(m + k)) == rotated(bumped(a, m), -k),
{
    let b = rotated(a, -k);
    let to = wrap(m + k);
    assert forall|j: int| 0 <= j < MINUTES_PER_DAY implies bumped(b, to)[j] == rotated(
        bumped(a, m),
        -k,
    )[j] by {
        lemma_wrap_back(m, j, k);
        assert(j + (-k) == j - k);
        assert(b[j] == a[wrap(j - k)]);
        assert(0 <= wrap(j - k) < MINUTES_PER_DAY);
    }
    assert(bumped(b, to) =~= rotated(bumped(a, m), -k));
}

proof fn lemma_posted_activity(r: Roster, post: Post, name: Seq<char>, settings: Settings)
    ensures
        activity_of(posted(r, post.author, post.minute, post.raw, settings), name) == if post.author
            == name {
            bumped(activity_of(r, name), post.minute as int)
        } else {
            activity_of(r, name)
        },
{
}

/// Moving the posts of an author on by `k` minutes turns the author's histogram by as
/// much: what was counted at minute `m` is counted at minute `m + k`, around the clock.
pub proof fn lemma_shifted_posts_turn_activity(
    posts: Seq<Post>,
    name: Seq<char>,
    k: int,
    settings: Settings,
)
    requires
        forall|i: int| 0 <= i < posts.len() ==> (#[trigger] posts[i]).minute < MINUTES_PER_DAY,
    ensures
        activity_of(posted_run(empty_roster(), shifted(posts, name, k), settings), name) == rotated(
            activity_of(posted_run(empty_roster(), posts, settings), name),
            -k,
        ),
        activity_of(posted_run(empty_roster(), posts, settings), name).len() == MINUTES_PER_DAY,
    decreases posts.len(),
{
    let moved = shifted(posts, name, k);
    if posts.len() == 0 {
        assert(rotated(blank_histogram(), -k) =~= blank_histogram());
    } else {
        let shorter = posts.drop_last();
        assert forall|i: int| 0 <= i < shorter.len() implies (#[trigger] shorter[i]).minute
            < MINUTES_PER_DAY by {
            assert(shorter[i] == posts[i]);
        }
        lemma_shifted_posts_turn_activity(shorter, name, k, settings);
        assert(moved.drop_last() =~= shifted(shorter, name, k));
        let last = posts.last();
        assert(last == posts[posts.len() - 1]);
        let before = posted_run(empty_roster(), shorter, settings);
        let before_moved = posted_run(empty_roster(), shifted(shorter, name, k), settings);
        lemma_posted_activity(before, last, name, settings);
        lemma_posted_activity(before_moved, moved.last(), name, settings);
        if last.author == name {
            assert(moved.last().author == name);
            assert(moved.last().minute == wrap(last.minute + k));
            lemma_turned_bump(activity_of(before, name), last.minute as int, k);
        } else {
            assert(moved.last() == last);
        }
    }
}

/// Circularity, as it shows in the result of a scan. Where a second scan reads the
/// posts of the first with those of one author moved on by `k` minutes, the author's
/// smoothed weights are those of the first scan turned by as much, and their sum is
/// the same: the density at minute `m + k` is the density that was at minute `m`,
/// minute 1439 lying next to minute 0.
pub proof fn lemma_shifted_scan_turns_profile(
    first: Seq<EventView>,
    second: Seq<EventView>,
    name: Seq<char>,
    k: int,
    half_window: nat,
    settings: Settings,
)
    requires
        posts_of(second, settings) == shifted(posts_of(first, settings), name, k),
    ensures
        smoothed(activity_of(extraction(second, settings), name), half_window) == rotated(
            smoothed(activity_of(extraction(first, settings), name), half_window),
            -k,
        ),
        sum(smoothed(activity_of(extraction(second, settings), name), half_window)) == sum(
            smoothed(activity_of(extraction(first, settings), name), half_window),
        ),
{
    lemma_scan_is_run_of_posts(first, settings);
    lemma_scan_is_run_of_posts(second, settings);
    lemma_shifted_posts_turn_activity(posts_of(first, settings), name, k, settings);
    let raw = activity_of(extraction(first, settings), name);
    lemma_smoothing_turns(raw, half_window, -k);
    lemma_turning_keeps_sum(smoothed(raw, half_window), -k);
}

} // verus!
