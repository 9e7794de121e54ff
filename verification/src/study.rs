//! Spaced-repetition scheduling.
//!
//! Review quality is rated 0 to 5; the update rule follows the SM-2 family:
//! the ease factor moves with the rating but never falls below its floor,
//! a failed review resets the interval to one day and the review count to
//! zero, and successful reviews grow the interval (one day, six days, then
//! multiplicatively by the ease factor).
//!
//! Fractions are held in hundredths: `ease_centi` is the ease factor times
//! 100 (2.5 is 250), `interval_centi` is the review interval in hundredths
//! of a day (one day is 100).  Times are epoch seconds; a day is 86400
//! seconds, so an interval of `n` hundredths of a day is `n * 864` seconds.

use vstd::prelude::*;

verus! {

/// The ease factor never falls below 1.30.
pub const EASE_FLOOR_CENTI: u64 = 130;

/// A fresh item starts at ease 2.50.
pub const EASE_INIT_CENTI: u64 = 250;

/// Saturation bound the integer model needs for the ease factor.  Each
/// successful review raises the ease by at most 0.10, so reaching this
/// bound (ten million) would take a hundred million consecutive perfect
/// reviews; no achievable review history gets near it.
pub const EASE_MAX_CENTI: u64 = 1000000000;

/// Saturation bound for the interval: a thousand years, in hundredths of a
/// day.
pub const INTERVAL_MAX_CENTI: u64 = 36500000;

/// Seconds in one hundredth of a day.
pub const CENTI_DAY_SECS: u64 = 864;

/// The kind of a study item; the tags are the values persisted by the
/// store.
#[derive(Debug, Clone, Copy, PartialEq, Eq, Structural)]
pub enum StudyItemKind {
    Flashcard,
    QuizMultipleChoice,
    QuizFillBlank,
    QuizShortAnswer,
}

/// The persisted tag of an item kind.
pub open spec fn spec_kind_tag(k: StudyItemKind) -> Seq<char> {
    match k {
        StudyItemKind::Flashcard => "flashcard"@,
        StudyItemKind::QuizMultipleChoice => "quiz_mc"@,
        StudyItemKind::QuizFillBlank => "quiz_fill"@,
        StudyItemKind::QuizShortAnswer => "quiz_short"@,
    }
}

pub fn kind_tag(k: StudyItemKind) -> (r: &'static str)
    ensures
        r@ == spec_kind_tag(k),
{
    match k {
        StudyItemKind::Flashcard => "flashcard",
        StudyItemKind::QuizMultipleChoice => "quiz_mc",
        StudyItemKind::QuizFillBlank => "quiz_fill",
        StudyItemKind::QuizShortAnswer => "quiz_short",
    }
}

/// A question/answer pair under spaced repetition.
#[derive(Debug, Clone)]
pub struct StudyItem {
    pub id: i64,
    pub document_id: Option<i64>,
    pub item_type: StudyItemKind,
    pub front: String,
    pub back: String,
    /// Epoch seconds at which the item is next due.
    pub next_review_at: i64,
    /// Current interval, in hundredths of a day.
    pub interval_centi: u64,
    /// Ease factor, in hundredths.
    pub ease_centi: u64,
    pub review_count: u64,
}

/// A well-formed item keeps its ease between the floor and the saturation
/// bound and its interval under the saturation bound.
pub open spec fn spec_item_wf(it: StudyItem) -> bool {
    &&& EASE_FLOOR_CENTI <= it.ease_centi <= EASE_MAX_CENTI
    &&& 100 <= it.interval_centi <= INTERVAL_MAX_CENTI
}

/// The updated ease factor, in hundredths: the rating is capped at 5, the
/// penalty grows quadratically as the rating falls, and the result is
/// clamped between the floor and the saturation bound.
pub open spec fn spec_new_ease(ease: int, quality: int) -> int {
    let q = if quality > 5 { 5int } else { quality };
    let pen = (5 - q) * (8 + 2 * (5 - q));
    let e = ease + 10 - pen;
    let e2 = if e < EASE_FLOOR_CENTI { EASE_FLOOR_CENTI as int } else { e };
    if e2 > EASE_MAX_CENTI { EASE_MAX_CENTI as int } else { e2 }
}

/// The updated interval, in hundredths of a day: one day after a failure
/// or a first success, six days after a second success, and the previous
/// interval scaled by the new ease thereafter, saturating at the bound.
pub open spec fn spec_new_interval(interval: int, new_ease: int, count: int, quality: int) -> int {
    if quality < 3 {
        100
    } else if count == 0 {
        100
    } else if count == 1 {
        600
    } else {
        let ni = interval * new_ease / 100;
        if ni > INTERVAL_MAX_CENTI { INTERVAL_MAX_CENTI as int } else { ni }
    }
}

/// The updated review count: reset on failure, otherwise one more
/// (saturating at the counter's limit).
pub open spec fn spec_new_count(count: int, quality: int) -> int {
    if quality < 3 {
        0
    } else if count >= u64::MAX {
        u64::MAX as int
    } else {
        count + 1
    }
}

/// Whether an item is due at the given time.
pub open spec fn spec_is_due(it: StudyItem, now: int) -> bool {
    it.next_review_at <= now
}

pub fn is_due(it: &StudyItem, now_secs: i64) -> (r: bool)
    ensures
        r == spec_is_due(*it, now_secs as int),
{
    it.next_review_at <= now_secs
}

/// Apply one review with the given recall quality (0 to 5; ratings above 5
/// count as 5) at time `now_secs`, returning the updated item.
///
/// A failed review (quality below 3) resets the interval to one day and
/// the review count to zero; a successful review advances the interval and
/// the count; the ease factor is updated either way and never falls below
/// its floor.  The item becomes due again after the new interval.
pub fn update_after_review(item: &StudyItem, quality: u8, now_secs: i64) -> (r: StudyItem)
    requires
        spec_item_wf(*item),
        now_secs <= i64::MAX - 31536000000int,
    ensures
        spec_item_wf(r),
        r.ease_centi as int == spec_new_ease(item.ease_centi as int, quality as int),
        r.interval_centi as int == spec_new_interval(
            item.interval_centi as int,
            r.ease_centi as int,
            item.review_count as int,
            quality as int,
        ),
        r.review_count as int == spec_new_count(item.review_count as int, quality as int),
        r.next_review_at == now_secs + r.interval_centi * CENTI_DAY_SECS,
        quality >= 3 ==> r.review_count >= item.review_count,
        quality >= 3 && item.review_count < u64::MAX ==> r.review_count == item.review_count
            + 1,
        r.interval_centi >= 100,
        quality >= 3 && item.review_count >= 2 ==> r.interval_centi >= item.interval_centi,
        r.id == item.id,
        r.document_id == item.document_id,
        r.item_type == item.item_type,
        r.front@ == item.front@,
        r.back@ == item.back@,
{
    let q: u64 = if quality > 5 { 5 } else { quality as u64 };
    let d: u64 = 5 - q;
    proof {
        assert(d * (8 + 2 * d) <= 90) by (nonlinear_arith)
            requires
                0 <= d <= 5,
        ;
    }
    let pen: u64 = d * (8 + 2 * d);
    // ease_centi >= 130, so ease_centi + 10 cannot be overtaken by the
    // penalty, which is at most 90
    let e: u64 = item.ease_centi + 10 - pen;
    let e2: u64 = if e < EASE_FLOOR_CENTI { EASE_FLOOR_CENTI } else { e };
    let new_ease: u64 = if e2 > EASE_MAX_CENTI { EASE_MAX_CENTI } else { e2 };

    let bumped: u64 = if item.review_count == u64::MAX {
        item.review_count
    } else {
        item.review_count + 1
    };
    let (new_interval, new_count): (u64, u64) = if quality < 3 {
        (100, 0)
    } else if item.review_count == 0 {
        (100, bumped)
    } else if item.review_count == 1 {
        (600, bumped)
    } else {
        proof {
            assert(item.interval_centi * new_ease <= 36500000 * 1000000000)
                by (nonlinear_arith)
                requires
                    item.interval_centi <= 36500000,
                    new_ease <= 1000000000,
                    item.interval_centi >= 0,
                    new_ease >= 0,
            ;
        }
        let ni: u64 = item.interval_centi * new_ease / 100;
        let ni2: u64 = if ni > INTERVAL_MAX_CENTI { INTERVAL_MAX_CENTI } else { ni };
        proof {
            assert(item.interval_centi * new_ease >= item.interval_centi * 100)
                by (nonlinear_arith)
                requires
                    new_ease >= 100,
                    item.interval_centi >= 0,
            ;
            assert(ni >= item.interval_centi);
        }
        (ni2, bumped)
    };

    let due: i64 = now_secs + (new_interval * CENTI_DAY_SECS) as i64;

    StudyItem {
        id: item.id,
        document_id: item.document_id,
        item_type: item.item_type,
        front: item.front.clone(),
        back: item.back.clone(),
        next_review_at: due,
        interval_centi: new_interval,
        ease_centi: new_ease,
        review_count: new_count,
    }
}

/// Creates a fresh, never-reviewed item, due immediately.
pub fn new_item(
    id: i64,
    document_id: Option<i64>,
    item_type: StudyItemKind,
    front: String,
    back: String,
    now_secs: i64,
) -> (r: StudyItem)
    ensures
        spec_item_wf(r),
        r.id == id,
        r.document_id == document_id,
        r.item_type == item_type,
        r.front@ == front@,
        r.back@ == back@,
        r.next_review_at == now_secs,
        r.interval_centi == 100,
        r.ease_centi == EASE_INIT_CENTI,
        r.review_count == 0,
        spec_is_due(r, now_secs as int),
{
    StudyItem {
        id,
        document_id,
        item_type,
        front,
        back,
        next_review_at: now_secs,
        interval_centi: 100,
        ease_centi: EASE_INIT_CENTI,
        review_count: 0,
    }
}

/// Stable insertion by due time: the item is placed after every item that
/// is due no later than it.
pub open spec fn spec_insert_by_due(acc: Seq<StudyItem>, x: StudyItem) -> Seq<StudyItem>
    decreases acc.len(),
{
    if acc.len() == 0 {
        seq![x]
    } else if acc[acc.len() - 1].next_review_at <= x.next_review_at {
        acc.push(x)
    } else {
        spec_insert_by_due(acc.drop_last(), x).push(acc[acc.len() - 1])
    }
}

/// Stable sort by ascending due time.
pub open spec fn spec_sort_by_due_from(s: Seq<StudyItem>, i: int, acc: Seq<StudyItem>) -> Seq<
    StudyItem,
>
    decreases s.len() - i,
    when 0 <= i
{
    if i >= s.len() {
        acc
    } else {
        spec_sort_by_due_from(s, i + 1, spec_insert_by_due(acc, s[i]))
    }
}

/// The items due at `now`, in input order.
pub open spec fn spec_filter_due(s: Seq<StudyItem>, now: int, i: int) -> Seq<StudyItem>
    decreases s.len() - i,
    when 0 <= i
{
    if i >= s.len() {
        Seq::empty()
    } else if spec_is_due(s[i], now) {
        seq![s[i]] + spec_filter_due(s, now, i + 1)
    } else {
        spec_filter_due(s, now, i + 1)
    }
}

/// The due items, oldest due date first, capped at `limit`.
pub open spec fn spec_due_items(s: Seq<StudyItem>, now: int, limit: int) -> Seq<StudyItem> {
    let due = spec_filter_due(s, now, 0);
    let sorted = spec_sort_by_due_from(due, 0, Seq::empty());
    if sorted.len() <= limit {
        sorted
    } else {
        sorted.take(limit)
    }
}

pub open spec fn spec_sorted_by_due(s: Seq<StudyItem>) -> bool {
    forall|i: int, j: int|
        0 <= i < j < s.len() ==> (#[trigger] s[i]).next_review_at <= (#[trigger] s[j]).next_review_at
}

proof fn lemma_insert_by_due_sorted(acc: Seq<StudyItem>, x: StudyItem)
    requires
        spec_sorted_by_due(acc),
    ensures
        spec_sorted_by_due(spec_insert_by_due(acc, x)),
        spec_insert_by_due(acc, x).len() == acc.len() + 1,
        forall|i: int|
            0 <= i < spec_insert_by_due(acc, x).len() ==> acc.contains(
                #[trigger] spec_insert_by_due(acc, x)[i],
            ) || spec_insert_by_due(acc, x)[i] == x,
    decreases acc.len(),
{
    let r = spec_insert_by_due(acc, x);
    if acc.len() == 0 {
        assert(r =~= seq![x]);
    } else if acc[acc.len() - 1].next_review_at <= x.next_review_at {
        assert(r =~= acc.push(x));
        assert forall|i: int| 0 <= i < r.len() implies acc.contains(#[trigger] r[i]) || r[i]
            == x by {
            if i < acc.len() {
                assert(acc[i] == r[i]);
            }
        }
    } else {
        let d = acc.drop_last();
        let last = acc[acc.len() - 1];
        assert(spec_sorted_by_due(d));
        lemma_insert_by_due_sorted(d, x);
        let inner = spec_insert_by_due(d, x);
        assert(r =~= inner.push(last));
        // everything in `inner` is from `d` or is `x`, and both are due no
        // later than `last`
        assert forall|i: int, j: int| 0 <= i < j < r.len() implies (#[trigger] r[i]).next_review_at
            <= (#[trigger] r[j]).next_review_at by {
            if j < inner.len() {
            } else {
                assert(r[j] == last);
                if r[i] == x {
                    assert(x.next_review_at < last.next_review_at);
                } else {
                    assert(d.contains(r[i]) || r[i] == x);
                    if d.contains(r[i]) {
                        let k = choose|k: int| 0 <= k < d.len() && d[k] == r[i];
                        assert(acc[k] == d[k]);
                        assert(acc[k].next_review_at <= last.next_review_at);
                    }
                }
            }
        }
        assert forall|i: int| 0 <= i < r.len() implies acc.contains(#[trigger] r[i]) || r[i]
            == x by {
            if i < inner.len() {
                assert(d.contains(r[i]) || r[i] == x);
                if d.contains(r[i]) {
                    let k = choose|k: int| 0 <= k < d.len() && d[k] == r[i];
                    assert(acc[k] == r[i]);
                }
            } else {
                assert(r[i] == last);
            }
        }
    }
}

/// Inserts `x` into the (sorted) vector, keeping ascending due order and
/// placing it after items with the same due time.
fn insert_by_due(v: &mut Vec<StudyItem>, x: StudyItem)
    requires
        spec_sorted_by_due(old(v)@),
    ensures
        final(v)@ == spec_insert_by_due(old(v)@, x),
        spec_sorted_by_due(final(v)@),
{
    proof {
        lemma_insert_by_due_sorted(old(v)@, x);
    }
    let ghost orig = v@;
    let mut pos: usize = v.len();
    while pos > 0 && v[pos - 1].next_review_at > x.next_review_at
        invariant
            pos <= v@.len(),
            v@ == orig,
            forall|i: int| pos <= i < v@.len() ==> (#[trigger] v@[i]).next_review_at
                > x.next_review_at,
        decreases pos,
    {
        pos -= 1;
    }
    v.insert(pos, x);
    proof {
        lemma_insert_by_due_position(orig, x, pos as int);
        assert(v@ =~= orig.take(pos as int) + seq![x] + orig.skip(pos as int));
    }
}

proof fn lemma_insert_by_due_position(acc: Seq<StudyItem>, x: StudyItem, pos: int)
    requires
        0 <= pos <= acc.len(),
        forall|i: int| pos <= i < acc.len() ==> (#[trigger] acc[i]).next_review_at
            > x.next_review_at,
        pos > 0 ==> acc[pos - 1].next_review_at <= x.next_review_at,
    ensures
        spec_insert_by_due(acc, x) == acc.take(pos) + seq![x] + acc.skip(pos),
    decreases acc.len(),
{
    if acc.len() == 0 {
        assert(spec_insert_by_due(acc, x) =~= acc.take(0) + seq![x] + acc.skip(0));
    } else if acc[acc.len() - 1].next_review_at <= x.next_review_at {
        assert(pos == acc.len());
        assert(acc.push(x) =~= acc.take(pos) + seq![x] + acc.skip(pos));
    } else {
        let d = acc.drop_last();
        assert(pos <= d.len());
        lemma_insert_by_due_position(d, x, pos);
        assert(d.take(pos) =~= acc.take(pos));
        assert(spec_insert_by_due(d, x).push(acc[acc.len() - 1]) =~= acc.take(pos) + seq![x]
            + acc.skip(pos));
    }
}

/// The items due for review at `now_secs`, ordered by ascending due time
/// (oldest overdue first, ties keeping input order), capped at `limit`.
pub fn due_items(items: &Vec<StudyItem>, now_secs: i64, limit: usize) -> (r: Vec<StudyItem>)
    ensures
        r@ == spec_due_items(items@, now_secs as int, limit as int),
        r@.len() <= limit,
        spec_sorted_by_due(r@),
        forall|i: int| 0 <= i < r@.len() ==> spec_is_due(#[trigger] r@[i], now_secs as int),
{
    // gather the due items in input order
    let mut due: Vec<StudyItem> = Vec::new();
    let mut i: usize = 0;
    while i < items.len()
        invariant
            i <= items@.len(),
            spec_filter_due(items@, now_secs as int, 0) == due@ + spec_filter_due(
                items@,
                now_secs as int,
                i as int,
            ),
            forall|k: int| 0 <= k < due@.len() ==> spec_is_due(#[trigger] due@[k], now_secs as int),
        decreases items@.len() - i,
    {
        let ghost pre = due@;
        if is_due(&items[i], now_secs) {
            let it = clone_item(&items[i]);
            due.push(it);
            proof {
                assert(due@ =~= pre + seq![items@[i as int]]);
                assert(pre + spec_filter_due(items@, now_secs as int, i as int) =~= due@
                    + spec_filter_due(items@, now_secs as int, i + 1));
            }
        }
        i += 1;
    }
    proof {
        assert(spec_filter_due(items@, now_secs as int, i as int) =~= Seq::<StudyItem>::empty());
        assert(due@ + Seq::<StudyItem>::empty() =~= due@);
    }

    // sort them by due time, stably
    let ghost dseq = due@;
    let mut sorted: Vec<StudyItem> = Vec::new();
    let mut j: usize = 0;
    while j < due.len()
        invariant
            j <= due@.len(),
            due@ == dseq,
            spec_sorted_by_due(sorted@),
            spec_sort_by_due_from(dseq, 0, Seq::empty()) == spec_sort_by_due_from(
                dseq,
                j as int,
                sorted@,
            ),
            forall|k: int| 0 <= k < dseq.len() ==> spec_is_due(#[trigger] dseq[k], now_secs as int),
            forall|k: int| 0 <= k < sorted@.len() ==> spec_is_due(
                #[trigger] sorted@[k],
                now_secs as int,
            ),
        decreases due@.len() - j,
    {
        proof {
            lemma_insert_by_due_sorted(sorted@, due@[j as int]);
            assert forall|k: int|
                0 <= k < spec_insert_by_due(sorted@, dseq[j as int]).len() implies spec_is_due(
                #[trigger] spec_insert_by_due(sorted@, dseq[j as int])[k],
                now_secs as int,
            ) by {
                let e = spec_insert_by_due(sorted@, dseq[j as int])[k];
                if sorted@.contains(e) {
                    let q = choose|q: int| 0 <= q < sorted@.len() && sorted@[q] == e;
                }
            }
        }
        let it = clone_item(&due[j]);
        insert_by_due(&mut sorted, it);
        j += 1;
    }

    // cap the result
    let mut r: Vec<StudyItem> = Vec::new();
    let mut k: usize = 0;
    let n = if sorted.len() < limit {
        sorted.len()
    } else {
        limit
    };
    while k < n
        invariant
            k <= n <= sorted@.len(),
            n as int == if sorted@.len() < limit { sorted@.len() as int } else { limit as int },
            r@ =~= sorted@.take(k as int),
            spec_sorted_by_due(sorted@),
            forall|q: int| 0 <= q < sorted@.len() ==> spec_is_due(
                #[trigger] sorted@[q],
                now_secs as int,
            ),
        decreases n - k,
    {
        let it = clone_item(&sorted[k]);
        r.push(it);
        k += 1;
        proof {
            assert(r@ =~= sorted@.take(k as int));
        }
    }
    proof {
        if sorted@.len() <= limit {
            assert(r@ =~= sorted@);
        }
        assert forall|q: int, q2: int| 0 <= q < q2 < r@.len() implies (#[trigger] r@[q]).next_review_at
            <= (#[trigger] r@[q2]).next_review_at by {
            assert(r@[q] == sorted@[q]);
            assert(r@[q2] == sorted@[q2]);
        }
    }
    r
}

/// A field-for-field copy of an item.
fn clone_item(it: &StudyItem) -> (r: StudyItem)
    ensures
        r == *it,
{
    let r = StudyItem {
        id: it.id,
        document_id: it.document_id,
        item_type: it.item_type,
        front: it.front.clone(),
        back: it.back.clone(),
        next_review_at: it.next_review_at,
        interval_centi: it.interval_centi,
        ease_centi: it.ease_centi,
        review_count: it.review_count,
    };
    proof {
        assert(r.front@ == it.front@);
    }
    r
}

/// Apply one review at the current time.
///
/// The clock's value is outside this crate's control: whatever time comes
/// back, the updated ease, interval and count follow the update rule; the
/// update is declined only when the clock reads within a thousand years of
/// the representable end of time.
pub fn review_now(item: &StudyItem, quality: u8) -> (r: Option<StudyItem>)
    requires
        spec_item_wf(*item),
    ensures
        match r {
            Some(u) => {
                &&& spec_item_wf(u)
                &&& u.ease_centi as int == spec_new_ease(item.ease_centi as int, quality as int)
                &&& u.interval_centi as int == spec_new_interval(
                    item.interval_centi as int,
                    u.ease_centi as int,
                    item.review_count as int,
                    quality as int,
                )
                &&& u.review_count as int == spec_new_count(
                    item.review_count as int,
                    quality as int,
                )
                &&& u.id == item.id
                &&& u.front@ == item.front@
                &&& u.back@ == item.back@
            },
            None => true,
        },
{
    let now = crate::time::now_epoch_secs();
    if now <= i64::MAX - 31536000000i64 {
        Some(update_after_review(item, quality, now))
    } else {
        None
    }
}

/// The review ladder, in one place: a failed review resets the interval
/// to one day and the count to zero; the first success gives one day, the
/// second six days, and later successes scale the interval by the new
/// ease; the ease never falls below its floor; the item is due again
/// after exactly the new interval.
pub proof fn lemma_sm2_ladder(ease: int, interval: int, count: int, quality: int)
    requires
        EASE_FLOOR_CENTI <= ease <= EASE_MAX_CENTI,
    ensures
        quality < 3 ==> spec_new_interval(interval, spec_new_ease(ease, quality), count, quality)
            == 100 && spec_new_count(count, quality) == 0,
        quality >= 3 && count == 0 ==> spec_new_interval(
            interval,
            spec_new_ease(ease, quality),
            count,
            quality,
        ) == 100,
        quality >= 3 && count == 1 ==> spec_new_interval(
            interval,
            spec_new_ease(ease, quality),
            count,
            quality,
        ) == 600,
        spec_new_ease(ease, quality) >= EASE_FLOOR_CENTI,
{
}

} // verus!
