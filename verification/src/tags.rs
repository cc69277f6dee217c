use vstd::prelude::*;

use crate::error::SimError;

verus! {

/// The least of `a` and `b`.
pub open spec fn min_u64(a: u64, b: u64) -> u64 {
    if a <= b {
        a
    } else {
        b
    }
}

/// The greatest of `a` and `b`.
pub open spec fn max_u64(a: u64, b: u64) -> u64 {
    if a >= b {
        a
    } else {
        b
    }
}

/// The least time tag in `tags`, or `u64::MAX` when there is none.
pub open spec fn seq_min(tags: Seq<u64>) -> u64
    decreases tags.len(),
{
    if tags.len() == 0 {
        u64::MAX
    } else {
        min_u64(seq_min(tags.drop_last()), tags.last())
    }
}

/// The greatest time tag in `tags`, or `0` when there is none.
pub open spec fn seq_max(tags: Seq<u64>) -> u64
    decreases tags.len(),
{
    if tags.len() == 0 {
        0
    } else {
        max_u64(seq_max(tags.drop_last()), tags.last())
    }
}

/// How many time tags were read, and the earliest and latest of them, in
/// picoseconds. With no tag read, `first` is `u64::MAX` and `last` is `0`.
#[derive(Clone, Copy, Debug, PartialEq, Eq, Structural)]
pub struct TagSpan {
    pub count: u64,
    pub first: u64,
    pub last: u64,
}

/// The span of the time tags `tags`.
pub open spec fn span_of(tags: Seq<u64>) -> TagSpan {
    TagSpan { count: tags.len() as u64, first: seq_min(tags), last: seq_max(tags) }
}

/// The span of the tags of two spans together.
pub open spec fn merge_spans(a: TagSpan, b: TagSpan) -> TagSpan {
    TagSpan {
        count: (a.count + b.count) as u64,
        first: min_u64(a.first, b.first),
        last: max_u64(a.last, b.last),
    }
}

impl TagSpan {
    /// The span of no time tag.
    pub fn empty() -> (s: TagSpan)
        ensures
            s == span_of(Seq::<u64>::empty()),
    {
        TagSpan { count: 0, first: u64::MAX, last: 0 }
    }

    /// Takes in one more batch of time tags.
    pub fn add_tags(&mut self, tags: &[u64])
        requires
            old(self).count + tags@.len() <= u64::MAX,
        ensures
            *final(self) == merge_spans(*old(self), span_of(tags@)),
    {
        let ghost start = *self;
        let mut i: usize = 0;
        while i < tags.len()
            invariant
                i <= tags.len(),
                start.count + tags@.len() <= u64::MAX,
                *self == merge_spans(start, span_of(tags@.take(i as int))),
            decreases tags.len() - i,
        {
            let t = tags[i];
            assert(tags@.take(i + 1).drop_last() =~= tags@.take(i as int));
            if t < self.first {
                self.first = t;
            }
            if t > self.last {
                self.last = t;
            }
            self.count = self.count + 1;
            i = i + 1;
        }
        assert(tags@.take(tags.len() as int) =~= tags@);
    }

    /// Takes in the tags of another span.
    pub fn merge(&mut self, other: &TagSpan)
        requires
            old(self).count + other.count <= u64::MAX,
        ensures
            *final(self) == merge_spans(*old(self), *other),
    {
        self.count = self.count + other.count;
        if other.first < self.first {
            self.first = other.first;
        }
        if other.last > self.last {
            self.last = other.last;
        }
    }

    /// Picoseconds from the earliest to the latest tag.
    pub fn span_ps(&self) -> (d: u64)
        requires
            self.first <= self.last,
        ensures
            d == self.last - self.first,
    {
        self.last - self.first
    }
}

/// The least of the tags of `a + b` is the lesser of their least tags, and
/// the same for the greatest.
pub proof fn lemma_min_max_concat(a: Seq<u64>, b: Seq<u64>)
    ensures
        seq_min(a + b) == min_u64(seq_min(a), seq_min(b)),
        seq_max(a + b) == max_u64(seq_max(a), seq_max(b)),
    decreases b.len(),
{
    if b.len() == 0 {
        assert(a + b =~= a);
    } else {
        lemma_min_max_concat(a, b.drop_last());
        assert((a + b).drop_last() =~= a + b.drop_last());
    }
}

/// Merging the spans of two runs of tags gives the span of both runs
/// together.
pub proof fn lemma_merge_spans(a: Seq<u64>, b: Seq<u64>)
    requires
        a.len() + b.len() <= u64::MAX,
    ensures
        merge_spans(span_of(a), span_of(b)) == span_of(a + b),
{
    lemma_min_max_concat(a, b);
}

/// The span of no tag leaves a span unchanged when merged in.
pub proof fn lemma_merge_empty(s: TagSpan)
    ensures
        merge_spans(s, span_of(Seq::<u64>::empty())) == s,
        merge_spans(span_of(Seq::<u64>::empty()), s) == s,
{
}

/// Merging spans is associative and commutative, so the order in which
/// files and batches are read does not change the result.
pub proof fn lemma_merge_order(a: TagSpan, b: TagSpan, c: TagSpan)
    requires
        a.count + b.count + c.count <= u64::MAX,
    ensures
        merge_spans(merge_spans(a, b), c) == merge_spans(a, merge_spans(b, c)),
        merge_spans(a, b) == merge_spans(b, a),
{
}

/// The span of a non-empty run of tags runs from a tag to a tag and
/// contains every tag.
pub proof fn lemma_span_bounds(tags: Seq<u64>)
    requires
        tags.len() > 0,
    ensures
        seq_min(tags) <= seq_max(tags),
        tags.contains(seq_min(tags)),
        tags.contains(seq_max(tags)),
        forall|i: int| 0 <= i < tags.len() ==> seq_min(tags) <= #[trigger] tags[i] <= seq_max(tags),
    decreases tags.len(),
{
    let init = tags.drop_last();
    if init.len() > 0 {
        lemma_span_bounds(init);
        assert forall|i: int| 0 <= i < tags.len() implies seq_min(tags) <= #[trigger] tags[i]
            <= seq_max(tags) by {
            if i < tags.len() - 1 {
                assert(tags[i] == init[i]);
            }
        }
        if seq_min(tags) == seq_min(init) {
            let k = choose|k: int| 0 <= k < init.len() && init[k] == seq_min(init);
            assert(tags[k] == init[k]);
            assert(tags.contains(seq_min(tags)));
        } else {
            assert(tags[tags.len() - 1] == tags.last());
            assert(tags.contains(seq_min(tags)));
        }
        if seq_max(tags) == seq_max(init) {
            let k = choose|k: int| 0 <= k < init.len() && init[k] == seq_max(init);
            assert(tags[k] == init[k]);
            assert(tags.contains(seq_max(tags)));
        } else {
            assert(tags[tags.len() - 1] == tags.last());
            assert(tags.contains(seq_max(tags)));
        }
    } else {
        assert(seq_min(init) == u64::MAX);
        assert(seq_max(init) == 0);
        assert(tags[0] == tags.last());
        assert(tags.contains(seq_min(tags)));
        assert(tags.contains(seq_max(tags)));
    }
}

impl TagSpan {
    /// A span as reading tags leaves it: with no tag, the empty span's
    /// bounds; with tags, its earliest tag is no later than its latest.
    pub open spec fn well_formed(self) -> bool {
        &&& self.count == 0 ==> self.first == u64::MAX && self.last == 0
        &&& self.count > 0 ==> self.first <= self.last
    }
}

/// The span of any run of tags is well formed.
pub proof fn lemma_span_of_well_formed(tags: Seq<u64>)
    requires
        tags.len() <= u64::MAX,
    ensures
        span_of(tags).well_formed(),
{
    if tags.len() > 0 {
        lemma_span_bounds(tags);
    }
}

/// Merging well-formed spans gives a well-formed span.
pub proof fn lemma_merge_well_formed(a: TagSpan, b: TagSpan)
    requires
        a.well_formed(),
        b.well_formed(),
        a.count + b.count <= u64::MAX,
    ensures
        merge_spans(a, b).well_formed(),
{
}

/// The merged span of well-formed spans is well formed: a run whose files
/// hold tags has its earliest tag no later than its latest.
pub proof fn lemma_total_span_well_formed(scans: Seq<Option<TagSpan>>)
    requires
        forall|i: int| 0 <= i < scans.len() ==> (#[trigger] scans[i] matches Some(s) ==> s.well_formed()),
        total_count(scans) <= u64::MAX,
    ensures
        total_span(scans).well_formed(),
        total_span(scans).count == total_count(scans),
    decreases scans.len(),
{
    if scans.len() > 0 {
        let init = scans.drop_last();
        assert forall|i: int| 0 <= i < init.len() implies (#[trigger] init[i] matches Some(s)
            ==> s.well_formed()) by {
            assert(init[i] == scans[i]);
        }
        lemma_total_span_well_formed(init);
        assert(scans[scans.len() - 1] == scans.last());
    }
}

/// The last position in `scans` whose file could not be read.
pub open spec fn last_failure(scans: Seq<Option<TagSpan>>) -> Option<int>
    decreases scans.len(),
{
    if scans.len() == 0 {
        None
    } else if scans.last() is None {
        Some(scans.len() - 1)
    } else {
        last_failure(scans.drop_last())
    }
}

/// A run with any unreadable file has a last one: it is unreadable and every
/// file after it was read; a run whose files were all read has none.
pub proof fn lemma_last_failure(scans: Seq<Option<TagSpan>>)
    ensures
        (exists|k: int| 0 <= k < scans.len() && #[trigger] scans[k] is None) ==> (last_failure(
            scans,
        ) matches Some(i) && 0 <= i < scans.len() && scans[i] is None && forall|j: int|
            i < j < scans.len() ==> #[trigger] scans[j] is Some),
        (forall|k: int| 0 <= k < scans.len() ==> #[trigger] scans[k] is Some) ==> last_failure(
            scans,
        ) is None,
    decreases scans.len(),
{
    if scans.len() > 0 {
        let init = scans.drop_last();
        lemma_last_failure(init);
        assert(scans[scans.len() - 1] == scans.last());
        if scans.last() is Some {
            if exists|k: int| 0 <= k < scans.len() && #[trigger] scans[k] is None {
                let k = choose|k: int| 0 <= k < scans.len() && #[trigger] scans[k] is None;
                assert(init[k] is None);
                let i = last_failure(init)->0;
                assert forall|j: int| i < j < scans.len() implies #[trigger] scans[j] is Some by {
                    if j < scans.len() - 1 {
                        assert(init[j] is Some);
                    }
                }
            }
            if forall|k: int| 0 <= k < scans.len() ==> #[trigger] scans[k] is Some {
                assert forall|k: int| 0 <= k < init.len() implies #[trigger] init[k] is Some by {
                    assert(scans[k] is Some);
                }
            }
        }
    }
}

/// The merged span of the files that could be read.
pub open spec fn total_span(scans: Seq<Option<TagSpan>>) -> TagSpan
    decreases scans.len(),
{
    if scans.len() == 0 {
        span_of(Seq::<u64>::empty())
    } else {
        match scans.last() {
            Some(s) => merge_spans(total_span(scans.drop_last()), s),
            None => total_span(scans.drop_last()),
        }
    }
}

/// How many tags the files that could be read hold together.
pub open spec fn total_count(scans: Seq<Option<TagSpan>>) -> nat
    decreases scans.len(),
{
    if scans.len() == 0 {
        0
    } else {
        match scans.last() {
            Some(s) => total_count(scans.drop_last()) + s.count as nat,
            None => total_count(scans.drop_last()),
        }
    }
}

/// The counts of a prefix of the scans add up to no more than all of them.
proof fn lemma_total_count_prefix(scans: Seq<Option<TagSpan>>, i: int)
    requires
        0 <= i <= scans.len(),
    ensures
        total_count(scans.take(i)) <= total_count(scans),
    decreases scans.len() - i,
{
    if i < scans.len() {
        lemma_total_count_prefix(scans, i + 1);
        assert(scans.take(i + 1).drop_last() =~= scans.take(i));
    } else {
        assert(scans.take(i) =~= scans);
    }
}

/// What a run's new parquet files add up to, from the result of reading each
/// of them (`None` where reading failed): no file at all, a failed file (the
/// last one), or no time tag are errors; otherwise the merged span.
pub fn summarize_run(data_dir: &str, scans: &Vec<Option<TagSpan>>) -> (r: Result<
    TagSpan,
    SimError,
>)
    requires
        total_count(scans@) <= u64::MAX,
    ensures
        scans@.len() == 0 ==> (r matches Err(SimError::NoParquetFile { data_dir: d }) && d@
            == data_dir@),
        scans@.len() > 0 && last_failure(scans@) is Some ==> r == Err::<TagSpan, SimError>(
            SimError::ScanFailed { file_index: last_failure(scans@)->0 as usize },
        ),
        scans@.len() > 0 && last_failure(scans@) is None && total_span(scans@).count == 0 ==> r
            == Err::<TagSpan, SimError>(SimError::NoTimeTags),
        scans@.len() > 0 && last_failure(scans@) is None && total_span(scans@).count > 0 ==> r
            == Ok::<TagSpan, SimError>(total_span(scans@)),
        (exists|k: int| 0 <= k < scans@.len() && #[trigger] scans@[k] is None) ==> (r matches Err(
            SimError::ScanFailed { file_index: i },
        ) && 0 <= i < scans@.len() && scans@[i as int] is None && forall|j: int|
            i < j < scans@.len() ==> #[trigger] scans@[j] is Some),
        r is Ok ==> forall|k: int| 0 <= k < scans@.len() ==> #[trigger] scans@[k] is Some,
{
    proof {
        lemma_last_failure(scans@);
    }
    if scans.len() == 0 {
        return Err(SimError::NoParquetFile { data_dir: data_dir.to_owned() });
    }
    let mut total = TagSpan::empty();
    let mut failed: Option<usize> = None;
    let mut i: usize = 0;
    while i < scans.len()
        invariant
            i <= scans.len(),
            total_count(scans@) <= u64::MAX,
            total == total_span(scans@.take(i as int)),
            total.count == total_count(scans@.take(i as int)),
            failed matches Some(k) ==> last_failure(scans@.take(i as int)) == Some(k as int),
            failed is None ==> last_failure(scans@.take(i as int)) is None,
        decreases scans.len() - i,
    {
        let ghost pre = scans@.take(i as int);
        assert(scans@.take(i + 1).drop_last() =~= pre);
        assert(scans@.take(i + 1).last() == scans@[i as int]);
        proof {
            lemma_total_count_prefix(scans@, i + 1);
        }
        match &scans[i] {
            Some(s) => {
                total.merge(s);
            },
            None => {
                failed = Some(i);
            },
        }
        i = i + 1;
    }
    assert(scans@.take(scans.len() as int) =~= scans@);
    if let Some(k) = failed {
        return Err(SimError::ScanFailed { file_index: k });
    }
    if total.count == 0 {
        return Err(SimError::NoTimeTags);
    }
    Ok(total)
}

} // verus!
