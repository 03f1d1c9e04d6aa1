//! Memory that threads publish, withdraw and zero.
//!
//! A cell materialized in raw memory carries neither value nor identity: its
//! identity is *where it is*. The memory that holds such cells is declared by
//! the thread that publishes it, and every access to a cell in it must happen
//! after that publication.
use vstd::prelude::*;

use crate::rt::atomic::action::FULL_MASK;
use crate::rt::atomic::state::StateModel;
use crate::rt::cells::{lemma_cell_inv, publisher};
use crate::rt::claims::Claims;
use crate::rt::execution::{names_cells, ExecModel, Execution, PublishedRegion};
use crate::rt::fault::Fault;
use crate::rt::object::{Object, ObjectModel};
use crate::rt::order::Order;
use crate::rt::park::lemma_threads_inv;
use crate::rt::small::{indices_get, indices_len, indices_new, indices_push, Indices};
use crate::rt::table::{in_range, is_in_range, table_entries, table_retain_outside};
use crate::rt::vv::VersionVec;

verus! {

/// A range of addresses: the first, and the one after the last.
pub type Span = (u64, u64);

/// The range `[lo, hi)` shares addresses with, or encloses, the span.
pub open spec fn overlaps(span: Span, lo: u64, hi: u64) -> bool {
    !(hi <= span.0 || lo >= span.1)
}

/// What is left of a span without the range `[lo, hi)`.
pub open spec fn clipped(span: Span, lo: u64, hi: u64) -> Seq<Span> {
    if !overlaps(span, lo, hi) {
        seq![span]
    } else {
        (if span.0 < lo {
            seq![(span.0, lo)]
        } else {
            Seq::empty()
        }) + (if hi < span.1 {
            seq![(hi, span.1)]
        } else {
            Seq::empty()
        })
    }
}

/// What is left of the first `n` spans without the range `[lo, hi)`.
pub open spec fn clip_all(spans: Seq<Span>, lo: u64, hi: u64, n: int) -> Seq<Span>
    decreases n,
{
    if n <= 0 {
        Seq::empty()
    } else {
        clip_all(spans, lo, hi, n - 1) + clipped(spans[n - 1], lo, hi)
    }
}

/// What is left of a span without the first `n` publications.
pub open spec fn gaps(published: Seq<PublishedRegion>, span: Span, n: int) -> Seq<Span>
    decreases n,
{
    if n <= 0 {
        seq![span]
    } else {
        let before = gaps(published, span, n - 1);
        let r = published[n - 1];
        clip_all(before, r.base, (r.base + r.len) as u64, before.len() as int)
    }
}

/// What the makers of those among the first `n` publications had seen that
/// overlap the span.
pub open spec fn mapped_by(published: Seq<PublishedRegion>, span: Span, n: int) -> VersionVec
    decreases n,
{
    if n <= 0 {
        VersionVec::zero()
    } else {
        let before = mapped_by(published, span, n - 1);
        let r = published[n - 1];
        if r.base < span.1 && span.0 < r.base + r.len {
            before.joined(r.causality)
        } else {
            before
        }
    }
}

/// The first `n` spans as publications with one causality.
pub open spec fn declared(spans: Seq<Span>, causality: VersionVec, n: int) -> Seq<PublishedRegion>
    decreases n,
{
    if n <= 0 {
        Seq::empty()
    } else {
        declared(spans, causality, n - 1).push(
            PublishedRegion {
                base: spans[n - 1].0,
                len: (spans[n - 1].1 - spans[n - 1].0) as u64,
                causality,
            },
        )
    }
}

/// What is left of the first `n` publications without the span.
pub open spec fn withdrawn(published: Seq<PublishedRegion>, span: Span, n: int) -> Seq<
    PublishedRegion,
>
    decreases n,
{
    if n <= 0 {
        Seq::empty()
    } else {
        let r = published[n - 1];
        let kept = clipped((r.base, (r.base + r.len) as u64), span.0, span.1);
        withdrawn(published, span, n - 1) + declared(kept, r.causality, kept.len() as int)
    }
}

impl ExecModel {
    /// The execution after the active thread published `len` bytes at `base`.
    ///
    /// Only the parts that are not published already are declared: publishing
    /// live memory again initializes nothing. Overlapping an existing
    /// publication also orders this thread after the one that made it, since
    /// mapping a range is serialized by the platform.
    pub open spec fn publishing(self, base: u64, len: u64) -> ExecModel {
        let span = (base, (base + len) as u64);
        let n = self.published.len() as int;
        let threads = self.threads.learned(mapped_by(self.published, span, n));
        let new = gaps(self.published, span, n);
        ExecModel {
            threads,
            published: self.published + declared(
                new,
                threads.current().causality,
                new.len() as int,
            ),
            ..self
        }
    }

    /// The execution after the mapping of `len` bytes at `base` was withdrawn.
    pub open spec fn unpublishing(self, base: u64, len: u64) -> ExecModel {
        let span = (base, (base + len) as u64);
        ExecModel {
            materialized: self.materialized.remove_keys(
                self.materialized.dom().filter(|k: u64| in_range(k, base, len)),
            ),
            published: withdrawn(self.published, span, self.published.len() as int),
            ..self
        }
    }

    /// The object is a registered cell in the range.
    pub open spec fn cell_within(self, object: usize, base: u64, len: u64) -> bool {
        exists|k: u64|
            #![trigger self.materialized.contains_key(k)]
            self.materialized.contains_key(k) && in_range(k, base, len) && self.materialized[k]
                == object
    }

    /// The cell after a thread that owns it zeroed it.
    pub open spec fn zeroed_cell(self, object: int) -> Result<StateModel, Fault> {
        match self.cell(object).tracked_unsync_mut(self.threads) {
            Err(f) => Err(f),
            Ok(s) => Ok(s.overwritten(0)),
        }
    }

    /// The execution with every registered cell in the range zeroed.
    pub open spec fn zeroed(self, base: u64, len: u64) -> ExecModel {
        ExecModel {
            objects: Seq::new(
                self.objects.len(),
                |i: int|
                    if self.cell_within(i as usize, base, len) {
                        ObjectModel::Atomic(self.zeroed_cell(i)->Ok_0)
                    } else {
                        self.objects[i]
                    },
            ),
            ..self
        }
    }
}

// ----- laws -----
/// Some span of the list holds the address.
pub open spec fn in_some(spans: Seq<Span>, addr: u64) -> bool {
    exists|i: int| 0 <= i < spans.len() && (#[trigger] spans[i]).0 <= addr < spans[i].1
}

/// Every span is a range.
pub open spec fn spans_wf(spans: Seq<Span>) -> bool {
    forall|i: int| 0 <= i < spans.len() ==> (#[trigger] spans[i]).0 <= spans[i].1
}

proof fn lemma_in_some_add(a: Seq<Span>, b: Seq<Span>, addr: u64)
    ensures
        in_some(a + b, addr) == (in_some(a, addr) || in_some(b, addr)),
        spans_wf(a) && spans_wf(b) ==> spans_wf(a + b),
{
    let s = a + b;
    if in_some(a, addr) {
        let i = choose|i: int| 0 <= i < a.len() && (#[trigger] a[i]).0 <= addr < a[i].1;
        assert(s[i] == a[i]);
    }
    if in_some(b, addr) {
        let i = choose|i: int| 0 <= i < b.len() && (#[trigger] b[i]).0 <= addr < b[i].1;
        assert(s[a.len() + i] == b[i]);
    }
    if in_some(s, addr) {
        let i = choose|i: int| 0 <= i < s.len() && (#[trigger] s[i]).0 <= addr < s[i].1;
        if i < a.len() {
            assert(a[i] == s[i]);
        } else {
            assert(b[i - a.len()] == s[i]);
        }
    }
    if spans_wf(a) && spans_wf(b) {
        assert forall|i: int| 0 <= i < s.len() implies (#[trigger] s[i]).0 <= s[i].1 by {
            if i < a.len() {
                assert(a[i] == s[i]);
            } else {
                assert(b[i - a.len()] == s[i]);
            }
        }
    }
}

proof fn lemma_clipped(span: Span, lo: u64, hi: u64, addr: u64)
    requires
        span.0 <= span.1,
        lo <= hi,
    ensures
        spans_wf(clipped(span, lo, hi)),
        in_some(clipped(span, lo, hi), addr) == (span.0 <= addr < span.1 && !(lo <= addr < hi)),
{
    let one = seq![(span.0, lo)];
    let two = seq![(hi, span.1)];
    let none = Seq::<Span>::empty();
    let all = seq![span];
    assert(all[0] == span);
    assert(one[0] == (span.0, lo));
    assert(two[0] == (hi, span.1));
    let a = if span.0 < lo {
        one
    } else {
        none
    };
    let b = if hi < span.1 {
        two
    } else {
        none
    };
    lemma_in_some_add(a, b, addr);
}

proof fn lemma_clip_all(spans: Seq<Span>, lo: u64, hi: u64, n: int, addr: u64)
    requires
        0 <= n <= spans.len(),
        spans_wf(spans),
        lo <= hi,
    ensures
        spans_wf(clip_all(spans, lo, hi, n)),
        in_some(clip_all(spans, lo, hi, n), addr) == (in_some(spans.take(n), addr) && !(lo <= addr
            < hi)),
    decreases n,
{
    if n > 0 {
        lemma_clip_all(spans, lo, hi, n - 1, addr);
        let last = spans[n - 1];
        lemma_clipped(last, lo, hi, addr);
        lemma_in_some_add(clip_all(spans, lo, hi, n - 1), clipped(last, lo, hi), addr);
        assert(spans.take(n) =~= spans.take(n - 1) + seq![last]);
        lemma_in_some_add(spans.take(n - 1), seq![last], addr);
        assert(seq![last][0] == last);
    }
}

/// Every publication lies in the address space.
pub open spec fn published_wf(published: Seq<PublishedRegion>) -> bool {
    forall|i: int|
        0 <= i < published.len() ==> (#[trigger] published[i]).base + published[i].len <= u64::MAX
}

proof fn lemma_gaps(published: Seq<PublishedRegion>, span: Span, n: int, addr: u64)
    requires
        0 <= n <= published.len(),
        published_wf(published),
        span.0 <= span.1,
    ensures
        spans_wf(gaps(published, span, n)),
        in_some(gaps(published, span, n), addr) == (span.0 <= addr < span.1 && publisher(
            published,
            addr,
            n,
        ) is None),
    decreases n,
{
    if n <= 0 {
        assert(seq![span][0] == span);
    } else {
        lemma_gaps(published, span, n - 1, addr);
        let before = gaps(published, span, n - 1);
        let r = published[n - 1];
        lemma_clip_all(before, r.base, (r.base + r.len) as u64, before.len() as int, addr);
        assert(before.take(before.len() as int) =~= before);
    }
}

proof fn lemma_declared(spans: Seq<Span>, causality: VersionVec, n: int)
    requires
        0 <= n <= spans.len(),
        spans_wf(spans),
    ensures
        declared(spans, causality, n).len() == n,
        published_wf(declared(spans, causality, n)),
        forall|i: int|
            0 <= i < n ==> #[trigger] declared(spans, causality, n)[i] == (PublishedRegion {
                base: spans[i].0,
                len: (spans[i].1 - spans[i].0) as u64,
                causality,
            }),
    decreases n,
{
    if n > 0 {
        lemma_declared(spans, causality, n - 1);
    }
}

proof fn lemma_publisher_add(a: Seq<PublishedRegion>, b: Seq<PublishedRegion>, addr: u64, n: int)
    requires
        0 <= n <= b.len(),
    ensures
        publisher(a + b, addr, a.len() + n) == match publisher(b, addr, n) {
            Some(v) => Some(v),
            None => publisher(a, addr, a.len() as int),
        },
    decreases n,
{
    let s = a + b;
    if n > 0 {
        assert(s[a.len() + n - 1] == b[n - 1]);
        lemma_publisher_add(a, b, addr, n - 1);
    } else {
        lemma_publisher_prefix(a, s, addr, a.len() as int);
    }
}

proof fn lemma_publisher_prefix(
    a: Seq<PublishedRegion>,
    b: Seq<PublishedRegion>,
    addr: u64,
    n: int,
)
    requires
        0 <= n <= a.len(),
        n <= b.len(),
        forall|i: int| 0 <= i < n ==> #[trigger] a[i] == b[i],
    ensures
        publisher(a, addr, n) == publisher(b, addr, n),
    decreases n,
{
    if n > 0 {
        assert(a[n - 1] == b[n - 1]);
        lemma_publisher_prefix(a, b, addr, n - 1);
    }
}

proof fn lemma_publisher_declared(spans: Seq<Span>, causality: VersionVec, addr: u64, n: int)
    requires
        0 <= n <= spans.len(),
        spans_wf(spans),
    ensures
        publisher(declared(spans, causality, n), addr, n) == if in_some(spans.take(n), addr) {
            Some(causality)
        } else {
            None
        },
    decreases n,
{
    if n > 0 {
        lemma_declared(spans, causality, n);
        lemma_declared(spans, causality, n - 1);
        lemma_publisher_declared(spans, causality, addr, n - 1);
        lemma_publisher_prefix(
            declared(spans, causality, n - 1),
            declared(spans, causality, n),
            addr,
            n - 1,
        );
        let last = spans[n - 1];
        assert(spans.take(n) =~= spans.take(n - 1) + seq![last]);
        lemma_in_some_add(spans.take(n - 1), seq![last], addr);
        assert(seq![last][0] == last);
    }
}

/// Publishing declares exactly the bytes of the range that nobody had
/// published: they take this thread's causality as their genesis, and memory
/// that was live keeps the genesis it had.
pub proof fn publishing_moves_no_genesis(e: ExecModel, base: u64, len: u64, addr: u64)
    requires
        published_wf(e.published),
        base + len <= u64::MAX,
    ensures
        ({
            let n = e.publishing(base, len);
            &&& published_wf(n.published)
            &&& publisher(n.published, addr, n.published.len() as int) == match publisher(
                e.published,
                addr,
                e.published.len() as int,
            ) {
                Some(v) => Some(v),
                None => if in_range(addr, base, len) {
                    Some(n.threads.current().causality)
                } else {
                    None
                },
            }
        }),
{
    let span = (base, (base + len) as u64);
    let k = e.published.len() as int;
    let n = e.publishing(base, len);
    let new = gaps(e.published, span, k);
    let causality = n.threads.current().causality;
    let d = declared(
        new,
        e.threads.learned(mapped_by(e.published, span, k)).current().causality,
        new.len() as int,
    );
    lemma_gaps(e.published, span, k, addr);
    lemma_declared(
        new,
        e.threads.learned(mapped_by(e.published, span, k)).current().causality,
        new.len() as int,
    );
    lemma_publisher_declared(
        new,
        e.threads.learned(mapped_by(e.published, span, k)).current().causality,
        addr,
        new.len() as int,
    );
    assert(new.take(new.len() as int) =~= new);
    lemma_publisher_add(e.published, d, addr, d.len() as int);
    assert forall|i: int| 0 <= i < n.published.len() implies (#[trigger] n.published[i]).base
        + n.published[i].len <= u64::MAX by {
        if i < k {
            assert(n.published[i] == e.published[i]);
        } else {
            assert(n.published[i] == d[i - k]);
        }
    }
}

// ----- each address is published once -----
/// How many of the first `n` spans hold the address.
spec fn span_count(spans: Seq<Span>, addr: u64, n: int) -> nat
    decreases n,
{
    if n <= 0 {
        0
    } else {
        span_count(spans, addr, n - 1) + if spans[n - 1].0 <= addr < spans[n - 1].1 {
            1nat
        } else {
            0nat
        }
    }
}

/// How many of the first `n` publications hold the address.
spec fn cover_count(published: Seq<PublishedRegion>, addr: u64, n: int) -> nat
    decreases n,
{
    if n <= 0 {
        0
    } else {
        cover_count(published, addr, n - 1) + if in_range(
            addr,
            published[n - 1].base,
            published[n - 1].len,
        ) {
            1nat
        } else {
            0nat
        }
    }
}

proof fn lemma_span_count_add(a: Seq<Span>, b: Seq<Span>, addr: u64, n: int)
    requires
        0 <= n <= b.len(),
    ensures
        span_count(a + b, addr, a.len() + n) == span_count(a, addr, a.len() as int) + span_count(
            b,
            addr,
            n,
        ),
    decreases n,
{
    if n > 0 {
        lemma_span_count_add(a, b, addr, n - 1);
    } else {
        lemma_span_count_prefix(a, b, addr, a.len() as int);
    }
}

proof fn lemma_span_count_prefix(a: Seq<Span>, b: Seq<Span>, addr: u64, n: int)
    requires
        0 <= n <= a.len(),
    ensures
        span_count(a + b, addr, n) == span_count(a, addr, n),
    decreases n,
{
    if n > 0 {
        lemma_span_count_prefix(a, b, addr, n - 1);
    }
}

proof fn lemma_cover_count_add(
    a: Seq<PublishedRegion>,
    b: Seq<PublishedRegion>,
    addr: u64,
    n: int,
)
    requires
        0 <= n <= b.len(),
    ensures
        cover_count(a + b, addr, a.len() + n) == cover_count(a, addr, a.len() as int) + cover_count(
            b,
            addr,
            n,
        ),
    decreases n,
{
    if n > 0 {
        lemma_cover_count_add(a, b, addr, n - 1);
    } else {
        lemma_cover_count_prefix(a, b, addr, a.len() as int);
    }
}

proof fn lemma_cover_count_prefix(
    a: Seq<PublishedRegion>,
    b: Seq<PublishedRegion>,
    addr: u64,
    n: int,
)
    requires
        0 <= n <= a.len(),
    ensures
        cover_count(a + b, addr, n) == cover_count(a, addr, n),
    decreases n,
{
    if n > 0 {
        lemma_cover_count_prefix(a, b, addr, n - 1);
    }
}

proof fn lemma_clipped_count(span: Span, lo: u64, hi: u64, addr: u64)
    requires
        span.0 <= span.1,
        lo <= hi,
    ensures
        ({
            let c = clipped(span, lo, hi);
            span_count(c, addr, c.len() as int) == if span.0 <= addr < span.1 && !(lo <= addr
                < hi) {
                1nat
            } else {
                0nat
            }
        }),
{
    reveal_with_fuel(span_count, 3);
}

proof fn lemma_clip_all_count(spans: Seq<Span>, lo: u64, hi: u64, n: int, addr: u64)
    requires
        0 <= n <= spans.len(),
        spans_wf(spans),
        lo <= hi,
    ensures
        ({
            let c = clip_all(spans, lo, hi, n);
            span_count(c, addr, c.len() as int) == if lo <= addr < hi {
                0nat
            } else {
                span_count(spans, addr, n)
            }
        }),
    decreases n,
{
    if n > 0 {
        lemma_clip_all_count(spans, lo, hi, n - 1, addr);
        lemma_clipped_count(spans[n - 1], lo, hi, addr);
        let a = clip_all(spans, lo, hi, n - 1);
        let b = clipped(spans[n - 1], lo, hi);
        lemma_span_count_add(a, b, addr, b.len() as int);
    }
}

proof fn lemma_gaps_count(published: Seq<PublishedRegion>, span: Span, n: int, addr: u64)
    requires
        0 <= n <= published.len(),
        published_wf(published),
        span.0 <= span.1,
    ensures
        ({
            let g = gaps(published, span, n);
            span_count(g, addr, g.len() as int) == if span.0 <= addr < span.1 && cover_count(
                published,
                addr,
                n,
            ) == 0 {
                1nat
            } else {
                0nat
            }
        }),
    decreases n,
{
    if n <= 0 {
        reveal_with_fuel(span_count, 2);
    } else {
        lemma_gaps_count(published, span, n - 1, addr);
        lemma_gaps(published, span, n - 1, addr);
        let before = gaps(published, span, n - 1);
        let r = published[n - 1];
        lemma_clip_all_count(before, r.base, (r.base + r.len) as u64, before.len() as int, addr);
    }
}

proof fn lemma_declared_count(spans: Seq<Span>, causality: VersionVec, n: int, m: int, addr: u64)
    requires
        0 <= m <= n <= spans.len(),
        spans_wf(spans),
    ensures
        cover_count(declared(spans, causality, n), addr, m) == span_count(spans, addr, m),
    decreases m,
{
    if m > 0 {
        lemma_declared_count(spans, causality, n, m - 1, addr);
        lemma_declared(spans, causality, n);
    }
}

proof fn lemma_withdrawn_count(published: Seq<PublishedRegion>, span: Span, n: int, addr: u64)
    requires
        0 <= n <= published.len(),
        published_wf(published),
        span.0 <= span.1,
    ensures
        ({
            let w = withdrawn(published, span, n);
            cover_count(w, addr, w.len() as int) == if span.0 <= addr < span.1 {
                0nat
            } else {
                cover_count(published, addr, n)
            }
        }),
    decreases n,
{
    if n > 0 {
        let r = published[n - 1];
        let whole = (r.base, (r.base + r.len) as u64);
        let kept = clipped(whole, span.0, span.1);
        lemma_withdrawn_count(published, span, n - 1, addr);
        lemma_clipped_count(whole, span.0, span.1, addr);
        lemma_clipped(whole, span.0, span.1, addr);
        lemma_declared(kept, r.causality, kept.len() as int);
        lemma_declared_count(kept, r.causality, kept.len() as int, kept.len() as int, addr);
        let a = withdrawn(published, span, n - 1);
        let b = declared(kept, r.causality, kept.len() as int);
        lemma_cover_count_add(a, b, addr, b.len() as int);
    }
}

proof fn lemma_covered_twice(published: Seq<PublishedRegion>, addr: u64, n: int, i: int, j: int)
    requires
        0 <= i < n <= published.len(),
        in_range(addr, published[i].base, published[i].len),
    ensures
        cover_count(published, addr, n) >= 1,
        i < j < n && in_range(addr, published[j].base, published[j].len) ==> cover_count(
            published,
            addr,
            n,
        ) >= 2,
    decreases n,
{
    if i < n - 1 {
        lemma_covered_twice(published, addr, n - 1, i, j);
    }
}

proof fn lemma_covered_once(published: Seq<PublishedRegion>, addr: u64, n: int)
    requires
        0 <= n <= published.len(),
        disjoint(published),
    ensures
        cover_count(published, addr, n) <= 1,
        cover_count(published, addr, n) == 1 ==> exists|i: int|
            0 <= i < n && #[trigger] in_range(addr, published[i].base, published[i].len),
    decreases n,
{
    if n > 0 {
        lemma_covered_once(published, addr, n - 1);
        if in_range(addr, published[n - 1].base, published[n - 1].len) && cover_count(
            published,
            addr,
            n - 1,
        ) == 1 {
            let i = choose|i: int|
                0 <= i < n - 1 && #[trigger] in_range(addr, published[i].base, published[i].len);
            assert(!(in_range(addr, published[i].base, published[i].len) && in_range(
                addr,
                published[n - 1].base,
                published[n - 1].len,
            )));
        }
    }
}

/// No two publications share an address.
pub open spec fn disjoint(published: Seq<PublishedRegion>) -> bool {
    forall|i: int, j: int, addr: u64|
        #![trigger in_range(addr, published[i].base, published[i].len), in_range(
            addr,
            published[j].base,
            published[j].len,
        )]
        0 <= i < j < published.len() ==> !(in_range(addr, published[i].base, published[i].len)
            && in_range(addr, published[j].base, published[j].len))
}

proof fn lemma_disjoint(published: Seq<PublishedRegion>)
    requires
        forall|addr: u64| #[trigger] cover_count(published, addr, published.len() as int) <= 1,
    ensures
        disjoint(published),
{
    assert forall|i: int, j: int, addr: u64|
        #![trigger in_range(addr, published[i].base, published[i].len), in_range(
            addr,
            published[j].base,
            published[j].len,
        )]
        0 <= i < j < published.len() implies !(in_range(addr, published[i].base, published[i].len)
        && in_range(addr, published[j].base, published[j].len)) by {
        assert(cover_count(published, addr, published.len() as int) <= 1);
        if in_range(addr, published[i].base, published[i].len) && in_range(
            addr,
            published[j].base,
            published[j].len,
        ) {
            lemma_covered_twice(published, addr, published.len() as int, i, j);
        }
    }
}

/// An address is published at most once at a time: publishing and withdrawing
/// keep the published ranges apart.
pub proof fn published_ranges_stay_apart(e: ExecModel, base: u64, len: u64)
    requires
        published_wf(e.published),
        disjoint(e.published),
        base + len <= u64::MAX,
    ensures
        disjoint(e.publishing(base, len).published),
        disjoint(e.unpublishing(base, len).published),
{
    let span = (base, (base + len) as u64);
    let k = e.published.len() as int;
    let p = e.publishing(base, len).published;
    let new = gaps(e.published, span, k);
    let causality = e.threads.learned(mapped_by(e.published, span, k)).current().causality;
    let d = declared(new, causality, new.len() as int);
    assert forall|addr: u64| #[trigger] cover_count(p, addr, p.len() as int) <= 1 by {
        lemma_covered_once(e.published, addr, k);
        lemma_gaps(e.published, span, k, addr);
        lemma_gaps_count(e.published, span, k, addr);
        lemma_declared(new, causality, new.len() as int);
        lemma_declared_count(new, causality, new.len() as int, new.len() as int, addr);
        lemma_cover_count_add(e.published, d, addr, d.len() as int);
    }
    lemma_disjoint(p);
    let w = e.unpublishing(base, len).published;
    assert forall|addr: u64| #[trigger] cover_count(w, addr, w.len() as int) <= 1 by {
        lemma_covered_once(e.published, addr, k);
        lemma_withdrawn_count(e.published, span, k, addr);
    }
    lemma_disjoint(w);
}

proof fn lemma_withdrawn(published: Seq<PublishedRegion>, span: Span, n: int, addr: u64)
    requires
        0 <= n <= published.len(),
        published_wf(published),
        span.0 <= span.1,
    ensures
        published_wf(withdrawn(published, span, n)),
        publisher(
            withdrawn(published, span, n),
            addr,
            withdrawn(published, span, n).len() as int,
        ) == if span.0 <= addr < span.1 {
            None
        } else {
            publisher(published, addr, n)
        },
    decreases n,
{
    if n > 0 {
        let r = published[n - 1];
        let whole = (r.base, (r.base + r.len) as u64);
        let kept = clipped(whole, span.0, span.1);
        let a = withdrawn(published, span, n - 1);
        let d = declared(kept, r.causality, kept.len() as int);
        lemma_withdrawn(published, span, n - 1, addr);
        lemma_clipped(whole, span.0, span.1, addr);
        lemma_declared(kept, r.causality, kept.len() as int);
        lemma_publisher_declared(kept, r.causality, addr, kept.len() as int);
        assert(kept.take(kept.len() as int) =~= kept);
        lemma_publisher_add(a, d, addr, d.len() as int);
        let s = a + d;
        assert forall|i: int| 0 <= i < s.len() implies (#[trigger] s[i]).base + s[i].len
            <= u64::MAX by {
            if i < a.len() {
                assert(s[i] == a[i]);
            } else {
                assert(s[i] == d[i - a.len()]);
            }
        }
    }
}

/// Withdrawn memory faults: no address of the range is published any more and
/// no cell in it is registered, while everything outside it is as it was.
pub proof fn withdrawing_is_exact(e: ExecModel, base: u64, len: u64, addr: u64)
    requires
        published_wf(e.published),
        base + len <= u64::MAX,
    ensures
        ({
            let n = e.unpublishing(base, len);
            if in_range(addr, base, len) {
                n.materialized_at(addr) == Err::<(ExecModel, usize), Fault>(
                    Fault::NotPublished { addr },
                )
            } else {
                &&& publisher(n.published, addr, n.published.len() as int) == publisher(
                    e.published,
                    addr,
                    e.published.len() as int,
                )
                &&& n.materialized.contains_key(addr) == e.materialized.contains_key(addr)
                &&& e.materialized.contains_key(addr) ==> n.materialized[addr]
                    == e.materialized[addr]
            }
        }),
{
    let span = (base, (base + len) as u64);
    lemma_withdrawn(e.published, span, e.published.len() as int, addr);
}

proof fn lemma_mapped_by(published: Seq<PublishedRegion>, span: Span, n: int, k: int)
    requires
        0 <= k < n <= published.len(),
        published[k].base < span.1,
        span.0 < published[k].base + published[k].len,
    ensures
        published[k].causality.below(mapped_by(published, span, n)),
    decreases n,
{
    let before = mapped_by(published, span, n - 1);
    let last = published[n - 1].causality;
    VersionVec::join_is_least_upper_bound(before, last, last);
    if k < n - 1 {
        lemma_mapped_by(published, span, n - 1, k);
        VersionVec::below_is_partial_order(published[k].causality, before, before.joined(last));
    }
}

/// Publishing a range that overlaps a live publication orders the thread after
/// the one that made it: it has then seen all that its maker had. Its own
/// publication hands on all that it has seen itself. Withdrawing a range orders
/// nothing.
pub proof fn publishing_follows_who_published_before(
    e: ExecModel,
    base: u64,
    len: u64,
    k: int,
    addr: u64,
)
    requires
        e.threads.running(),
        base + len <= u64::MAX,
        0 <= k < e.published.len(),
        in_range(addr, base, len),
        in_range(addr, e.published[k].base, e.published[k].len),
    ensures
        e.published[k].causality.below(e.publishing(base, len).threads.current().causality),
        e.threads.current().causality.below(e.publishing(base, len).threads.current().causality),
        e.unpublishing(base, len).threads == e.threads,
{
    let span = (base, (base + len) as u64);
    let n = e.published.len() as int;
    let view = mapped_by(e.published, span, n);
    let own = e.threads.current().causality;
    lemma_mapped_by(e.published, span, n, k);
    VersionVec::join_is_least_upper_bound(own, view, view);
    VersionVec::below_is_partial_order(e.published[k].causality, view, own.joined(view));
}

// ----- operations -----
/// What is left of the spans without the range `[lo, hi)`.
fn clip(spans: &Vec<Span>, lo: u64, hi: u64) -> (r: Vec<Span>)
    requires
        spans_wf(spans@),
        lo <= hi,
    ensures
        r@ == clip_all(spans@, lo, hi, spans@.len() as int),
        spans_wf(r@),
{
    let mut next: Vec<Span> = Vec::new();
    let mut i: usize = 0;
    while i < spans.len()
        invariant
            i <= spans@.len(),
            next@ == clip_all(spans@, lo, hi, i as int),
        decreases spans.len() - i,
    {
        let ghost before = next@;
        let (a, b): Span = spans[i];
        if hi <= a || lo >= b {
            next.push((a, b));
        } else {
            if a < lo {
                next.push((a, lo));
            }
            if hi < b {
                next.push((hi, b));
            }
        }
        i += 1;
        assert(next@ =~= before + clipped((a, b), lo, hi));
    }
    proof {
        lemma_clip_all(spans@, lo, hi, spans@.len() as int, 0);
    }
    next
}

/// Append the spans as publications with one causality.
fn declare(spans: &Vec<Span>, causality: VersionVec, out: &mut Vec<PublishedRegion>)
    requires
        spans_wf(spans@),
    ensures
        final(out)@ == old(out)@ + declared(spans@, causality, spans@.len() as int),
{
    let mut i: usize = 0;
    while i < spans.len()
        invariant
            spans_wf(spans@),
            i <= spans@.len(),
            out@ == old(out)@ + declared(spans@, causality, i as int),
        decreases spans.len() - i,
    {
        let (a, b): Span = spans[i];
        assert(spans@[i as int].0 <= spans@[i as int].1);
        out.push(PublishedRegion { base: a, len: b - a, causality });
        i += 1;
        assert(out@ =~= old(out)@ + declared(spans@, causality, i as int));
    }
}

impl Execution {
    /// Declare that the active thread has published `len` bytes of zeroed
    /// memory at `base`.
    ///
    /// Required, not advisory: a materialized cell takes its identity from
    /// where it lives, so a cell outside every published range has none and
    /// its first access is a fault.
    pub fn publish(&mut self, claims: &Claims, base: u64, len: u64)
        requires
            old(self)@.running(claims@),
            base + len <= u64::MAX,
        ensures
            final(self)@ == old(self)@.publishing(base, len),
            final(self)@.running(claims@),
    {
        let ghost e0 = self@;
        let end: u64 = base + len;
        let ghost span = (base, end);
        let mut acquired: VersionVec = VersionVec::new();
        let mut left: Vec<Span> = Vec::new();
        left.push((base, end));
        assert(left@ =~= seq![span]);
        let mut i: usize = 0;
        while i < self.published_regions.len()
            invariant
                self@ == e0,
                e0.running(claims@),
                end == base + len,
                span == (base, end),
                i <= e0.published.len(),
                acquired == mapped_by(e0.published, span, i as int),
                left@ == gaps(e0.published, span, i as int),
                spans_wf(left@),
            decreases self.published_regions.len() - i,
        {
            let r: PublishedRegion = self.published_regions[i];
            assert(r == e0.published[i as int]);
            if r.base < end && base < r.base + r.len {
                acquired.join(&r.causality);
            }
            left = clip(&left, r.base, r.base + r.len);
            i += 1;
        }
        self.threads.learn(&acquired);
        proof {
            lemma_threads_inv(e0, claims@, self.threads@);
            publishing_moves_no_genesis(e0, base, len, 0);
        }
        let causality: VersionVec = self.threads.causality();
        declare(&left, causality, &mut self.published_regions);
        assert(self@ =~= e0.publishing(base, len));
    }

    /// Withdraw the declaration over `len` bytes at `base`: the mapping itself
    /// is gone, not merely its contents. Every cell in the range loses its
    /// registration, so that a later access is a fault rather than a stale
    /// value; publishing the range again registers its cells at zero.
    pub fn unpublish(&mut self, claims: &Claims, base: u64, len: u64)
        requires
            old(self)@.inv(claims@),
            base + len <= u64::MAX,
        ensures
            final(self)@ == old(self)@.unpublishing(base, len),
            final(self)@.inv(claims@),
    {
        let ghost e0 = self@;
        let end: u64 = base + len;
        let ghost span = (base, end);
        // The registrations go first. They are keyed by address, so a cell
        // that survived here would be adopted by a later publication of the
        // same range together with its whole store history.
        table_retain_outside(&mut self.materialized, base, len);
        let ghost want = e0.unpublishing(base, len);
        proof {
            assert(self.materialized@ =~= want.materialized);
            assert(names_cells(want.materialized, e0.objects)) by {
                assert forall|k: u64| #[trigger] want.materialized.contains_key(k) implies
                    want.materialized[k] < e0.objects.len()
                    && e0.objects[want.materialized[k] as int] is Atomic by {
                    assert(e0.materialized.contains_key(k));
                }
                assert forall|k: u64, l: u64|
                    #![trigger want.materialized.contains_key(k), want.materialized.contains_key(l)]
                    want.materialized.contains_key(k) && want.materialized.contains_key(l) && k
                        != l implies want.materialized[k] != want.materialized[l] by {
                    assert(e0.materialized.contains_key(k) && e0.materialized.contains_key(l));
                }
            }
        }
        // Then the declaration, clipped rather than dropped.
        let mut kept: Vec<PublishedRegion> = Vec::new();
        let mut i: usize = 0;
        while i < self.published_regions.len()
            invariant
                e0.inv(claims@),
                self.published_regions@ == e0.published,
                self@ == (ExecModel { materialized: want.materialized, ..e0 }),
                end == base + len,
                span == (base, end),
                i <= e0.published.len(),
                kept@ == withdrawn(e0.published, span, i as int),
            decreases self.published_regions.len() - i,
        {
            let r: PublishedRegion = self.published_regions[i];
            assert(r == e0.published[i as int]);
            let mut whole: Vec<Span> = Vec::new();
            whole.push((r.base, r.base + r.len));
            let parts: Vec<Span> = clip(&whole, base, end);
            proof {
                let w = (r.base, (r.base + r.len) as u64);
                reveal_with_fuel(clip_all, 2);
                assert(whole@ =~= seq![w]);
                assert(parts@ =~= clipped(w, base, end));
            }
            declare(&parts, r.causality, &mut kept);
            i += 1;
        }
        self.published_regions = kept;
        proof {
            lemma_withdrawn(e0.published, span, e0.published.len() as int, 0);
            assert(self@ =~= want);
        }
    }

    /// The registered cells in the range, in an order of which nothing is
    /// said.
    pub fn cells_in(&self, claims: &Claims, base: u64, len: u64) -> (r: Indices)
        requires
            self@.inv(claims@),
        ensures
            forall|i: int|
                0 <= i < r@.len() ==> self@.cell_within(#[trigger] r@[i], base, len)
                    && self@.is_cell(r@[i] as int),
            forall|o: usize| #[trigger] self@.cell_within(o, base, len) ==> r@.contains(o),
            forall|i: int, j: int|
                #![trigger r@[i], r@[j]]
                0 <= i < j < r@.len() ==> r@[i] != r@[j],
    {
        let entries: Vec<(u64, usize)> = table_entries(&self.materialized);
        let mut out: Indices = indices_new();
        let mut i: usize = 0;
        // For each cell, the entry it came from.
        let ghost mut from: Seq<int> = Seq::empty();
        while i < entries.len()
            invariant
                self@.inv(claims@),
                i <= entries@.len(),
                forall|k: int|
                    0 <= k < entries@.len() ==> self@.materialized.contains_key(
                        (#[trigger] entries@[k]).0,
                    ) && self@.materialized[entries@[k].0] == entries@[k].1,
                forall|k: int, l: int|
                    #![trigger entries@[k], entries@[l]]
                    0 <= k < l < entries@.len() ==> entries@[k].0 != entries@[l].0,
                from.len() == out@.len(),
                forall|k: int|
                    0 <= k < out@.len() ==> 0 <= #[trigger] from[k] < i && out@[k]
                        == entries@[from[k]].1 && in_range(entries@[from[k]].0, base, len),
                forall|k: int, l: int|
                    #![trigger from[k], from[l]]
                    0 <= k < l < from.len() ==> from[k] < from[l],
                forall|k: int|
                    0 <= k < i && in_range((#[trigger] entries@[k]).0, base, len) ==> out@.contains(
                        entries@[k].1,
                    ),
            decreases entries.len() - i,
        {
            let (addr, object): (u64, usize) = entries[i];
            if is_in_range(addr, base, len) {
                let ghost before = out@;
                indices_push(&mut out, object);
                proof {
                    from = from.push(i as int);
                    assert(out@[before.len() as int] == object);
                    assert forall|k: int|
                        0 <= k < i + 1 && in_range(
                            (#[trigger] entries@[k]).0,
                            base,
                            len,
                        ) implies out@.contains(entries@[k].1) by {
                        if k < i {
                            assert(before.contains(entries@[k].1));
                            let j = choose|j: int|
                                0 <= j < before.len() && before[j] == entries@[k].1;
                            assert(out@[j] == before[j]);
                        }
                    }
                }
            }
            i += 1;
        }
        proof {
            assert forall|k: int| 0 <= k < out@.len() implies self@.cell_within(
                #[trigger] out@[k],
                base,
                len,
            ) && self@.is_cell(out@[k] as int) by {
                let e = entries@[from[k]];
                assert(self@.materialized.contains_key(e.0));
            }
            assert forall|o: usize| #[trigger] self@.cell_within(o, base, len) implies out@.contains(
                o,
            ) by {
                let key = choose|k: u64|
                    #![trigger self@.materialized.contains_key(k)]
                    self@.materialized.contains_key(k) && in_range(k, base, len)
                        && self@.materialized[k] == o;
                let n = choose|n: int| 0 <= n < entries@.len() && (#[trigger] entries@[n]).0 == key;
                assert(entries@[n].1 == o);
            }
            assert forall|k: int, l: int|
                #![trigger out@[k], out@[l]]
                0 <= k < l < out@.len() implies out@[k] != out@[l] by {
                let a = entries@[from[k]];
                let b = entries@[from[l]];
                assert(from[k] < from[l]);
                assert(self@.materialized.contains_key(a.0) && self@.materialized.contains_key(
                    b.0,
                ));
            }
        }
        out
    }

    /// Model a bulk zeroing of `len` bytes at `base` by a thread that owns the
    /// range exclusively.
    ///
    /// A materialized cell keeps its value in the model, not in the bytes it
    /// occupies, so code that recycles a record by zeroing it has to say so.
    /// Exclusive, and checked: the zeroing is tracked as a mutable access is.
    /// Cells that are not registered yet are zero already.
    pub fn zero_exclusive(&mut self, claims: &Claims, base: u64, len: u64) -> (r: Result<(), Fault>)
        requires
            old(self)@.running(claims@),
        ensures
            match r {
                Ok(()) => {
                    &&& forall|o: usize| #[trigger] old(self)@.cell_within(o, base, len) ==> old(
                        self,
                    )@.zeroed_cell(o as int) is Ok
                    &&& final(self)@ == old(self)@.zeroed(base, len)
                    &&& final(self)@.running(claims@)
                },
                Err(f) => exists|o: usize| #[trigger] old(self)@.cell_within(o, base, len) && old(
                    self,
                )@.zeroed_cell(o as int) == Err::<StateModel, Fault>(f),
            },
    {
        let ghost e0 = self@;
        let targets: Indices = self.cells_in(claims, base, len);
        let n: usize = indices_len(&targets);
        let mut k: usize = 0;
        while k < n
            invariant
                e0 == old(self)@,
                e0.running(claims@),
                n == targets@.len(),
                k <= n,
                forall|i: int|
                    0 <= i < targets@.len() ==> e0.cell_within(#[trigger] targets@[i], base, len)
                        && e0.is_cell(targets@[i] as int),
                forall|i: int, j: int|
                    #![trigger targets@[i], targets@[j]]
                    0 <= i < j < targets@.len() ==> targets@[i] != targets@[j],
                self@ == (ExecModel { objects: self@.objects, ..e0 }),
                self@.running(claims@),
                self@.objects.len() == e0.objects.len(),
                forall|i: int|
                    0 <= i < k ==> e0.zeroed_cell((#[trigger] targets@[i]) as int) is Ok
                        && self@.objects[targets@[i] as int] == ObjectModel::Atomic(
                        e0.zeroed_cell(targets@[i] as int)->Ok_0,
                    ),
                forall|o: int|
                    #![trigger self@.objects[o]]
                    0 <= o < e0.objects.len() && (forall|i: int| 0 <= i < k ==> #[trigger] targets@[i]
                        != o) ==> self@.objects[o] == e0.objects[o],
            decreases n - k,
        {
            let object: usize = indices_get(&targets, k);
            let ghost before = self@;
            proof {
                assert(e0.is_cell(object as int));
                assert forall|i: int| 0 <= i < k implies #[trigger] targets@[i] != object by {
                    assert(targets@[i] != targets@[k as int]);
                }
                assert(self@.objects[object as int] == e0.objects[object as int]);
                assert(self.objects@[object as int]@ == self@.objects[object as int]);
                assert(e0.objects[object as int].wf());
            }
            if let Object::Atomic(state) = &mut self.objects[object] {
                match state.track_unsync_mut(&self.threads) {
                    Ok(()) => {},
                    Err(f) => {
                        assert(e0.cell_within(targets@[k as int], base, len));
                        return Err(f);
                    },
                }
                // Overwrite in place rather than appending a store: a
                // non-atomic write is not a modification-order event.
                state.overwrite(0);
            }
            proof {
                let cell = e0.zeroed_cell(object as int)->Ok_0;
                lemma_cell_inv(before, claims@, object as int, cell);
                assert(self@.objects =~= before.objects.update(
                    object as int,
                    ObjectModel::Atomic(cell),
                ));
                assert(self@ =~= before.with_cell(object as int, cell));
                assert forall|o: int|
                    #![trigger self@.objects[o]]
                    0 <= o < e0.objects.len() && (forall|i: int|
                        0 <= i < k + 1 ==> #[trigger] targets@[i] != o) implies self@.objects[o]
                    == e0.objects[o] by {
                    assert(targets@[k as int] != o);
                    assert(before.objects[o] == e0.objects[o]);
                }
                assert forall|i: int| 0 <= i < k + 1 implies e0.zeroed_cell(
                    (#[trigger] targets@[i]) as int,
                ) is Ok && self@.objects[targets@[i] as int] == ObjectModel::Atomic(
                    e0.zeroed_cell(targets@[i] as int)->Ok_0,
                ) by {
                    if i < k {
                        assert(targets@[i] != targets@[k as int]);
                    }
                }
            }
            k += 1;
        }
        proof {
            let want = e0.zeroed(base, len);
            assert(self.objects.len() == self@.objects.len());
            assert forall|o: int| 0 <= o < want.objects.len() implies #[trigger] self@.objects[o]
                == want.objects[o] by {
                if e0.cell_within(o as usize, base, len) {
                    let i = choose|i: int| 0 <= i < targets@.len() && targets@[i] == o as usize;
                    assert(targets@[i] == o);
                } else {
                    assert forall|i: int| 0 <= i < n implies #[trigger] targets@[i] != o by {
                        assert(e0.cell_within(targets@[i], base, len));
                    }
                }
            }
            assert(self@.objects =~= want.objects);
            assert(self@ =~= want);
            assert forall|o: usize| #[trigger] e0.cell_within(o, base, len) implies e0.zeroed_cell(
                o as int,
            ) is Ok by {
                let i = choose|i: int| 0 <= i < targets@.len() && targets@[i] == o;
            }
        }
        Ok(())
    }

    /// One cell's part in discarding the content of a range whose mapping
    /// stays: a release-ordered atomic store of zero, which a concurrent
    /// reader may race with harmlessly. Each cell of the range is its own
    /// linearization point: the caller lists them with
    /// [`Execution::cells_in`] and begins each store in turn.
    pub fn reset(&mut self, claims: &Claims, object: usize) -> (r: Result<(), Fault>)
        requires
            old(self)@.running(claims@),
            old(self)@.is_cell(object as int),
        ensures
            match old(self)@.stored(object as int, FULL_MASK, 0, Order::Release) {
                Ok(e) => {
                    &&& r is Ok
                    &&& final(self)@ == e
                    &&& e.running(claims@)
                },
                Err(f) => r == Err::<(), Fault>(f),
            },
    {
        self.store(claims, object, FULL_MASK, 0, Order::Release)
    }
}

} // verus!
