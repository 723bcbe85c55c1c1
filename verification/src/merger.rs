//! Multi-way merge of sorted term streams.
//!
//! Given N term streams, each sorted in strictly increasing byte-lexicographic
//! key order, the merger yields the sorted, deduplicated union of their keys;
//! at each key it reports which streams (by ordinal) carry the key, together
//! with each stream's per-term metadata.

use vstd::prelude::*;

verus! {

/// Strict byte-lexicographic order on byte strings.
pub open spec fn lex_lt(a: Seq<u8>, b: Seq<u8>) -> bool
    decreases a.len(),
{
    if b.len() == 0 {
        false
    } else if a.len() == 0 {
        true
    } else if a[0] < b[0] {
        true
    } else if a[0] > b[0] {
        false
    } else {
        lex_lt(a.drop_first(), b.drop_first())
    }
}

/// Non-strict byte-lexicographic order.
pub open spec fn lex_le(a: Seq<u8>, b: Seq<u8>) -> bool {
    lex_lt(a, b) || a == b
}

/// No byte string is lexicographically below itself.
pub proof fn lemma_lex_lt_irrefl(a: Seq<u8>)
    ensures
        !lex_lt(a, a),
    decreases a.len(),
{
    if a.len() > 0 {
        lemma_lex_lt_irrefl(a.drop_first());
    }
}

/// The order is total: two byte strings compare one way, the other way,
/// or are equal, and never two of these at once.
pub proof fn lemma_lex_lt_trichotomy(a: Seq<u8>, b: Seq<u8>)
    ensures
        lex_lt(a, b) || lex_lt(b, a) || a == b,
        !(lex_lt(a, b) && lex_lt(b, a)),
        lex_lt(a, b) ==> a != b,
    decreases a.len(),
{
    if a.len() > 0 && b.len() > 0 && a[0] == b[0] {
        lemma_lex_lt_trichotomy(a.drop_first(), b.drop_first());
        if a.drop_first() == b.drop_first() {
            assert forall|i: int| 0 <= i < a.len() implies a[i] == b[i] by {
                if i > 0 {
                    assert(a.drop_first()[i - 1] == b.drop_first()[i - 1]);
                }
            }
            assert(a =~= b);
        }
    }
    if a == b {
        lemma_lex_lt_irrefl(a);
    }
}

/// The order is transitive.
pub proof fn lemma_lex_lt_trans(a: Seq<u8>, b: Seq<u8>, c: Seq<u8>)
    requires
        lex_lt(a, b),
        lex_lt(b, c),
    ensures
        lex_lt(a, c),
    decreases a.len(),
{
    if c.len() == 0 {
    } else if b.len() == 0 {
    } else if a.len() == 0 {
    } else {
        if a[0] == b[0] && b[0] == c[0] {
            lemma_lex_lt_trans(a.drop_first(), b.drop_first(), c.drop_first());
        }
    }
}

proof fn lemma_lex_le_trans(a: Seq<u8>, b: Seq<u8>, c: Seq<u8>)
    requires
        lex_le(a, b),
        lex_le(b, c),
    ensures
        lex_le(a, c),
{
    if lex_lt(a, b) && lex_lt(b, c) {
        lemma_lex_lt_trans(a, b, c);
    }
}

/// Three-way byte-string comparison: `-1` for below, `0` for equal,
/// `1` for above, in byte-lexicographic order.
pub fn bytes_compare(a: &[u8], b: &[u8]) -> (o: i8)
    ensures
        o == -1 || o == 0 || o == 1,
        (o == -1) == lex_lt(a@, b@),
        (o == 0) == (a@ == b@),
        (o == 1) == lex_lt(b@, a@),
{
    proof {
        lemma_lex_lt_trichotomy(a@, b@);
        assert(a@.skip(0) =~= a@);
        assert(b@.skip(0) =~= b@);
    }
    let mut i: usize = 0;
    loop
        invariant
            0 <= i <= a@.len(),
            i <= b@.len(),
            forall|j: int| 0 <= j < i ==> a@[j] == b@[j],
            lex_lt(a@, b@) == lex_lt(a@.skip(i as int), b@.skip(i as int)),
            lex_lt(b@, a@) == lex_lt(b@.skip(i as int), a@.skip(i as int)),
        ensures
            i == a@.len() || i == b@.len(),
            i <= a@.len(),
            i <= b@.len(),
            forall|j: int| 0 <= j < i ==> a@[j] == b@[j],
            lex_lt(a@, b@) == lex_lt(a@.skip(i as int), b@.skip(i as int)),
            lex_lt(b@, a@) == lex_lt(b@.skip(i as int), a@.skip(i as int)),
        decreases a@.len() - i,
    {
        if i == a.len() || i == b.len() {
            break;
        }
        let ca = a[i];
        let cb = b[i];
        if ca < cb {
            proof {
                assert(lex_lt(a@.skip(i as int), b@.skip(i as int)));
                lemma_lex_lt_trichotomy(a@, b@);
            }
            return -1;
        }
        if ca > cb {
            proof {
                assert(lex_lt(b@.skip(i as int), a@.skip(i as int)));
                lemma_lex_lt_trichotomy(a@, b@);
            }
            return 1;
        }
        proof {
            assert(a@.skip(i as int).drop_first() =~= a@.skip(i as int + 1));
            assert(b@.skip(i as int).drop_first() =~= b@.skip(i as int + 1));
            assert(a@.skip(i as int)[0] == a@[i as int]);
            assert(b@.skip(i as int)[0] == b@[i as int]);
        }
        i = i + 1;
    }
    if a.len() == b.len() {
        proof {
            assert(a@ =~= b@);
            lemma_lex_lt_irrefl(a@);
        }
        0
    } else if a.len() < b.len() {
        proof {
            assert(i == a@.len());
            assert(a@.skip(i as int).len() == 0);
            assert(b@.skip(i as int).len() > 0);
            lemma_lex_lt_trichotomy(a@, b@);
        }
        -1
    } else {
        proof {
            assert(i == b@.len());
            assert(b@.skip(i as int).len() == 0);
            lemma_lex_lt_trichotomy(a@, b@);
        }
        1
    }
}

/// Opaque posting-location descriptor attached to a term in one segment's
/// dictionary. The merger copies it around but never interprets it.
#[derive(Clone, Copy, PartialEq, Eq, Structural, Debug)]
pub struct TermInfo {
    pub doc_freq: u32,
    pub postings_start: u64,
    pub postings_stop: u64,
}

/// A sequence of keys in strictly increasing byte-lexicographic order.
pub open spec fn sorted_strict(ks: Seq<Seq<u8>>) -> bool {
    forall|i: int, j: int| 0 <= i < j < ks.len() ==> lex_lt(#[trigger] ks[i], #[trigger] ks[j])
}

/// A forward-only cursor over one segment's sorted term dictionary.
///
/// A streamer starts positioned *before* its first entry (`pos() == -1`);
/// each `advance` moves one entry forward and reports whether an entry is
/// there. `keys()`, `infos()` and `pos()` are the specification view of the
/// cursor: the full entry list and the current position.
pub trait TermStreamer: Sized {
    /// All keys of the stream, in stream order.
    spec fn keys(&self) -> Seq<Seq<u8>>;

    /// The metadata attached to each key, parallel to `keys()`.
    spec fn infos(&self) -> Seq<TermInfo>;

    /// Current position: `-1` before the first entry, `keys().len()` when
    /// exhausted.
    spec fn pos(&self) -> int;

    /// Move to the next entry; report whether one exists.
    fn advance(&mut self) -> (r: bool)
        requires
            old(self).infos().len() == old(self).keys().len() as int,
            sorted_strict(old(self).keys()),
            -1 <= old(self).pos() < old(self).keys().len() as int,
        ensures
            final(self).keys() == old(self).keys(),
            final(self).infos() == old(self).infos(),
            final(self).pos() == old(self).pos() + 1,
            r == (final(self).pos() < final(self).keys().len() as int),
    ;

    /// The key under the cursor.
    fn key(&self) -> (r: Vec<u8>)
        requires
            self.infos().len() == self.keys().len() as int,
            sorted_strict(self.keys()),
            0 <= self.pos() < self.keys().len() as int,
        ensures
            r@ == self.keys()[self.pos()],
    ;

    /// The metadata under the cursor.
    fn value(&self) -> (r: TermInfo)
        requires
            self.infos().len() == self.keys().len() as int,
            sorted_strict(self.keys()),
            0 <= self.pos() < self.keys().len() as int,
        ensures
            r == self.infos()[self.pos()],
    ;
}

/// What the merger requires of every input stream: entry lists of equal
/// length, keys strictly increasing and duplicate-free, cursor in range.
pub open spec fn stream_wf<T: TermStreamer>(s: T) -> bool {
    &&& s.infos().len() == s.keys().len()
    &&& sorted_strict(s.keys())
    &&& -1 <= s.pos() <= s.keys().len() as int
}

/// An in-memory term stream over explicit entry vectors, the reference
/// implementation of [`TermStreamer`].
pub struct VecTermStreamer {
    entry_keys: Vec<Vec<u8>>,
    entry_infos: Vec<TermInfo>,
    started: bool,
    idx: usize,
}

impl VecTermStreamer {
    /// Build a stream over the given entries, which must already be in
    /// strictly increasing key order.
    pub fn new(entry_keys: Vec<Vec<u8>>, entry_infos: Vec<TermInfo>) -> (r: Self)
        requires
            entry_keys@.len() == entry_infos@.len(),
            sorted_strict(entry_keys@.map_values(|k: Vec<u8>| k@)),
        ensures
            r.keys() == entry_keys@.map_values(|k: Vec<u8>| k@),
            r.infos() == entry_infos@,
            r.pos() == -1,
            stream_wf(r),
    {
        VecTermStreamer { entry_keys, entry_infos, started: false, idx: 0 }
    }
}

impl TermStreamer for VecTermStreamer {
    closed spec fn keys(&self) -> Seq<Seq<u8>> {
        self.entry_keys@.map_values(|k: Vec<u8>| k@)
    }

    closed spec fn infos(&self) -> Seq<TermInfo> {
        self.entry_infos@
    }

    closed spec fn pos(&self) -> int {
        if !self.started {
            -1
        } else {
            self.idx as int
        }
    }

    fn advance(&mut self) -> (r: bool) {
        proof {
            assert(self.keys().len() == self.entry_keys@.len());
        }
        if !self.started {
            self.started = true;
            self.idx = 0;
        } else {
            assert(self.idx < self.entry_keys.len());
            self.idx = self.idx + 1;
        }
        self.idx < self.entry_keys.len()
    }

    fn key(&self) -> (r: Vec<u8>) {
        let k: &Vec<u8> = &self.entry_keys[self.idx];
        k.clone()
    }

    fn value(&self) -> (r: TermInfo) {
        self.entry_infos[self.idx]
    }
}

/// Transient pairing of one stream with the ordinal of the segment it came
/// from. Ordinals are assigned by input order and break ties among equal
/// keys deterministically.
pub struct HeapItem<T: TermStreamer> {
    pub streamer: T,
    pub segment_ord: usize,
}

spec fn item_wf<T: TermStreamer>(it: HeapItem<T>) -> bool {
    stream_wf(it.streamer)
}

spec fn item_positioned<T: TermStreamer>(it: HeapItem<T>) -> bool {
    0 <= it.streamer.pos() < it.streamer.keys().len() as int
}

spec fn item_key<T: TermStreamer>(it: HeapItem<T>) -> Seq<u8> {
    it.streamer.keys()[it.streamer.pos()]
}

spec fn item_info<T: TermStreamer>(it: HeapItem<T>) -> TermInfo {
    it.streamer.infos()[it.streamer.pos()]
}

/// Non-strict order on items by their (current key, ordinal) pair.
spec fn item_le<T: TermStreamer>(x: HeapItem<T>, y: HeapItem<T>) -> bool {
    ||| lex_lt(item_key(x), item_key(y))
    ||| (item_key(x) == item_key(y) && x.segment_ord <= y.segment_ord)
}

proof fn lemma_item_le_trans<T: TermStreamer>(x: HeapItem<T>, y: HeapItem<T>, z: HeapItem<T>)
    requires
        item_le(x, y),
        item_le(y, z),
    ensures
        item_le(x, z),
{
    if lex_lt(item_key(x), item_key(y)) && lex_lt(item_key(y), item_key(z)) {
        lemma_lex_lt_trans(item_key(x), item_key(y), item_key(z));
    }
}

/// The key `k` occurs at or after the item's current position.
spec fn avail_contains<T: TermStreamer>(it: HeapItem<T>, k: Seq<u8>) -> bool {
    exists|j: int|
        it.streamer.pos() <= j < it.streamer.keys().len() && (#[trigger] it.streamer.keys()[j])
            == k
}

/// The key `k` occurs strictly after the item's current position.
spec fn future_contains<T: TermStreamer>(it: HeapItem<T>, k: Seq<u8>) -> bool {
    exists|j: int|
        it.streamer.pos() < j < it.streamer.keys().len() && (#[trigger] it.streamer.keys()[j])
            == k
}

/// The item's next entry (the one a single `advance` reaches) carries `k`.
spec fn next_is<T: TermStreamer>(it: HeapItem<T>, k: Seq<u8>) -> bool {
    it.streamer.pos() + 1 < it.streamer.keys().len() && it.streamer.keys()[it.streamer.pos() + 1]
        == k
}

spec fn next_info<T: TermStreamer>(it: HeapItem<T>) -> TermInfo {
    it.streamer.infos()[it.streamer.pos() + 1]
}

/// `n` is `o` moved one entry forward.
spec fn advanced_from<T: TermStreamer>(n: HeapItem<T>, o: HeapItem<T>) -> bool {
    &&& n.segment_ord == o.segment_ord
    &&& n.streamer.keys() == o.streamer.keys()
    &&& n.streamer.infos() == o.streamer.infos()
    &&& n.streamer.pos() == o.streamer.pos() + 1
}

spec fn ords_unique<T: TermStreamer>(s: Seq<HeapItem<T>>) -> bool {
    forall|i: int, j: int|
        0 <= i < j < s.len() ==> (#[trigger] s[i]).segment_ord != (#[trigger] s[j]).segment_ord
}

spec fn ords_disjoint<T: TermStreamer>(a: Seq<HeapItem<T>>, b: Seq<HeapItem<T>>) -> bool {
    forall|i: int, j: int|
        0 <= i < a.len() && 0 <= j < b.len() ==> (#[trigger] a[i]).segment_ord != (
        #[trigger] b[j]).segment_ord
}

/// Ordinals of a group listing are strictly ascending (hence unique).
pub open spec fn pairs_ascending(ps: Seq<(usize, TermInfo)>) -> bool {
    forall|i: int, j: int| 0 <= i < j < ps.len() ==> (#[trigger] ps[i]).0 < (#[trigger] ps[j]).0
}

/// Merges N sorted term streams into one deduplicated sorted stream of
/// keys, each annotated with the ordinals of the streams that carry it.
///
/// After construction, each call of [`TermMerger::advance`] yields the
/// smallest key not yielded before, so the key sequence of a full merge is
/// the strictly increasing enumeration of the union of all input keys.
pub struct TermMerger<T: TermStreamer> {
    heap: Vec<HeapItem<T>>,
    current_streamers: Vec<HeapItem<T>>,
    initial: Ghost<Set<Seq<u8>>>,
    emitted: Ghost<Seq<Seq<u8>>>,
}

impl<T: TermStreamer> TermMerger<T> {
    spec fn has_rem(self, k: Seq<u8>) -> bool {
        ||| (exists|i: int|
            0 <= i < self.heap@.len() && avail_contains(#[trigger] self.heap@[i], k))
        ||| (exists|i: int|
            0 <= i < self.current_streamers@.len() && future_contains(
                #[trigger] self.current_streamers@[i],
                k,
            ))
    }

    /// The set of input keys the merge has not yielded yet.
    pub closed spec fn remaining(self) -> Set<Seq<u8>> {
        Set::new(|k: Seq<u8>| self.has_rem(k))
    }

    /// The keys yielded so far, in yield order.
    pub closed spec fn emitted(self) -> Seq<Seq<u8>> {
        self.emitted@
    }

    /// The union of all keys of the input streams.
    pub closed spec fn initial(self) -> Set<Seq<u8>> {
        self.initial@
    }

    /// The current merged key (meaningful when positioned).
    pub closed spec fn key_spec(self) -> Seq<u8> {
        item_key(self.current_streamers@[0])
    }

    /// A current key is established and its group may be read.
    pub closed spec fn positioned(self) -> bool {
        &&& self.current_streamers@.len() > 0
        &&& forall|i: int|
            0 <= i < self.current_streamers@.len() ==> item_positioned(
                #[trigger] self.current_streamers@[i],
            ) && item_key(self.current_streamers@[i]) == self.key_spec()
        &&& forall|i: int, j: int|
            0 <= i < j < self.current_streamers@.len() ==> (
            #[trigger] self.current_streamers@[i]).segment_ord < (
            #[trigger] self.current_streamers@[j]).segment_ord
        &&& self.emitted@.len() > 0
        &&& self.emitted@.last() == self.key_spec()
        &&& forall|i: int|
            0 <= i < self.heap@.len() ==> lex_lt(
                self.key_spec(),
                item_key(#[trigger] self.heap@[i]),
            )
    }

    spec fn fresh_state(self) -> bool {
        &&& self.heap@.len() == 0
        &&& self.emitted@.len() == 0
        &&& forall|i: int|
            0 <= i < self.current_streamers@.len() ==> (
            #[trigger] self.current_streamers@[i]).streamer.pos() == -1
    }

    spec fn done_state(self) -> bool {
        self.heap@.len() == 0 && self.current_streamers@.len() == 0
    }

    spec fn items_ok(self) -> bool {
        &&& forall|i: int|
            0 <= i < self.heap@.len() ==> item_wf(#[trigger] self.heap@[i]) && item_positioned(
                self.heap@[i],
            )
        &&& forall|i: int|
            0 <= i < self.current_streamers@.len() ==> item_wf(
                #[trigger] self.current_streamers@[i],
            )
    }

    /// The merger's invariant: streams well formed, ordinals unique, the
    /// yielded keys strictly increasing and all below every key still to
    /// come, and the yielded and remaining keys partitioning the input keys.
    pub closed spec fn wf(self) -> bool {
        &&& self.items_ok()
        &&& ords_unique(self.heap@)
        &&& ords_unique(self.current_streamers@)
        &&& ords_disjoint(self.heap@, self.current_streamers@)
        &&& sorted_strict(self.emitted@)
        &&& forall|i: int, k: Seq<u8>|
            #![trigger self.emitted@[i], self.has_rem(k)]
            0 <= i < self.emitted@.len() && self.has_rem(k) ==> lex_lt(self.emitted@[i], k)
        &&& forall|k: Seq<u8>|
            #![trigger self.initial@.contains(k)]
            #![trigger self.emitted@.contains(k)]
            #![trigger self.has_rem(k)]
            self.initial@.contains(k) <==> (self.emitted@.contains(k) || self.has_rem(k))
        &&& (self.fresh_state() || self.positioned() || self.done_state())
    }

    /// The (ordinal, info) pairs of the current group, in ascending
    /// ordinal order.
    pub closed spec fn group_pairs(self) -> Seq<(usize, TermInfo)> {
        self.current_streamers@.map_values(
            |it: HeapItem<T>| (it.segment_ord, item_info(it)),
        )
    }

    /// The current group as a set of (ordinal, info) pairs.
    pub closed spec fn group_set(self) -> Set<(usize, TermInfo)> {
        Set::new(
            |p: (usize, TermInfo)|
                exists|i: int|
                    0 <= i < self.current_streamers@.len() && p == ((
                    #[trigger] self.current_streamers@[i]).segment_ord, item_info(
                        self.current_streamers@[i],
                    )),
        )
    }

    /// The (ordinal, info) pairs whose stream presents key `k` as its next
    /// entry: for a queued stream its current entry, for a stream of the
    /// current group the entry after its current one.
    pub closed spec fn candidate_pairs(self, k: Seq<u8>) -> Set<(usize, TermInfo)> {
        Set::new(
            |p: (usize, TermInfo)|
                {
                    ||| (exists|i: int|
                        0 <= i < self.heap@.len() && item_key(#[trigger] self.heap@[i]) == k && p
                            == (self.heap@[i].segment_ord, item_info(self.heap@[i])))
                    ||| (exists|i: int|
                        0 <= i < self.current_streamers@.len() && next_is(
                            #[trigger] self.current_streamers@[i],
                            k,
                        ) && p == (self.current_streamers@[i].segment_ord, next_info(
                            self.current_streamers@[i],
                        )))
                },
        )
    }

    /// Stream of the merged term dictionary over the given input streams,
    /// which are assigned ordinals by their position in the list. Every
    /// stream must be unstarted and sorted; the merger is not yet
    /// positioned until the first `advance`.
    pub fn new(streams: Vec<T>) -> (r: TermMerger<T>)
        requires
            forall|i: int|
                0 <= i < streams@.len() ==> stream_wf(#[trigger] streams@[i]) && streams@[i].pos()
                    == -1,
        ensures
            r.wf(),
            r.emitted() == Seq::<Seq<u8>>::empty(),
            r.initial() == Set::new(
                |k: Seq<u8>|
                    exists|i: int|
                        0 <= i < streams@.len() && (#[trigger] streams@[i].keys()).contains(k),
            ),
            r.remaining() == r.initial(),
    {
        let ghost orig = streams@;
        let mut streams = streams;
        let n: usize = streams.len();
        let mut items: Vec<HeapItem<T>> = Vec::new();
        let mut ord: usize = 0;
        while ord < n
            invariant
                n as int == orig.len(),
                items@.len() + streams@.len() == orig.len(),
                ord == items@.len(),
                streams@ == orig.skip(items@.len() as int),
                forall|i: int|
                    0 <= i < items@.len() ==> (#[trigger] items@[i]).segment_ord == i
                        && items@[i].streamer == orig[i],
            decreases n - ord,
        {
            let s = streams.remove(0);
            proof {
                assert(s == orig[items@.len() as int]);
                assert(streams@ =~= orig.skip(items@.len() as int + 1));
            }
            items.push(HeapItem { streamer: s, segment_ord: ord });
            ord = ord + 1;
        }
        let ghost init = Set::new(
            |k: Seq<u8>|
                exists|i: int| 0 <= i < orig.len() && (#[trigger] orig[i].keys()).contains(k),
        );
        let r = TermMerger {
            heap: Vec::new(),
            current_streamers: items,
            initial: Ghost(init),
            emitted: Ghost(Seq::empty()),
        };
        proof {
            assert forall|k: Seq<u8>| r.initial@.contains(k) implies r.has_rem(k) by {
                let i = choose|i: int| 0 <= i < orig.len() && (#[trigger] orig[i].keys()).contains(
                    k,
                );
                let j = choose|j: int| 0 <= j < orig[i].keys().len() && orig[i].keys()[j] == k;
                assert(r.current_streamers@[i].streamer == orig[i]);
                assert(r.current_streamers@[i].streamer.keys()[j] == k);
                assert(future_contains(r.current_streamers@[i], k));
            }
            assert forall|k: Seq<u8>| r.has_rem(k) implies r.initial@.contains(k) by {
                let i = choose|i: int|
                    0 <= i < r.current_streamers@.len() && future_contains(
                        #[trigger] r.current_streamers@[i],
                        k,
                    );
                assert(orig[i].keys().contains(k));
            }
            assert(r.remaining() =~= r.initial@);
            assert(r.wf());
        }
        r
    }

    /// The current merged key: the key shared by every member of the
    /// current group. Callable only after an `advance` that returned true.
    pub fn key(&self) -> (r: Vec<u8>)
        requires
            self.wf(),
            self.positioned(),
        ensures
            r@ == self.key_spec(),
    {
        self.current_streamers[0].streamer.key()
    }

    /// The (segment ordinal, term info) pairs of the streams that carry
    /// the current key, in ascending ordinal order. Callable only after an
    /// `advance` that returned true.
    pub fn current_segment_ords_and_term_infos(&self) -> (r: Vec<(usize, TermInfo)>)
        requires
            self.wf(),
            self.positioned(),
        ensures
            r@ == self.group_pairs(),
            pairs_ascending(r@),
    {
        let mut r: Vec<(usize, TermInfo)> = Vec::new();
        let mut i: usize = 0;
        while i < self.current_streamers.len()
            invariant
                self.wf(),
                self.positioned(),
                0 <= i <= self.current_streamers@.len(),
                r@.len() == i,
                forall|j: int|
                    0 <= j < i ==> #[trigger] r@[j] == (
                    self.current_streamers@[j].segment_ord,
                    item_info(self.current_streamers@[j])),
            decreases self.current_streamers@.len() - i,
        {
            let it = &self.current_streamers[i];
            r.push((it.segment_ord, it.streamer.value()));
            i = i + 1;
        }
        proof {
            assert(r@ =~= self.group_pairs());
        }
        r
    }
}

/// Index of a least item of a non-empty item list under the
/// (key, ordinal) pair order.
fn find_min_index<T: TermStreamer>(v: &Vec<HeapItem<T>>) -> (mi: usize)
    requires
        v@.len() > 0,
        forall|i: int| 0 <= i < v@.len() ==> item_wf(#[trigger] v@[i]) && item_positioned(v@[i]),
    ensures
        0 <= mi < v@.len(),
        forall|j: int| 0 <= j < v@.len() ==> item_le(v@[mi as int], #[trigger] v@[j]),
{
    let mut mi: usize = 0;
    let mut i: usize = 1;
    while i < v.len()
        invariant
            v@.len() > 0,
            0 <= mi < i <= v@.len(),
            forall|t: int| 0 <= t < v@.len() ==> item_wf(#[trigger] v@[t]) && item_positioned(v@[t]),
            forall|j: int| 0 <= j < i ==> item_le(v@[mi as int], #[trigger] v@[j]),
        decreases v@.len() - i,
    {
        let ki = v[i].streamer.key();
        let km = v[mi].streamer.key();
        let c = bytes_compare(ki.as_slice(), km.as_slice());
        if c == -1 || (c == 0 && v[i].segment_ord < v[mi].segment_ord) {
            let ghost old_mi = mi as int;
            mi = i;
            proof {
                assert(item_le(v@[mi as int], v@[old_mi]));
                assert forall|j: int| 0 <= j < i + 1 implies item_le(v@[mi as int], #[trigger] v@[j]) by {
                    if j < i {
                        lemma_item_le_trans(v@[mi as int], v@[old_mi], v@[j]);
                    }
                }
            }
        } else {
            proof {
                assert(item_le(v@[mi as int], v@[i as int]));
            }
        }
        i = i + 1;
    }
    mi
}

proof fn lemma_push_contains<T: TermStreamer>(s: Seq<HeapItem<T>>, x: HeapItem<T>)
    ensures
        forall|y: HeapItem<T>| s.push(x).contains(y) <==> (s.contains(y) || y == x),
{
    assert forall|y: HeapItem<T>| s.push(x).contains(y) implies (s.contains(y) || y == x) by {
        let t = choose|t: int| 0 <= t < s.push(x).len() && s.push(x)[t] == y;
        if t < s.len() {
            assert(s[t] == y);
        }
    }
    assert forall|y: HeapItem<T>| (s.contains(y) || y == x) implies s.push(x).contains(y) by {
        if s.contains(y) {
            let t = choose|t: int| 0 <= t < s.len() && s[t] == y;
            assert(s.push(x)[t] == y);
        } else {
            assert(s.push(x)[s.len() as int] == y);
        }
    }
}

proof fn lemma_remove_contains<T: TermStreamer>(s: Seq<HeapItem<T>>, i: int)
    requires
        0 <= i < s.len(),
        ords_unique(s),
    ensures
        forall|y: HeapItem<T>| s.remove(i).contains(y) <==> (s.contains(y) && y != s[i]),
        ords_unique(s.remove(i)),
{
    let r = s.remove(i);
    assert forall|y: HeapItem<T>| r.contains(y) implies (s.contains(y) && y != s[i]) by {
        let t = choose|t: int| 0 <= t < r.len() && r[t] == y;
        if t < i {
            assert(s[t] == y);
            if y == s[i] {
                assert(s[t].segment_ord != s[i].segment_ord);
            }
        } else {
            assert(s[t + 1] == y);
            if y == s[i] {
                assert(s[i].segment_ord != s[t + 1].segment_ord);
            }
        }
    }
    assert forall|y: HeapItem<T>| (s.contains(y) && y != s[i]) implies r.contains(y) by {
        let t = choose|t: int| 0 <= t < s.len() && s[t] == y;
        if t < i {
            assert(r[t] == y);
        } else {
            assert(t > i);
            assert(r[t - 1] == y);
        }
    }
    assert forall|a: int, b: int| 0 <= a < b < r.len() implies (#[trigger] r[a]).segment_ord != (
    #[trigger] r[b]).segment_ord by {
        let a0: int = if a < i { a } else { a + 1 };
        let b0: int = if b < i { b } else { b + 1 };
        assert(r[a] == s[a0]);
        assert(r[b] == s[b0]);
    }
}

/// The stream facts `advance_segments` works from: every group member is
/// well formed and not yet exhausted.
spec fn group_advanceable<T: TermStreamer>(cur0: Seq<HeapItem<T>>) -> bool {
    forall|i: int|
        0 <= i < cur0.len() ==> item_wf(#[trigger] cur0[i]) && (
        #[trigger] cur0[i]).streamer.pos() < cur0[i].streamer.keys().len() as int
}

/// Queue state after some group members were advanced: the old queue is an
/// unchanged prefix, every appended item is an advanced group member with
/// index at least `m`, every group member at index at least `m` with a next
/// entry was appended, and all items are positioned with unique ordinals.
spec fn segments_inv<T: TermStreamer>(
    heap0: Seq<HeapItem<T>>,
    cur0: Seq<HeapItem<T>>,
    h: Seq<HeapItem<T>>,
    m: int,
) -> bool {
    &&& h.len() >= heap0.len()
    &&& h.subrange(0, heap0.len() as int) == heap0
    &&& forall|j: int|
        heap0.len() <= j < h.len() ==> exists|i: int|
            m <= i < cur0.len() && advanced_from(#[trigger] h[j], cur0[i])
    &&& forall|i: int|
        m <= i < cur0.len() && (#[trigger] cur0[i]).streamer.pos() + 1
            < cur0[i].streamer.keys().len() as int ==> exists|j: int|
            heap0.len() <= j < h.len() && advanced_from(h[j], cur0[i])
    &&& forall|j: int|
        0 <= j < h.len() ==> item_wf(#[trigger] h[j]) && item_positioned(h[j])
    &&& ords_unique(h)
    &&& ords_disjoint(h, cur0.take(m))
}

proof fn lemma_segments_step_alive<T: TermStreamer>(
    heap0: Seq<HeapItem<T>>,
    cur0: Seq<HeapItem<T>>,
    hpre: Seq<HeapItem<T>>,
    m: int,
    item: HeapItem<T>,
)
    requires
        1 <= m <= cur0.len(),
        group_advanceable(cur0),
        ords_unique(cur0),
        segments_inv(heap0, cur0, hpre, m),
        advanced_from(item, cur0[m - 1]),
        item_wf(item),
        item_positioned(item),
    ensures
        segments_inv(heap0, cur0, hpre.push(item), m - 1),
{
    let hpost = hpre.push(item);
    assert(hpost.subrange(0, heap0.len() as int) =~= hpre.subrange(0, heap0.len() as int));
    assert forall|j: int| heap0.len() <= j < hpost.len() implies exists|i: int|
        m - 1 <= i < cur0.len() && advanced_from(#[trigger] hpost[j], cur0[i]) by {
        if j < hpre.len() {
            assert(hpost[j] == hpre[j]);
            let i = choose|i: int| m <= i < cur0.len() && advanced_from(hpre[j], cur0[i]);
            assert(advanced_from(hpost[j], cur0[i]));
        } else {
            assert(hpost[j] == item);
            assert(advanced_from(hpost[j], cur0[m - 1]));
        }
    }
    assert forall|i: int|
        m - 1 <= i < cur0.len() && (#[trigger] cur0[i]).streamer.pos() + 1
            < cur0[i].streamer.keys().len() as int implies exists|j: int|
        heap0.len() <= j < hpost.len() && advanced_from(hpost[j], cur0[i]) by {
        if i == m - 1 {
            assert(hpost[hpre.len() as int] == item);
            assert(advanced_from(hpost[hpre.len() as int], cur0[m - 1]));
        } else {
            let j = choose|j: int|
                heap0.len() <= j < hpre.len() && advanced_from(hpre[j], cur0[i]);
            assert(hpost[j] == hpre[j]);
            assert(advanced_from(hpost[j], cur0[i]));
        }
    }
    assert forall|a: int, b: int| 0 <= a < b < hpost.len() implies (
    #[trigger] hpost[a]).segment_ord != (#[trigger] hpost[b]).segment_ord by {
        if b < hpre.len() {
            assert(hpost[a] == hpre[a] && hpost[b] == hpre[b]);
        } else {
            assert(hpost[b] == item);
            assert(hpost[a] == hpre[a]);
            if a < heap0.len() {
                assert(hpre[a] == heap0[a]);
                assert(cur0.take(m)[m - 1] == cur0[m - 1]);
                assert(hpre[a].segment_ord != cur0[m - 1].segment_ord);
            } else {
                let i = choose|i: int| m <= i < cur0.len() && advanced_from(hpre[a], cur0[i]);
                assert(cur0[i].segment_ord != cur0[m - 1].segment_ord);
            }
        }
    }
    assert forall|a: int, b: int|
        0 <= a < hpost.len() && 0 <= b < cur0.take(m - 1).len() implies (
    #[trigger] hpost[a]).segment_ord != (#[trigger] cur0.take(m - 1)[b]).segment_ord by {
        assert(cur0.take(m - 1)[b] == cur0[b]);
        assert(cur0.take(m)[b] == cur0[b]);
        if a < hpre.len() {
            assert(hpost[a] == hpre[a]);
            assert(hpre[a].segment_ord != cur0.take(m)[b].segment_ord);
        } else {
            assert(hpost[a] == item);
            assert(cur0[m - 1].segment_ord != cur0[b].segment_ord);
        }
    }
}

proof fn lemma_segments_step_drop<T: TermStreamer>(
    heap0: Seq<HeapItem<T>>,
    cur0: Seq<HeapItem<T>>,
    h: Seq<HeapItem<T>>,
    m: int,
)
    requires
        1 <= m <= cur0.len(),
        group_advanceable(cur0),
        ords_unique(cur0),
        segments_inv(heap0, cur0, h, m),
        cur0[m - 1].streamer.pos() + 1 >= cur0[m - 1].streamer.keys().len() as int,
    ensures
        segments_inv(heap0, cur0, h, m - 1),
{
    assert forall|j: int| heap0.len() <= j < h.len() implies exists|i: int|
        m - 1 <= i < cur0.len() && advanced_from(#[trigger] h[j], cur0[i]) by {
        let i = choose|i: int| m <= i < cur0.len() && advanced_from(h[j], cur0[i]);
        assert(m - 1 <= i < cur0.len() && advanced_from(h[j], cur0[i]));
    }
    assert forall|i: int|
        m - 1 <= i < cur0.len() && (#[trigger] cur0[i]).streamer.pos() + 1
            < cur0[i].streamer.keys().len() as int implies exists|j: int|
        heap0.len() <= j < h.len() && advanced_from(h[j], cur0[i]) by {
        assert(i != m - 1);
    }
    assert forall|a: int, b: int|
        0 <= a < h.len() && 0 <= b < cur0.take(m - 1).len() implies (
    #[trigger] h[a]).segment_ord != (#[trigger] cur0.take(m - 1)[b]).segment_ord by {
        assert(cur0.take(m - 1)[b] == cur0[b]);
        assert(cur0.take(m)[b] == cur0[b]);
        assert(h[a].segment_ord != cur0.take(m)[b].segment_ord);
    }
}

impl<T: TermStreamer> TermMerger<T> {
    /// Move every stream of the current group one entry forward; streams
    /// with data left go back to the pending queue, exhausted ones are
    /// dropped for good.
    fn advance_segments(&mut self)
        requires
            forall|i: int|
                0 <= i < old(self).heap@.len() ==> item_wf(#[trigger] old(self).heap@[i])
                    && item_positioned(old(self).heap@[i]),
            group_advanceable(old(self).current_streamers@),
            ords_unique(old(self).heap@),
            ords_unique(old(self).current_streamers@),
            ords_disjoint(old(self).heap@, old(self).current_streamers@),
        ensures
            final(self).current_streamers@.len() == 0,
            final(self).emitted@ == old(self).emitted@,
            final(self).initial@ == old(self).initial@,
            segments_inv(old(self).heap@, old(self).current_streamers@, final(self).heap@, 0),
    {
        let ghost heap0 = self.heap@;
        let ghost cur0 = self.current_streamers@;
        proof {
            assert(self.heap@.subrange(0, heap0.len() as int) =~= heap0);
            assert(cur0.take(cur0.len() as int) =~= cur0);
        }
        while self.current_streamers.len() > 0
            invariant
                group_advanceable(cur0),
                ords_unique(cur0),
                self.current_streamers@ == cur0.take(self.current_streamers@.len() as int),
                self.current_streamers@.len() <= cur0.len(),
                self.emitted@ == old(self).emitted@,
                self.initial@ == old(self).initial@,
                segments_inv(heap0, cur0, self.heap@, self.current_streamers@.len() as int),
            decreases self.current_streamers@.len(),
        {
            let ghost m = self.current_streamers@.len() as int;
            proof {
                assert(self.current_streamers@[m - 1] == cur0.take(m)[m - 1]);
                assert(item_wf(cur0[m - 1]));
            }
            let popped = self.current_streamers.pop();
            let mut heap_item = popped.unwrap();
            proof {
                assert(heap_item == cur0[m - 1]);
                assert(self.current_streamers@ =~= cur0.take(m - 1));
            }
            let alive = heap_item.streamer.advance();
            if alive {
                proof {
                    assert(advanced_from(heap_item, cur0[m - 1]));
                    assert(item_wf(heap_item) && item_positioned(heap_item));
                    lemma_segments_step_alive(heap0, cur0, self.heap@, m, heap_item);
                }
                self.heap.push(heap_item);
            } else {
                proof {
                    assert(cur0[m - 1].streamer.pos() + 1 >= cur0[m - 1].streamer.keys().len());
                    lemma_segments_step_drop(heap0, cur0, self.heap@, m);
                }
            }
        }
        proof {
            assert(self.current_streamers@.len() == 0);
        }
    }
}

impl<T: TermStreamer> TermMerger<T> {
    /// After `advance_segments`, the keys still to come are exactly the
    /// keys that were still to come before.
    proof fn lemma_segments_preserves_rem(pre: Self, mid: Self)
        requires
            forall|i: int|
                0 <= i < pre.heap@.len() ==> item_wf(#[trigger] pre.heap@[i]) && item_positioned(
                    pre.heap@[i],
                ),
            group_advanceable(pre.current_streamers@),
            mid.current_streamers@.len() == 0,
            segments_inv(pre.heap@, pre.current_streamers@, mid.heap@, 0),
        ensures
            forall|k: Seq<u8>| #![trigger pre.has_rem(k)] #![trigger mid.has_rem(k)]
                pre.has_rem(k) <==> mid.has_rem(k),
    {
        let l = pre.heap@.len() as int;
        assert forall|t: int| 0 <= t < l implies mid.heap@[t] == pre.heap@[t] by {
            assert(mid.heap@.subrange(0, l)[t] == pre.heap@[t]);
        }
        assert forall|k: Seq<u8>| pre.has_rem(k) implies mid.has_rem(k) by {
            if exists|i: int| 0 <= i < pre.heap@.len() && avail_contains(#[trigger] pre.heap@[i], k) {
                let i = choose|i: int|
                    0 <= i < pre.heap@.len() && avail_contains(#[trigger] pre.heap@[i], k);
                assert(mid.heap@[i] == pre.heap@[i]);
                assert(avail_contains(mid.heap@[i], k));
            } else {
                let i = choose|i: int|
                    0 <= i < pre.current_streamers@.len() && future_contains(
                        #[trigger] pre.current_streamers@[i],
                        k,
                    );
                let o = pre.current_streamers@[i];
                let j = choose|j: int|
                    o.streamer.pos() < j < o.streamer.keys().len() && (
                    #[trigger] o.streamer.keys()[j]) == k;
                assert(o.streamer.pos() + 1 < o.streamer.keys().len());
                let t = choose|t: int|
                    l <= t < mid.heap@.len() && advanced_from(mid.heap@[t], o);
                assert(mid.heap@[t].streamer.keys()[j] == k);
                assert(avail_contains(mid.heap@[t], k));
            }
        }
        assert forall|k: Seq<u8>| mid.has_rem(k) implies pre.has_rem(k) by {
            let t = choose|t: int|
                0 <= t < mid.heap@.len() && avail_contains(#[trigger] mid.heap@[t], k);
            if t < l {
                assert(mid.heap@[t] == pre.heap@[t]);
                assert(avail_contains(pre.heap@[t], k));
            } else {
                let i = choose|i: int|
                    0 <= i < pre.current_streamers@.len() && advanced_from(
                        mid.heap@[t],
                        pre.current_streamers@[i],
                    );
                let o = pre.current_streamers@[i];
                let j = choose|j: int|
                    mid.heap@[t].streamer.pos() <= j < mid.heap@[t].streamer.keys().len() && (
                    #[trigger] mid.heap@[t].streamer.keys()[j]) == k;
                assert(o.streamer.keys()[j] == k);
                assert(future_contains(o, k));
            }
        }
    }

    /// After the gather loop, the keys still to come are the keys that
    /// were still to come before extraction, minus the merged key.
    proof fn lemma_rem_after_gather(mid: Self, post: Self, k: Seq<u8>)
        requires
            forall|t: int|
                0 <= t < mid.heap@.len() ==> item_wf(#[trigger] mid.heap@[t]) && item_positioned(
                    mid.heap@[t],
                ),
            mid.current_streamers@.len() == 0,
            forall|i: int|
                0 <= i < post.current_streamers@.len() ==> item_wf(
                    #[trigger] post.current_streamers@[i],
                ) && item_positioned(post.current_streamers@[i]) && item_key(
                    post.current_streamers@[i],
                ) == k,
            forall|j: int|
                0 <= j < post.heap@.len() ==> item_wf(#[trigger] post.heap@[j])
                    && item_positioned(post.heap@[j]) && lex_lt(k, item_key(post.heap@[j])),
            forall|y: HeapItem<T>| #![trigger mid.heap@.contains(y)]
                #![trigger post.heap@.contains(y)]
                #![trigger post.current_streamers@.contains(y)]
                mid.heap@.contains(y) <==> (post.heap@.contains(y)
                    || post.current_streamers@.contains(y)),
        ensures
            forall|q: Seq<u8>| #![trigger post.has_rem(q)] #![trigger mid.has_rem(q)]
                post.has_rem(q) <==> (mid.has_rem(q) && q != k),
    {
        assert forall|q: Seq<u8>| post.has_rem(q) implies (mid.has_rem(q) && q != k) by {
            if exists|j: int|
                0 <= j < post.heap@.len() && avail_contains(#[trigger] post.heap@[j], q) {
                let j = choose|j: int|
                    0 <= j < post.heap@.len() && avail_contains(#[trigger] post.heap@[j], q);
                let it = post.heap@[j];
                let t = choose|t: int|
                    it.streamer.pos() <= t < it.streamer.keys().len() && (
                    #[trigger] it.streamer.keys()[t]) == q;
                assert(lex_le(item_key(it), q));
                lemma_lex_le_trans(k, item_key(it), q);
                assert(lex_lt(k, q)) by {
                    if !lex_lt(k, q) {
                        assert(k == q);
                        lemma_lex_lt_trichotomy(k, item_key(it));
                    }
                }
                lemma_lex_lt_trichotomy(k, q);
                assert(post.heap@.contains(it));
                assert(mid.heap@.contains(it));
                let u = choose|u: int| 0 <= u < mid.heap@.len() && mid.heap@[u] == it;
                assert(avail_contains(mid.heap@[u], q));
            } else {
                let i = choose|i: int|
                    0 <= i < post.current_streamers@.len() && future_contains(
                        #[trigger] post.current_streamers@[i],
                        q,
                    );
                let it = post.current_streamers@[i];
                let t = choose|t: int|
                    it.streamer.pos() < t < it.streamer.keys().len() && (
                    #[trigger] it.streamer.keys()[t]) == q;
                assert(lex_lt(item_key(it), q));
                lemma_lex_lt_trichotomy(k, q);
                assert(post.current_streamers@.contains(it));
                assert(mid.heap@.contains(it));
                let u = choose|u: int| 0 <= u < mid.heap@.len() && mid.heap@[u] == it;
                assert(avail_contains(mid.heap@[u], q));
            }
        }
        assert forall|q: Seq<u8>| (mid.has_rem(q) && q != k) implies post.has_rem(q) by {
            let u = choose|u: int|
                0 <= u < mid.heap@.len() && avail_contains(#[trigger] mid.heap@[u], q);
            let it = mid.heap@[u];
            assert(mid.heap@.contains(it));
            if post.heap@.contains(it) {
                let j = choose|j: int| 0 <= j < post.heap@.len() && post.heap@[j] == it;
                assert(avail_contains(post.heap@[j], q));
            } else {
                let i = choose|i: int|
                    0 <= i < post.current_streamers@.len() && post.current_streamers@[i] == it;
                let t = choose|t: int|
                    it.streamer.pos() <= t < it.streamer.keys().len() && (
                    #[trigger] it.streamer.keys()[t]) == q;
                assert(item_key(post.current_streamers@[i]) == k);
                assert(t > it.streamer.pos());
                assert(future_contains(post.current_streamers@[i], q));
            }
        }
    }

    /// After the gather loop, the current group is exactly the set of
    /// candidate pairs of the pre-advance state for the merged key.
    #[verifier::rlimit(100)]
    proof fn lemma_group_matches_candidates(pre: Self, mid: Self, post: Self, k: Seq<u8>)
        requires
            forall|i: int|
                0 <= i < pre.heap@.len() ==> item_wf(#[trigger] pre.heap@[i]) && item_positioned(
                    pre.heap@[i],
                ),
            group_advanceable(pre.current_streamers@),
            mid.current_streamers@.len() == 0,
            segments_inv(pre.heap@, pre.current_streamers@, mid.heap@, 0),
            forall|i: int|
                0 <= i < post.current_streamers@.len() ==> item_wf(
                    #[trigger] post.current_streamers@[i],
                ) && item_positioned(post.current_streamers@[i]) && item_key(
                    post.current_streamers@[i],
                ) == k,
            forall|j: int|
                0 <= j < post.heap@.len() ==> item_wf(#[trigger] post.heap@[j])
                    && item_positioned(post.heap@[j]) && lex_lt(k, item_key(post.heap@[j])),
            forall|y: HeapItem<T>| #![trigger mid.heap@.contains(y)]
                #![trigger post.heap@.contains(y)]
                #![trigger post.current_streamers@.contains(y)]
                mid.heap@.contains(y) <==> (post.heap@.contains(y)
                    || post.current_streamers@.contains(y)),
        ensures
            post.group_set() == pre.candidate_pairs(k),
    {
        let l = pre.heap@.len() as int;
        assert forall|t: int| 0 <= t < l implies mid.heap@[t] == pre.heap@[t] by {
            assert(mid.heap@.subrange(0, l)[t] == pre.heap@[t]);
        }
        assert forall|p: (usize, TermInfo)| post.group_set().contains(p) implies pre.candidate_pairs(
            k,
        ).contains(p) by {
            let i = choose|i: int|
                0 <= i < post.current_streamers@.len() && p == ((
                #[trigger] post.current_streamers@[i]).segment_ord, item_info(
                    post.current_streamers@[i],
                ));
            let it = post.current_streamers@[i];
            assert(post.current_streamers@.contains(it));
            assert(mid.heap@.contains(it));
            let t = choose|t: int| 0 <= t < mid.heap@.len() && mid.heap@[t] == it;
            if t < l {
                assert(pre.heap@[t] == it);
                assert(item_key(pre.heap@[t]) == k);
                assert(p == (pre.heap@[t].segment_ord, item_info(pre.heap@[t])));
            } else {
                let i2 = choose|i2: int|
                    0 <= i2 < pre.current_streamers@.len() && advanced_from(
                        mid.heap@[t],
                        pre.current_streamers@[i2],
                    );
                let o = pre.current_streamers@[i2];
                assert(next_is(o, k));
                assert(p == (o.segment_ord, next_info(o)));
            }
        }
        assert forall|p: (usize, TermInfo)| pre.candidate_pairs(k).contains(p) implies post
            .group_set().contains(p) by {
            if exists|i: int|
                0 <= i < pre.heap@.len() && item_key(#[trigger] pre.heap@[i]) == k && p == (
                pre.heap@[i].segment_ord,
                item_info(pre.heap@[i]),
            ) {
                let i = choose|i: int|
                    0 <= i < pre.heap@.len() && item_key(#[trigger] pre.heap@[i]) == k && p == (
                    pre.heap@[i].segment_ord,
                    item_info(pre.heap@[i]),
                );
                let it = pre.heap@[i];
                assert(mid.heap@[i] == it);
                assert(mid.heap@.contains(it));
                if post.heap@.contains(it) {
                    let j = choose|j: int| 0 <= j < post.heap@.len() && post.heap@[j] == it;
                    assert(lex_lt(k, item_key(post.heap@[j])));
                    lemma_lex_lt_irrefl(k);
                    assert(false);
                }
                let j = choose|j: int|
                    0 <= j < post.current_streamers@.len() && post.current_streamers@[j] == it;
                assert(p == ((post.current_streamers@[j]).segment_ord, item_info(
                    post.current_streamers@[j],
                )));
            } else {
                let i = choose|i: int|
                    0 <= i < pre.current_streamers@.len() && next_is(
                        #[trigger] pre.current_streamers@[i],
                        k,
                    ) && p == (pre.current_streamers@[i].segment_ord, next_info(
                        pre.current_streamers@[i],
                    ));
                let o = pre.current_streamers@[i];
                assert(o.streamer.pos() + 1 < o.streamer.keys().len());
                let t = choose|t: int| l <= t < mid.heap@.len() && advanced_from(mid.heap@[t], o);
                let it = mid.heap@[t];
                assert(item_key(it) == k);
                assert(item_info(it) == next_info(o));
                assert(mid.heap@.contains(it));
                if post.heap@.contains(it) {
                    let j = choose|j: int| 0 <= j < post.heap@.len() && post.heap@[j] == it;
                    assert(lex_lt(k, item_key(post.heap@[j])));
                    lemma_lex_lt_irrefl(k);
                    assert(false);
                }
                let j = choose|j: int|
                    0 <= j < post.current_streamers@.len() && post.current_streamers@[j] == it;
                assert(p == ((post.current_streamers@[j]).segment_ord, item_info(
                    post.current_streamers@[j],
                )));
            }
        }
        assert(post.group_set() =~= pre.candidate_pairs(k));
    }
}

/// Invariant of the group-gathering phase: `h` and `c` partition the items
/// of `mid_heap` (the queue right after all streams were advanced), every
/// member of `c` sits on the merged key `k` with strictly ascending
/// ordinals, every item of `h` is strictly above `(k, last ordinal)` in the
/// (key, ordinal) pair order, and `head` is a least item of `mid_heap`.
spec fn gather_inv<T: TermStreamer>(
    mid_heap: Seq<HeapItem<T>>,
    h: Seq<HeapItem<T>>,
    c: Seq<HeapItem<T>>,
    head: HeapItem<T>,
    k: Seq<u8>,
) -> bool {
    &&& c.len() >= 1
    &&& item_key(head) == k
    &&& forall|i: int|
        0 <= i < c.len() ==> item_wf(#[trigger] c[i]) && item_positioned(c[i]) && item_key(c[i])
            == k
    &&& forall|i: int, j: int|
        0 <= i < j < c.len() ==> (#[trigger] c[i]).segment_ord < (#[trigger] c[j]).segment_ord
    &&& forall|j: int| 0 <= j < h.len() ==> item_wf(#[trigger] h[j]) && item_positioned(h[j])
    &&& ords_unique(h)
    &&& ords_unique(c)
    &&& ords_disjoint(h, c)
    &&& forall|j: int|
        0 <= j < h.len() ==> (lex_lt(k, item_key(#[trigger] h[j])) || (item_key(h[j]) == k
            && c.last().segment_ord < h[j].segment_ord))
    &&& forall|y: HeapItem<T>|
        #![trigger mid_heap.contains(y)]
        #![trigger h.contains(y)]
        #![trigger c.contains(y)]
        mid_heap.contains(y) <==> (h.contains(y) || c.contains(y))
    &&& forall|y: HeapItem<T>| #[trigger] mid_heap.contains(y) ==> item_le(head, y)
    &&& ords_unique(mid_heap)
    &&& forall|j: int|
        0 <= j < mid_heap.len() ==> item_wf(#[trigger] mid_heap[j]) && item_positioned(
            mid_heap[j],
        )
}

proof fn lemma_distinct_items_distinct_ords<T: TermStreamer>(
    s: Seq<HeapItem<T>>,
    x: HeapItem<T>,
    y: HeapItem<T>,
)
    requires
        ords_unique(s),
        s.contains(x),
        s.contains(y),
        x != y,
    ensures
        x.segment_ord != y.segment_ord,
{
    let a = choose|a: int| 0 <= a < s.len() && s[a] == x;
    let b = choose|b: int| 0 <= b < s.len() && s[b] == y;
    if a < b {
        assert(s[a].segment_ord != s[b].segment_ord);
    } else {
        assert(s[b].segment_ord != s[a].segment_ord);
    }
}

proof fn lemma_gather_init<T: TermStreamer>(mid_heap: Seq<HeapItem<T>>, idx0: int)
    requires
        ords_unique(mid_heap),
        forall|j: int|
            0 <= j < mid_heap.len() ==> item_wf(#[trigger] mid_heap[j]) && item_positioned(
                mid_heap[j],
            ),
        0 <= idx0 < mid_heap.len(),
        forall|j: int|
            0 <= j < mid_heap.len() ==> item_le(mid_heap[idx0], #[trigger] mid_heap[j]),
    ensures
        gather_inv(
            mid_heap,
            mid_heap.remove(idx0),
            Seq::<HeapItem<T>>::empty().push(mid_heap[idx0]),
            mid_heap[idx0],
            item_key(mid_heap[idx0]),
        ),
{
    let head = mid_heap[idx0];
    let k = item_key(head);
    let h = mid_heap.remove(idx0);
    let c = Seq::<HeapItem<T>>::empty().push(head);
    lemma_remove_contains(mid_heap, idx0);
    assert(c.last() == head);
    assert(c[0] == head);
    assert forall|j: int|
        0 <= j < h.len() implies (lex_lt(k, item_key(#[trigger] h[j])) || (item_key(h[j]) == k
            && c.last().segment_ord < h[j].segment_ord)) by {
        assert(h.contains(h[j]));
        assert(mid_heap.contains(h[j]) && h[j] != head);
        lemma_distinct_items_distinct_ords(mid_heap, head, h[j]);
        let u = choose|u: int| 0 <= u < mid_heap.len() && mid_heap[u] == h[j];
        assert(item_le(head, mid_heap[u]));
        lemma_lex_lt_trichotomy(k, item_key(h[j]));
    }
    assert forall|a: int, b: int|
        0 <= a < h.len() && 0 <= b < c.len() implies (#[trigger] h[a]).segment_ord != (
    #[trigger] c[b]).segment_ord by {
        assert(h.contains(h[a]));
        assert(mid_heap.contains(h[a]) && h[a] != head);
        lemma_distinct_items_distinct_ords(mid_heap, head, h[a]);
    }
    assert forall|y: HeapItem<T>| mid_heap.contains(y) implies (h.contains(y) || c.contains(
        y,
    )) by {
        if y == head {
            assert(c[0] == y);
        }
    }
    assert forall|y: HeapItem<T>| (h.contains(y) || c.contains(y)) implies mid_heap.contains(
        y,
    ) by {
        if c.contains(y) {
            let b = choose|b: int| 0 <= b < c.len() && c[b] == y;
            assert(y == head);
            assert(mid_heap[idx0] == y);
        }
    }
    assert forall|y: HeapItem<T>| #[trigger] mid_heap.contains(y) implies item_le(head, y) by {
        let u = choose|u: int| 0 <= u < mid_heap.len() && mid_heap[u] == y;
        assert(item_le(mid_heap[idx0], mid_heap[u]));
    }
}

#[verifier::rlimit(100)]
proof fn lemma_gather_step<T: TermStreamer>(
    mid_heap: Seq<HeapItem<T>>,
    h: Seq<HeapItem<T>>,
    c: Seq<HeapItem<T>>,
    head: HeapItem<T>,
    k: Seq<u8>,
    idx: int,
)
    requires
        gather_inv(mid_heap, h, c, head, k),
        0 <= idx < h.len(),
        forall|j: int| 0 <= j < h.len() ==> item_le(h[idx], #[trigger] h[j]),
        item_key(h[idx]) == k,
    ensures
        gather_inv(mid_heap, h.remove(idx), c.push(h[idx]), head, k),
{
    let it = h[idx];
    let h2 = h.remove(idx);
    let c2 = c.push(it);
    lemma_remove_contains(h, idx);
    lemma_push_contains(c, it);
    assert(c2.last() == it);
    // the new member's ordinal is above every previous member's
    assert(lex_lt(k, item_key(it)) || (item_key(it) == k && c.last().segment_ord
        < it.segment_ord));
    lemma_lex_lt_irrefl(k);
    assert(c.last().segment_ord < it.segment_ord);
    assert forall|i: int, j: int|
        0 <= i < j < c2.len() implies (#[trigger] c2[i]).segment_ord < (
    #[trigger] c2[j]).segment_ord by {
        if j == c2.len() - 1 {
            assert(c2[j] == it);
            assert(c2[i] == c[i]);
            if i < c.len() - 1 {
                assert(c[i].segment_ord < c[c.len() - 1].segment_ord);
            }
        } else {
            assert(c2[i] == c[i] && c2[j] == c[j]);
        }
    }
    assert forall|i: int|
        0 <= i < c2.len() implies item_wf(#[trigger] c2[i]) && item_positioned(c2[i]) && item_key(
            c2[i],
        ) == k by {
        if i == c2.len() - 1 {
            assert(c2[i] == it);
        } else {
            assert(c2[i] == c[i]);
        }
    }
    assert(ords_unique(c2)) by {
        assert forall|a: int, b: int|
            0 <= a < b < c2.len() implies (#[trigger] c2[a]).segment_ord != (
        #[trigger] c2[b]).segment_ord by {
            assert(c2[a].segment_ord < c2[b].segment_ord);
        }
    }
    assert forall|a: int, b: int|
        0 <= a < h2.len() && 0 <= b < c2.len() implies (#[trigger] h2[a]).segment_ord != (
    #[trigger] c2[b]).segment_ord by {
        assert(h2.contains(h2[a]));
        assert(h.contains(h2[a]) && h2[a] != it);
        let u = choose|u: int| 0 <= u < h.len() && h[u] == h2[a];
        if b == c2.len() - 1 {
            assert(c2[b] == it);
            lemma_distinct_items_distinct_ords(h, it, h2[a]);
        } else {
            assert(c2[b] == c[b]);
            assert(h[u].segment_ord != c[b].segment_ord);
        }
    }
    assert forall|j: int|
        0 <= j < h2.len() implies (lex_lt(k, item_key(#[trigger] h2[j])) || (item_key(h2[j]) == k
            && c2.last().segment_ord < h2[j].segment_ord)) by {
        assert(h2.contains(h2[j]));
        assert(h.contains(h2[j]) && h2[j] != it);
        let u = choose|u: int| 0 <= u < h.len() && h[u] == h2[j];
        assert(item_le(h[idx], h[u]));
        lemma_distinct_items_distinct_ords(h, it, h2[j]);
        lemma_lex_lt_trichotomy(k, item_key(h2[j]));
    }
    assert forall|y: HeapItem<T>| mid_heap.contains(y) implies (h2.contains(y) || c2.contains(
        y,
    )) by {
        if h.contains(y) {
            if y == it {
                assert(c2.contains(y));
            } else {
                assert(h2.contains(y));
            }
        }
    }
    assert forall|y: HeapItem<T>| (h2.contains(y) || c2.contains(y)) implies mid_heap.contains(
        y,
    ) by {
        if h2.contains(y) {
            assert(h.contains(y));
        } else if c2.contains(y) {
            if y == it {
                assert(h.contains(y));
            } else {
                assert(c.contains(y));
            }
        }
    }
}

proof fn lemma_gather_break<T: TermStreamer>(
    mid_heap: Seq<HeapItem<T>>,
    h: Seq<HeapItem<T>>,
    c: Seq<HeapItem<T>>,
    head: HeapItem<T>,
    k: Seq<u8>,
    idx: int,
)
    requires
        gather_inv(mid_heap, h, c, head, k),
        0 <= idx < h.len(),
        forall|j: int| 0 <= j < h.len() ==> item_le(h[idx], #[trigger] h[j]),
        item_key(h[idx]) != k,
    ensures
        forall|j: int| 0 <= j < h.len() ==> lex_lt(k, item_key(#[trigger] h[j])),
{
    assert forall|j: int| 0 <= j < h.len() implies lex_lt(k, item_key(#[trigger] h[j])) by {
        if item_key(h[j]) == k {
            assert(item_le(h[idx], h[j]));
            assert(lex_lt(item_key(h[idx]), k) || item_key(h[idx]) == k);
            assert(lex_lt(k, item_key(h[idx])) || item_key(h[idx]) == k);
            lemma_lex_lt_trichotomy(k, item_key(h[idx]));
            assert(false);
        }
    }
}

impl<T: TermStreamer> TermMerger<T> {
    /// A well-formed merger satisfies the entry conditions of
    /// `advance_segments` in each of its three states.
    proof fn lemma_wf_entry(pre: Self)
        requires
            pre.wf(),
        ensures
            forall|i: int|
                0 <= i < pre.heap@.len() ==> item_wf(#[trigger] pre.heap@[i]) && item_positioned(
                    pre.heap@[i],
                ),
            group_advanceable(pre.current_streamers@),
            ords_unique(pre.heap@),
            ords_unique(pre.current_streamers@),
            ords_disjoint(pre.heap@, pre.current_streamers@),
    {
        assert forall|i: int|
            0 <= i < pre.current_streamers@.len() implies item_wf(
            #[trigger] pre.current_streamers@[i],
        ) && (#[trigger] pre.current_streamers@[i]).streamer.pos()
            < pre.current_streamers@[i].streamer.keys().len() as int by {
            if pre.fresh_state() {
                assert(pre.current_streamers@[i].streamer.pos() == -1);
            } else if pre.positioned() {
                assert(item_positioned(pre.current_streamers@[i]));
            }
        }
    }

    /// When the advanced queue is empty the merge is complete: nothing was
    /// remaining, and the merger is well formed in its final state.
    proof fn lemma_advance_empty(pre: Self, mid: Self)
        requires
            pre.wf(),
            mid.current_streamers@.len() == 0,
            mid.heap@.len() == 0,
            mid.emitted@ == pre.emitted@,
            mid.initial@ == pre.initial@,
            segments_inv(pre.heap@, pre.current_streamers@, mid.heap@, 0),
            group_advanceable(pre.current_streamers@),
        ensures
            mid.wf(),
            pre.remaining() == Set::<Seq<u8>>::empty(),
            mid.remaining() == Set::<Seq<u8>>::empty(),
    {
        Self::lemma_segments_preserves_rem(pre, mid);
        assert(forall|q: Seq<u8>| !mid.has_rem(q));
        assert(pre.remaining() =~= Set::<Seq<u8>>::empty());
        assert(mid.remaining() =~= Set::<Seq<u8>>::empty());
        assert forall|q: Seq<u8>| #![trigger mid.initial@.contains(q)]
            #![trigger mid.emitted@.contains(q)]
            #![trigger mid.has_rem(q)]
            mid.initial@.contains(q) <==> (mid.emitted@.contains(q) || mid.has_rem(q)) by {
            assert(pre.initial@.contains(q) <==> (pre.emitted@.contains(q) || pre.has_rem(q)));
            assert(!pre.has_rem(q));
        }
        assert(mid.done_state());
        assert(mid.wf());
    }

    /// Assembling the post-state of a successful `advance`: the merger is
    /// well formed and positioned on `k`, which is the least remaining key;
    /// `k` moves from the remaining set to the end of the yielded sequence,
    /// and the group is exactly the candidate set for `k`.
    #[verifier::rlimit(100)]
    proof fn lemma_advance_finish(pre: Self, mid: Self, post: Self, head: HeapItem<T>, k: Seq<u8>)
        requires
            pre.wf(),
            group_advanceable(pre.current_streamers@),
            mid.current_streamers@.len() == 0,
            segments_inv(pre.heap@, pre.current_streamers@, mid.heap@, 0),
            mid.emitted@ == pre.emitted@,
            mid.initial@ == pre.initial@,
            gather_inv(mid.heap@, post.heap@, post.current_streamers@, head, k),
            forall|j: int|
                0 <= j < post.heap@.len() ==> lex_lt(k, item_key(#[trigger] post.heap@[j])),
            post.emitted@ == pre.emitted@.push(k),
            post.initial@ == pre.initial@,
        ensures
            post.wf(),
            post.positioned(),
            post.key_spec() == k,
            pre.remaining().contains(k),
            forall|q: Seq<u8>| pre.remaining().contains(q) ==> lex_le(k, q),
            post.remaining() == pre.remaining().remove(k),
            post.emitted@ == pre.emitted@.push(k),
            post.group_set() == pre.candidate_pairs(k),
            pairs_ascending(post.group_pairs()),
    {
        Self::lemma_segments_preserves_rem(pre, mid);
        Self::lemma_rem_after_gather(mid, post, k);
        Self::lemma_group_matches_candidates(pre, mid, post, k);
        // the merged key was remaining: the group head carries it
        let c0 = post.current_streamers@[0];
        assert(post.current_streamers@.contains(c0));
        assert(mid.heap@.contains(c0));
        let u0 = choose|u0: int| 0 <= u0 < mid.heap@.len() && mid.heap@[u0] == c0;
        assert(mid.heap@[u0].streamer.keys()[mid.heap@[u0].streamer.pos()] == k);
        assert(avail_contains(mid.heap@[u0], k));
        assert(mid.has_rem(k));
        assert(pre.has_rem(k));
        assert(pre.remaining().contains(k));
        // the merged key is the least remaining key
        assert forall|q: Seq<u8>| pre.remaining().contains(q) implies lex_le(k, q) by {
            assert(pre.has_rem(q));
            assert(mid.has_rem(q));
            let u = choose|u: int|
                0 <= u < mid.heap@.len() && avail_contains(#[trigger] mid.heap@[u], q);
            let it = mid.heap@[u];
            assert(mid.heap@.contains(it));
            assert(item_le(head, it));
            let t = choose|t: int|
                it.streamer.pos() <= t < it.streamer.keys().len() && (
                #[trigger] it.streamer.keys()[t]) == q;
            assert(lex_le(item_key(it), q));
            lemma_lex_le_trans(k, item_key(it), q);
        }
        // the yielded keys, extended with k, are still strictly increasing
        assert forall|i: int, j: int|
            0 <= i < j < post.emitted@.len() implies lex_lt(
            #[trigger] post.emitted@[i],
            #[trigger] post.emitted@[j],
        ) by {
            if j == post.emitted@.len() - 1 {
                assert(post.emitted@[j] == k);
                assert(post.emitted@[i] == pre.emitted@[i]);
                assert(lex_lt(pre.emitted@[i], k));
            } else {
                assert(post.emitted@[i] == pre.emitted@[i] && post.emitted@[j] == pre.emitted@[j]);
            }
        }
        // yielded keys stay below everything still remaining
        assert forall|i: int, q: Seq<u8>|
            #![trigger post.emitted@[i], post.has_rem(q)]
            0 <= i < post.emitted@.len() && post.has_rem(q) implies lex_lt(
            post.emitted@[i],
            q,
        ) by {
            assert(mid.has_rem(q) && q != k);
            assert(pre.has_rem(q));
            if i < pre.emitted@.len() {
                assert(post.emitted@[i] == pre.emitted@[i]);
                assert(lex_lt(pre.emitted@[i], q));
            } else {
                assert(post.emitted@[i] == k);
                assert(lex_le(k, q));
            }
        }
        // the input keys are partitioned by yielded and remaining
        assert forall|q: Seq<u8>|
            #![trigger post.initial@.contains(q)]
            #![trigger post.emitted@.contains(q)]
            #![trigger post.has_rem(q)]
            post.initial@.contains(q) <==> (post.emitted@.contains(q) || post.has_rem(q)) by {
            assert(pre.initial@.contains(q) <==> (pre.emitted@.contains(q) || pre.has_rem(q)));
            assert forall|q2: Seq<u8>| #[trigger] post.emitted@.contains(q2) implies (
                pre.emitted@.contains(q2) || q2 == k) by {
                let t = choose|t: int| 0 <= t < post.emitted@.len() && post.emitted@[t] == q2;
                if t < pre.emitted@.len() {
                    assert(pre.emitted@[t] == q2);
                }
            }
            if pre.emitted@.contains(q) {
                let t = choose|t: int| 0 <= t < pre.emitted@.len() && pre.emitted@[t] == q;
                assert(post.emitted@[t] == q);
            }
            if q == k {
                assert(post.emitted@[post.emitted@.len() - 1] == k);
            }
        }
        // positioned on k
        assert(post.key_spec() == item_key(post.current_streamers@[0]));
        assert(post.emitted@.last() == k);
        assert(post.positioned());
        assert(post.wf());
        // remaining set shrinks by exactly k
        assert forall|q: Seq<u8>| post.remaining().contains(q) implies pre.remaining().remove(
            k,
        ).contains(q) by {
            assert(post.has_rem(q));
            assert(mid.has_rem(q) && q != k);
            assert(pre.has_rem(q));
        }
        assert forall|q: Seq<u8>| pre.remaining().remove(k).contains(q) implies post
            .remaining().contains(q) by {
            assert(pre.has_rem(q) && q != k);
            assert(mid.has_rem(q));
            assert(post.has_rem(q));
        }
        assert(post.remaining() =~= pre.remaining().remove(k));
        // group listing ascends by ordinal
        assert forall|i: int, j: int|
            0 <= i < j < post.group_pairs().len() implies (#[trigger] post.group_pairs()[i]).0 < (
        #[trigger] post.group_pairs()[j]).0 by {
            assert(post.group_pairs()[i].0 == post.current_streamers@[i].segment_ord);
            assert(post.group_pairs()[j].0 == post.current_streamers@[j].segment_ord);
        }
    }

    /// Advance to the next merged term. When true is returned the merger is
    /// positioned: the new key is the least input key not yielded before
    /// (so successive keys are strictly increasing and duplicate-free), it
    /// is removed from the remaining set, and the current group consists of
    /// exactly the streams whose next entry carried it. When false is
    /// returned, no keys were left and the merge is complete.
    pub fn advance(&mut self) -> (r: bool)
        requires
            old(self).wf(),
        ensures
            final(self).wf(),
            final(self).initial() == old(self).initial(),
            r ==> final(self).positioned(),
            r ==> final(self).emitted() == old(self).emitted().push(final(self).key_spec()),
            r ==> old(self).remaining().contains(final(self).key_spec()),
            r ==> forall|k: Seq<u8>|
                old(self).remaining().contains(k) ==> lex_le(final(self).key_spec(), k),
            r ==> final(self).remaining() == old(self).remaining().remove(final(self).key_spec()),
            r ==> final(self).group_set() == old(self).candidate_pairs(final(self).key_spec()),
            r ==> pairs_ascending(final(self).group_pairs()),
            !r ==> old(self).remaining() == Set::<Seq<u8>>::empty(),
            !r ==> final(self).remaining() == Set::<Seq<u8>>::empty(),
            !r ==> final(self).emitted() == old(self).emitted(),
    {
        let ghost pre = *old(self);
        proof {
            Self::lemma_wf_entry(pre);
        }
        self.advance_segments();
        let ghost mid = *self;
        if self.heap.len() == 0 {
            proof {
                Self::lemma_advance_empty(pre, mid);
            }
            return false;
        }
        let idx0 = find_min_index(&self.heap);
        let ghost head_g = self.heap@[idx0 as int];
        let ghost k = item_key(head_g);
        proof {
            lemma_gather_init(mid.heap@, idx0 as int);
        }
        let head = self.heap.remove(idx0);
        let kv = head.streamer.key();
        self.current_streamers.push(head);
        proof {
            assert(self.current_streamers@ =~= Seq::<HeapItem<T>>::empty().push(head_g));
            assert(gather_inv(mid.heap@, self.heap@, self.current_streamers@, head_g, k));
        }
        loop
            invariant
                gather_inv(mid.heap@, self.heap@, self.current_streamers@, head_g, k),
                kv@ == k,
                self.emitted@ == pre.emitted@,
                self.initial@ == pre.initial@,
            ensures
                gather_inv(mid.heap@, self.heap@, self.current_streamers@, head_g, k),
                kv@ == k,
                self.emitted@ == pre.emitted@,
                self.initial@ == pre.initial@,
                forall|j: int|
                    0 <= j < self.heap@.len() ==> lex_lt(k, item_key(#[trigger] self.heap@[j])),
            decreases self.heap@.len(),
        {
            if self.heap.len() == 0 {
                break;
            }
            let idx = find_min_index(&self.heap);
            let ck = self.heap[idx].streamer.key();
            let c = bytes_compare(ck.as_slice(), kv.as_slice());
            if c == 0 {
                proof {
                    lemma_gather_step(
                        mid.heap@,
                        self.heap@,
                        self.current_streamers@,
                        head_g,
                        k,
                        idx as int,
                    );
                }
                let it = self.heap.remove(idx);
                self.current_streamers.push(it);
            } else {
                proof {
                    lemma_gather_break(
                        mid.heap@,
                        self.heap@,
                        self.current_streamers@,
                        head_g,
                        k,
                        idx as int,
                    );
                }
                break;
            }
        }
        self.emitted = Ghost(pre.emitted@.push(k));
        proof {
            Self::lemma_advance_finish(pre, mid, *self, head_g, k);
        }
        true
    }
}

impl<T: TermStreamer> TermMerger<T> {
    /// Law of the merge: in every well-formed merger state, the keys
    /// yielded so far form a strictly increasing (hence duplicate-free)
    /// sequence, none of them is still remaining, and the yielded keys
    /// together with the remaining keys are exactly the union of the
    /// input streams' keys. Since `advance` always yields the least
    /// remaining key until none is left, a completed merge has yielded
    /// the sorted, deduplicated union of all input keys.
    pub proof fn lemma_merged_output(m: TermMerger<T>)
        requires
            m.wf(),
        ensures
            sorted_strict(m.emitted()),
            forall|i: int|
                0 <= i < m.emitted().len() ==> !m.remaining().contains(#[trigger] m.emitted()[i]),
            forall|k: Seq<u8>|
                #[trigger] m.initial().contains(k) <==> (m.emitted().contains(k)
                    || m.remaining().contains(k)),
    {
        assert forall|i: int|
            0 <= i < m.emitted().len() implies !m.remaining().contains(
            #[trigger] m.emitted()[i],
        ) by {
            if m.has_rem(m.emitted@[i]) {
                assert(lex_lt(m.emitted@[i], m.emitted@[i]));
                lemma_lex_lt_irrefl(m.emitted@[i]);
            }
        }
        assert forall|k: Seq<u8>| #[trigger] m.initial().contains(k) implies (m.emitted().contains(
            k,
        ) || m.remaining().contains(k)) by {
            assert(m.initial@.contains(k) <==> (m.emitted@.contains(k) || m.has_rem(k)));
        }
        assert forall|k: Seq<u8>| (m.emitted().contains(k) || m.remaining().contains(k)) implies
            #[trigger] m.initial().contains(k) by {
            assert(m.initial@.contains(k) <==> (m.emitted@.contains(k) || m.has_rem(k)));
        }
    }
}

} // verus!
