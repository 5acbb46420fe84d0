//! The monitor model: modelines, monitors, finished screen configurations,
//! and the stable descending-width ordering both levels of the model use.

use vstd::prelude::*;
use vstd::seq_lib::{to_multiset_insert, group_to_multiset_ensures};
use crate::num::dec_str;
use crate::rate::Rate;
use crate::num::append_u64;

verus! {

/// One advertised resolution together with the best refresh rate the tool
/// reports for it (absent when no decimal rate was listed).
#[derive(Clone, Copy, Debug, PartialEq)]
pub struct Modeline {
    pub width: u64,
    pub height: u64,
    pub best_rate: Option<Rate>,
}

impl Modeline {
    /// Positive resolution, and a normalized rate when one is present.
    pub open spec fn wf(self) -> bool {
        &&& self.width >= 1
        &&& self.height >= 1
        &&& (self.best_rate matches Some(r) ==> r.wf())
    }
}

/// One physically connected output with its modelines, widest first.
#[derive(Clone, Debug)]
pub struct Monitor {
    pub output: String,
    pub modelines: Vec<Modeline>,
}

/// Mathematical image of a [`Monitor`].
#[verifier::ext_equal]
pub ghost struct MonitorView {
    pub output: Seq<char>,
    pub modelines: Seq<Modeline>,
}

impl DeepView for Monitor {
    type V = MonitorView;

    open spec fn deep_view(&self) -> MonitorView {
        MonitorView { output: self.output@, modelines: self.modelines@ }
    }
}

/// A finished configuration for a single output, ready to be rendered into
/// command arguments: the name, the chosen `WIDTHxHEIGHT` text, and the rate.
#[derive(Clone, Debug, PartialEq)]
pub struct Screen {
    pub output: String,
    pub resolution: String,
    pub rate: Option<Rate>,
}

/// Mathematical image of a [`Screen`].
#[verifier::ext_equal]
pub ghost struct ScreenView {
    pub output: Seq<char>,
    pub resolution: Seq<char>,
    pub rate: Option<Rate>,
}

impl DeepView for Screen {
    type V = ScreenView;

    open spec fn deep_view(&self) -> ScreenView {
        ScreenView { output: self.output@, resolution: self.resolution@, rate: self.rate }
    }
}

/// The one way a status report can defeat the parser: a modeline-shaped line
/// with no connected output before it, or a numeric field too large to hold.
#[derive(Clone, Copy, Debug, PartialEq, Eq, Structural)]
pub enum ParseError {
    MalformedReport,
}

impl MonitorView {
    /// Non-empty name, at least one modeline, modelines well-formed and
    /// ordered widest first.
    pub open spec fn wf(self) -> bool {
        &&& self.output.len() >= 1
        &&& self.modelines.len() >= 1
        &&& sorted_desc_by(self.modelines, ml_key())
        &&& forall|i: int| 0 <= i < self.modelines.len() ==> (#[trigger] self.modelines[i]).wf()
    }

    /// The widest modeline: the first one, by the ordering invariant.
    pub open spec fn best(self) -> Modeline
        recommends
            self.modelines.len() >= 1,
    {
        self.modelines[0]
    }
}

impl Monitor {
    pub fn new(output: String, modelines: Vec<Modeline>) -> (r: Monitor)
        requires
            modelines@.len() >= 1,
        ensures
            r.deep_view() == (MonitorView { output: output@, modelines: modelines@ }),
    {
        Monitor { output, modelines }
    }

    /// The monitor's best resolution: width and height of its widest modeline.
    pub fn best_resolution(&self) -> (r: (u64, u64))
        requires
            self.deep_view().modelines.len() >= 1,
        ensures
            r.0 == self.deep_view().best().width,
            r.1 == self.deep_view().best().height,
    {
        (self.modelines[0].width, self.modelines[0].height)
    }

    /// The best rate: the rate of the widest modeline.
    pub fn best_rate(&self) -> (r: Option<Rate>)
        requires
            self.deep_view().modelines.len() >= 1,
        ensures
            r == self.deep_view().best().best_rate,
    {
        self.modelines[0].best_rate
    }
}

/// `WIDTHxHEIGHT`.
pub open spec fn resolution_text(width: u64, height: u64) -> Seq<char> {
    dec_str(width as nat) + seq!['x'] + dec_str(height as nat)
}

/// The screen a finished monitor configures: its name, its widest modeline
/// rendered as `WIDTHxHEIGHT`, and that modeline's rate.
pub open spec fn screen_of(m: MonitorView) -> ScreenView
    recommends
        m.modelines.len() >= 1,
{
    ScreenView {
        output: m.output,
        resolution: resolution_text(m.best().width, m.best().height),
        rate: m.best().best_rate,
    }
}

impl Screen {
    /// Renders a finished monitor into the screen configuration sent onward.
    pub fn from(monitor: Monitor) -> (r: Screen)
        requires
            monitor.deep_view().modelines.len() >= 1,
        ensures
            r.deep_view() == screen_of(monitor.deep_view()),
    {
        let width = monitor.modelines[0].width;
        let height = monitor.modelines[0].height;
        let mut resolution = String::new();
        append_u64(&mut resolution, width);
        resolution.append("x");
        proof {
            reveal_strlit("x");
            assert(resolution@ =~= dec_str(width as nat) + seq!['x']);
        }
        append_u64(&mut resolution, height);
        proof {
            assert(resolution@ =~= resolution_text(width, height));
        }
        Screen { output: monitor.output, resolution, rate: monitor.modelines[0].best_rate }
    }
}

// ---------------------------------------------------------------------------
// Stable descending sort, shared by modelines (key: width) and monitors
// (key: best width).
// ---------------------------------------------------------------------------

/// Sort key for modelines: the width.
pub open spec fn ml_key() -> spec_fn(Modeline) -> int {
    |m: Modeline| m.width as int
}

/// Sort key for monitors: the width of the widest modeline.
pub open spec fn mon_key() -> spec_fn(MonitorView) -> int {
    |m: MonitorView| m.modelines[0].width as int
}

/// Keys never increase along the sequence.
pub open spec fn sorted_desc_by<T>(s: Seq<T>, key: spec_fn(T) -> int) -> bool {
    forall|i: int, j: int| 0 <= i <= j < s.len() ==> key(#[trigger] s[i]) >= key(#[trigger] s[j])
}

/// Where a new element of key `k` goes: after every element whose key is at
/// least `k`, before the first one whose key is smaller. Inserting there keeps
/// elements of equal key in arrival order.
pub open spec fn insert_pos<T>(s: Seq<T>, k: int, key: spec_fn(T) -> int) -> int
    decreases s.len(),
{
    if s.len() > 0 && key(s[0]) >= k {
        1 + insert_pos(s.skip(1), k, key)
    } else {
        0
    }
}

/// `s` with `x` inserted at its stable position.
pub open spec fn insert_desc<T>(s: Seq<T>, x: T, key: spec_fn(T) -> int) -> Seq<T> {
    s.insert(insert_pos(s, key(x), key), x)
}

/// Stable insertion sort by descending key: the elements in turn, each put in
/// its stable position.
pub open spec fn sort_desc<T>(s: Seq<T>, key: spec_fn(T) -> int) -> Seq<T>
    decreases s.len(),
{
    if s.len() == 0 {
        Seq::empty()
    } else {
        insert_desc(sort_desc(s.drop_last(), key), s.last(), key)
    }
}

/// The stable position is a real position, all keys before it are at least
/// `k`, and the key at it (when it exists) is below `k`.
pub proof fn lemma_insert_pos<T>(s: Seq<T>, k: int, key: spec_fn(T) -> int)
    ensures
        0 <= insert_pos(s, k, key) <= s.len(),
        forall|i: int| 0 <= i < insert_pos(s, k, key) ==> key(#[trigger] s[i]) >= k,
        insert_pos(s, k, key) < s.len() ==> key(s[insert_pos(s, k, key)]) < k,
    decreases s.len(),
{
    if s.len() > 0 && key(s[0]) >= k {
        lemma_insert_pos(s.skip(1), k, key);
        let p = insert_pos(s, k, key);
        assert forall|i: int| 0 <= i < p implies key(#[trigger] s[i]) >= k by {
            if i > 0 {
                assert(s.skip(1)[i - 1] == s[i]);
                assert(key(s.skip(1)[i - 1]) >= k);
            }
        }
        if p < s.len() {
            assert(s.skip(1)[p - 1] == s[p]);
        }
    }
}

/// A position with only keys at least `k` before it and a smaller key (or the
/// end) at it is the stable position.
pub proof fn lemma_insert_pos_is<T>(s: Seq<T>, k: int, key: spec_fn(T) -> int, q: int)
    requires
        0 <= q <= s.len(),
        forall|i: int| 0 <= i < q ==> key(#[trigger] s[i]) >= k,
        q < s.len() ==> key(s[q]) < k,
    ensures
        insert_pos(s, k, key) == q,
    decreases s.len(),
{
    if s.len() > 0 && key(s[0]) >= k {
        assert(q >= 1) by {
            if q == 0 {
                assert(key(s[0]) < k);
            }
        }
        assert(forall|i: int| 0 <= i < q - 1 ==> #[trigger] s.skip(1)[i] == s[i + 1]);
        if q - 1 < s.skip(1).len() {
            assert(s.skip(1)[q - 1] == s[q]);
        }
        lemma_insert_pos_is(s.skip(1), k, key, q - 1);
    } else {
        assert(q == 0) by {
            if q > 0 {
                assert(key(s[0]) >= k);
            }
        }
    }
}

/// Inserting at the stable position preserves descending order.
pub proof fn lemma_insert_desc_sorted<T>(s: Seq<T>, x: T, key: spec_fn(T) -> int)
    requires
        sorted_desc_by(s, key),
    ensures
        sorted_desc_by(insert_desc(s, x, key), key),
        insert_desc(s, x, key).len() == s.len() + 1,
        insert_desc(s, x, key).to_multiset() == s.to_multiset().insert(x),
{
    lemma_insert_pos(s, key(x), key);
    let p = insert_pos(s, key(x), key);
    let r = insert_desc(s, x, key);
    assert forall|i: int, j: int| 0 <= i <= j < r.len() implies key(#[trigger] r[i]) >= key(
        #[trigger] r[j],
    ) by {
        if p < s.len() {
            assert(key(s[p]) < key(x));
        }
    }
    broadcast use to_multiset_insert;

}

/// What the sort promises: same length, same elements, descending keys, and
/// the first element is the first-seen element of maximal key.
pub proof fn lemma_sort_desc<T>(s: Seq<T>, key: spec_fn(T) -> int)
    ensures
        sort_desc(s, key).len() == s.len(),
        sort_desc(s, key).to_multiset() == s.to_multiset(),
        sorted_desc_by(sort_desc(s, key), key),
        s.len() > 0 ==> exists|i: int|
            0 <= i < s.len() && sort_desc(s, key)[0] == s[i] && (forall|j: int|
                0 <= j < s.len() ==> key(#[trigger] s[j]) <= key(s[i])) && (forall|j: int|
                0 <= j < i ==> key(#[trigger] s[j]) < key(s[i])),
    decreases s.len(),
{
    broadcast use group_to_multiset_ensures;

    if s.len() > 0 {
        let butlast = s.drop_last();
        let x = s.last();
        lemma_sort_desc(butlast, key);
        let sorted = sort_desc(butlast, key);
        lemma_insert_pos(sorted, key(x), key);
        lemma_insert_desc_sorted(sorted, x, key);
        assert(s.to_multiset() == butlast.to_multiset().insert(x)) by {
            assert(butlast.push(x) =~= s);
        }
        let p = insert_pos(sorted, key(x), key);
        let r = sort_desc(s, key);
        if s.len() == 1 {
            assert(r[0] == s[0]);
        } else {
            // butlast is non-empty; its sorted head is its first maximum.
            let i0 = choose|i: int|
                0 <= i < butlast.len() && sorted[0] == butlast[i] && (forall|j: int|
                    0 <= j < butlast.len() ==> key(#[trigger] butlast[j]) <= key(butlast[i])) && (
                forall|j: int| 0 <= j < i ==> key(#[trigger] butlast[j]) < key(butlast[i]));
            assert(forall|j: int| 0 <= j < butlast.len() ==> #[trigger] s[j] == butlast[j]);
            if p == 0 {
                // x outranks every earlier element strictly.
                assert(key(sorted[0]) < key(x));
                let iw = s.len() - 1;
                assert(r[0] == s[iw]);
                assert(forall|j: int| 0 <= j < butlast.len() ==> key(#[trigger] butlast[j]) <= key(
                    butlast[i0],
                ));
                assert(key(butlast[i0]) == key(sorted[0]));
                assert(forall|j: int| 0 <= j < iw ==> key(#[trigger] s[j]) < key(s[iw]));
            } else {
                // the old head keeps its place before x.
                assert(r[0] == sorted[0]);
                assert(key(sorted[0]) >= key(x));
                assert(r[0] == s[i0]);
                assert(forall|j: int| 0 <= j < s.len() ==> key(#[trigger] s[j]) <= key(s[i0]));
            }
        }
    }
}

} // verus!
