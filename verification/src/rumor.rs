use vstd::prelude::*;
use crate::keyed::{
    key_position, keys, kv_get, kv_has, kv_insert, kv_keys, kv_put, kv_views, lemma_kv_index,
    lemma_kv_keys, lemma_kv_put,
};
use crate::murmur::Murmur;

verus! {

broadcast use vstd::string::group_string_axioms;

/// What the tracker knows of a murmur: its last recorded origin and content, whether that
/// version was true, and how many recorded versions differed from the first.
#[derive(Debug, Clone)]
pub struct MurmurRecord {
    pub origin: String,
    pub content: String,
    pub is_true: bool,
    pub mutations: u32,
}

/// A record as mathematical values.
pub struct RecordView {
    pub origin: Seq<char>,
    pub content: Seq<char>,
    pub is_true: bool,
    pub mutations: u32,
}

impl View for MurmurRecord {
    type V = RecordView;

    open spec fn view(&self) -> RecordView {
        RecordView {
            origin: self.origin@,
            content: self.content@,
            is_true: self.is_true,
            mutations: self.mutations,
        }
    }
}

/// Tracks true and false murmurs and how their content drifts from the first version.
#[derive(Debug, Clone)]
pub struct RumorTracker {
    /// The latest record of each murmur id.
    pub murmurs: Vec<(String, MurmurRecord)>,
    /// The content first recorded for each murmur id.
    pub original_content: Vec<(String, String)>,
}

/// A tracker as mathematical values.
pub struct TrackerView {
    pub murmurs: Seq<(Seq<char>, RecordView)>,
    pub original: Seq<(Seq<char>, Seq<char>)>,
}

impl View for RumorTracker {
    type V = TrackerView;

    open spec fn view(&self) -> TrackerView {
        TrackerView { murmurs: kv_views(self.murmurs@), original: kv_views(self.original_content@) }
    }
}

impl TrackerView {
    /// Ids are listed once in each table, and every recorded murmur has an original content.
    pub open spec fn wf(self) -> bool {
        &&& kv_keys(self.murmurs).no_duplicates()
        &&& kv_keys(self.original).no_duplicates()
        &&& forall|k: Seq<char>| #[trigger] kv_has(self.murmurs, k) ==> kv_has(self.original, k)
    }

    /// The tracker after recording a version of murmur `id` with the given origin, content
    /// and truth: a first version also fixes the original content; the mutation count rises
    /// by one when the content differs from the original.
    pub open spec fn recorded(self, id: Seq<char>, origin: Seq<char>, content: Seq<char>, is_true: bool) -> TrackerView {
        let is_new = !kv_has(self.murmurs, id);
        let original = if is_new { kv_put(self.original, id, content) } else { self.original };
        let before = if is_new { 0 } else { kv_get(self.murmurs, id).mutations };
        let mutations = if content != kv_get(original, id) { (before + 1) as u32 } else { before };
        TrackerView {
            murmurs: kv_put(self.murmurs, id, RecordView { origin, content, is_true, mutations }),
            original,
        }
    }

    /// Whether the latest version of murmur `id` differs from its first; false for an
    /// unknown murmur.
    pub open spec fn corrupted(self, id: Seq<char>) -> bool {
        kv_has(self.murmurs, id) && kv_get(self.murmurs, id).content != kv_get(self.original, id)
    }

    /// How many of the first `k` recorded murmurs are true.
    pub open spec fn true_upto(self, k: int) -> nat
        decreases k,
    {
        if k <= 0 {
            0
        } else {
            self.true_upto(k - 1) + if self.murmurs[k - 1].1.is_true { 1nat } else { 0nat }
        }
    }
}

impl Default for RumorTracker {
    /// An empty tracker.
    fn default() -> (r: Self)
        ensures
            r@.murmurs == Seq::<(Seq<char>, RecordView)>::empty(),
            r@.original == Seq::<(Seq<char>, Seq<char>)>::empty(),
            r@.wf(),
    {
        RumorTracker::new()
    }
}

impl RumorTracker {
    /// An empty tracker.
    pub fn new() -> (r: Self)
        ensures
            r@.murmurs == Seq::<(Seq<char>, RecordView)>::empty(),
            r@.original == Seq::<(Seq<char>, Seq<char>)>::empty(),
            r@.wf(),
    {
        let r = RumorTracker { murmurs: Vec::new(), original_content: Vec::new() };
        assert(r@.murmurs =~= Seq::empty());
        assert(r@.original =~= Seq::empty());
        r
    }

    /// Records a version of `murmur` and whether it is true.
    pub fn record(&mut self, murmur: &Murmur, is_true: bool)
        requires
            old(self)@.wf(),
            kv_has(old(self)@.murmurs, murmur.id@) && murmur.content@ != kv_get(old(self)@.original, murmur.id@)
                ==> kv_get(old(self)@.murmurs, murmur.id@).mutations < u32::MAX,
        ensures
            final(self)@ == old(self)@.recorded(murmur.id@, murmur.origin@, murmur.content@, is_true),
            final(self)@.wf(),
            kv_get(final(self)@.murmurs, murmur.id@).is_true == is_true,
    {
        let ghost o = self@;
        proof {
            lemma_kv_keys(self.murmurs@);
            lemma_kv_keys(self.original_content@);
        }
        let pos = key_position(&self.murmurs, murmur.id.as_str());
        let is_new = pos.is_none();
        let mutations: u32 = match pos {
            Some(p) => {
                proof {
                    lemma_kv_index(o.murmurs, p as int, murmur.id@);
                }
                self.murmurs[p].1.mutations
            },
            None => 0,
        };
        if is_new {
            kv_insert(&mut self.original_content, murmur.id.clone(), murmur.content.clone());
        }
        let ghost orig_table = kv_views(self.original_content@);
        proof {
            lemma_kv_keys(self.original_content@);
            if is_new {
                lemma_kv_put(o.original, murmur.id@, murmur.content@, murmur.id@);
            }
            assert(kv_has(orig_table, murmur.id@));
        }
        let q = match key_position(&self.original_content, murmur.id.as_str()) {
            Some(q) => q,
            None => {
                proof {
                    assert(false);
                }
                0
            },
        };
        proof {
            lemma_kv_index(orig_table, q as int, murmur.id@);
        }
        let changed = !(murmur.content == self.original_content[q].1);
        let mutations = if changed { mutations + 1 } else { mutations };
        let rec = MurmurRecord {
            origin: murmur.origin.clone(),
            content: murmur.content.clone(),
            is_true,
            mutations,
        };
        kv_insert(&mut self.murmurs, murmur.id.clone(), rec);
        proof {
            let f = self@;
            assert(f =~= o.recorded(murmur.id@, murmur.origin@, murmur.content@, is_true));
            lemma_kv_keys(self.murmurs@);
            assert forall|k: Seq<char>| #[trigger] kv_has(f.murmurs, k) implies kv_has(f.original, k) by {
                lemma_kv_put(o.murmurs, murmur.id@, rec@, k);
                if is_new {
                    lemma_kv_put(o.original, murmur.id@, murmur.content@, k);
                }
                if k != murmur.id@ {
                    assert(kv_has(o.murmurs, k));
                }
            }
            law_record_keeps_latest(o, murmur.id@, murmur.origin@, murmur.content@, is_true, murmur.id@);
        }
    }

    /// Whether the latest version of murmur `murmur_id` differs from its first.
    pub fn is_corrupted(&self, murmur_id: &str) -> (r: bool)
        requires
            kv_keys(self@.murmurs).no_duplicates(),
            kv_keys(self@.original).no_duplicates(),
            kv_has(self@.murmurs, murmur_id@) ==> kv_has(self@.original, murmur_id@),
        ensures
            r == self@.corrupted(murmur_id@),
    {
        proof {
            lemma_kv_keys(self.murmurs@);
            lemma_kv_keys(self.original_content@);
        }
        match key_position(&self.murmurs, murmur_id) {
            Some(p) => {
                proof {
                    lemma_kv_index(self@.murmurs, p as int, murmur_id@);
                }
                match key_position(&self.original_content, murmur_id) {
                    Some(q) => {
                        proof {
                            lemma_kv_index(self@.original, q as int, murmur_id@);
                        }
                        !(self.murmurs[p].1.content == self.original_content[q].1)
                    },
                    None => {
                        proof {
                            assert(false);
                        }
                        false
                    },
                }
            },
            None => false,
        }
    }

    /// How many recorded murmurs are true.
    pub fn true_count(&self) -> (r: usize)
        ensures
            r == self@.true_upto(self@.murmurs.len() as int),
    {
        let mut c: usize = 0;
        let mut i: usize = 0;
        while i < self.murmurs.len()
            invariant
                i <= self.murmurs.len(),
                c == self@.true_upto(i as int),
                c <= i,
            decreases self.murmurs.len() - i,
        {
            if self.murmurs[i].1.is_true {
                c = c + 1;
            }
            i = i + 1;
        }
        c
    }

    /// How many murmurs are recorded.
    pub fn recorded_count(&self) -> (r: usize)
        ensures
            r == self@.murmurs.len(),
    {
        self.murmurs.len()
    }
}

/// Recording a version keeps it as the latest: afterwards the murmur is recorded with exactly
/// the origin, content and truth value of that version, whether or not it was recorded before;
/// its original content is the content of its first version; every other murmur's record and
/// original content are untouched.
pub proof fn law_record_keeps_latest(
    t: TrackerView,
    id: Seq<char>,
    origin: Seq<char>,
    content: Seq<char>,
    is_true: bool,
    other: Seq<char>,
)
    requires
        t.wf(),
    ensures
        ({
            let r = t.recorded(id, origin, content, is_true);
            &&& r.wf()
            &&& kv_has(r.murmurs, id)
            &&& kv_get(r.murmurs, id).is_true == is_true
            &&& kv_get(r.murmurs, id).origin == origin
            &&& kv_get(r.murmurs, id).content == content
            &&& kv_get(r.original, id) == if kv_has(t.murmurs, id) { kv_get(t.original, id) } else { content }
            &&& r.corrupted(id) <==> content != kv_get(r.original, id)
            &&& other != id ==> (kv_has(r.murmurs, other) == kv_has(t.murmurs, other))
            &&& other != id && kv_has(t.murmurs, other) ==> kv_get(r.murmurs, other) == kv_get(t.murmurs, other)
            &&& other != id && kv_has(t.original, other) ==> kv_get(r.original, other) == kv_get(t.original, other)
        }),
{
    let is_new = !kv_has(t.murmurs, id);
    let original = if is_new { kv_put(t.original, id, content) } else { t.original };
    if is_new {
        lemma_kv_put(t.original, id, content, id);
        lemma_kv_put(t.original, id, content, other);
    }
    let r = t.recorded(id, origin, content, is_true);
    let before = if is_new { 0 } else { kv_get(t.murmurs, id).mutations };
    let mutations = if content != kv_get(original, id) { (before + 1) as u32 } else { before };
    let w = RecordView { origin, content, is_true, mutations };
    lemma_kv_put(t.murmurs, id, w, id);
    lemma_kv_put(t.murmurs, id, w, other);
    assert forall|k: Seq<char>| #[trigger] kv_has(r.murmurs, k) implies kv_has(r.original, k) by {
        lemma_kv_put(t.murmurs, id, w, k);
        if is_new {
            lemma_kv_put(t.original, id, content, k);
        }
    }
}

/// Counting true records over a table with one entry replaced.
proof fn lemma_true_upto_update(t: TrackerView, q: int, e: (Seq<char>, RecordView), k: int)
    requires
        0 <= q < t.murmurs.len(),
        0 <= k <= t.murmurs.len(),
    ensures
        (TrackerView { murmurs: t.murmurs.update(q, e), ..t }).true_upto(k) + (if q < k && t.murmurs[q].1.is_true { 1int } else { 0 })
            == t.true_upto(k) + (if q < k && e.1.is_true { 1int } else { 0 }),
    decreases k,
{
    if k > 0 {
        lemma_true_upto_update(t, q, e, k - 1);
    }
}

/// Counting true records over a table with one entry appended.
proof fn lemma_true_upto_push(t: TrackerView, e: (Seq<char>, RecordView), k: int)
    requires
        0 <= k <= t.murmurs.len(),
    ensures
        (TrackerView { murmurs: t.murmurs.push(e), ..t }).true_upto(k) == t.true_upto(k),
    decreases k,
{
    if k > 0 {
        lemma_true_upto_push(t, e, k - 1);
    }
}

/// Recording a version moves the count of true murmurs by its truth value: a new murmur adds
/// one if it is true; a murmur recorded before counts as true afterwards exactly when the new
/// version is true.
pub proof fn law_record_true_count(t: TrackerView, id: Seq<char>, origin: Seq<char>, content: Seq<char>, is_true: bool)
    requires
        t.wf(),
    ensures
        ({
            let r = t.recorded(id, origin, content, is_true);
            r.true_upto(r.murmurs.len() as int) + (if kv_has(t.murmurs, id) && kv_get(t.murmurs, id).is_true { 1int } else { 0 })
                == t.true_upto(t.murmurs.len() as int) + (if is_true { 1int } else { 0 })
        }),
{
    let r = t.recorded(id, origin, content, is_true);
    law_record_keeps_latest(t, id, origin, content, is_true, id);
    let n = t.murmurs.len() as int;
    if kv_has(t.murmurs, id) {
        let q = kv_keys(t.murmurs).index_of(id);
        assert(kv_keys(t.murmurs)[q] == id);
        assert(r.murmurs == t.murmurs.update(q, (id, r.murmurs[q].1)));
        lemma_true_upto_update(t, q, (id, r.murmurs[q].1), n);
        lemma_kv_index(t.murmurs, q, id);
        lemma_kv_put(t.murmurs, id, r.murmurs[q].1, id);
        lemma_kv_index(r.murmurs, q, id);
        assert((TrackerView { murmurs: t.murmurs.update(q, (id, r.murmurs[q].1)), ..t }).true_upto(n) == r.true_upto(n)) by {
            lemma_true_upto_same(r, TrackerView { murmurs: t.murmurs.update(q, (id, r.murmurs[q].1)), ..t }, n);
        }
    } else {
        let w = r.murmurs[n].1;
        assert(r.murmurs == t.murmurs.push((id, w)));
        lemma_true_upto_push(t, (id, w), n);
        lemma_true_upto_same(r, TrackerView { murmurs: t.murmurs.push((id, w)), ..t }, n);
        lemma_kv_put(t.murmurs, id, w, id);
        assert(kv_keys(r.murmurs)[n] == id);
        lemma_kv_index(r.murmurs, n, id);
    }
}

/// The count of true records reads the records alone.
proof fn lemma_true_upto_same(a: TrackerView, b: TrackerView, k: int)
    requires
        a.murmurs == b.murmurs,
    ensures
        a.true_upto(k) == b.true_upto(k),
    decreases k,
{
    if k > 0 {
        lemma_true_upto_same(a, b, k - 1);
    }
}

} // verus!
