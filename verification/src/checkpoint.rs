//! Gradient checkpointing: which layers keep their activations during the
//! forward pass, and how much memory the kept activations take.
use vstd::prelude::*;
use crate::assoc::{assoc, keys_unique, has_key, lookup, lemma_assoc_dom, lemma_assoc_index, lemma_assoc_update, lemma_assoc_remove, lemma_keys_unique_push};
use crate::decimal::{decimal, push_decimal};

verus! {

/// Strategy for selecting which layers to checkpoint during backpropagation.
#[derive(Debug, Clone, Copy, PartialEq, Eq, Structural)]
pub enum CheckpointStrategy {
    /// Only checkpoint the boundaries (input and output of layer blocks)
    Boundary,
    /// Checkpoint layers at uniform intervals
    Uniform,
    /// Adaptively select checkpoints based on memory usage
    Adaptive,
    /// No checkpointing (store all intermediate activations)
    NoCheckpoint,
}

/// Memory usage, in bytes, above which the adaptive strategy checkpoints
/// more often: 1000 MB.
pub const ADAPTIVE_THRESHOLD_BYTES: usize = 1048576000;

/// Memory tracker for gradient checkpointing: current and peak usage in
/// bytes, and the usage recorded at labelled points.
#[derive(Debug)]
pub struct MemoryTracker {
    current_usage: usize,
    peak_usage: usize,
    snapshots: Vec<(String, usize)>,
}

/// The labels of a snapshot list, as characters, with their usages.
pub open spec fn snapshot_pairs(s: Seq<(String, usize)>) -> Seq<(Seq<char>, usize)> {
    s.map_values(|p: (String, usize)| (p.0@, p.1))
}

impl MemoryTracker {
    #[verifier::type_invariant]
    spec fn well_formed(self) -> bool {
        &&& self.current_usage <= self.peak_usage
        &&& keys_unique(snapshot_pairs(self.snapshots@))
    }

    /// Current memory usage in bytes.
    pub closed spec fn current(&self) -> usize {
        self.current_usage
    }

    /// Peak memory usage in bytes.
    pub closed spec fn peak(&self) -> usize {
        self.peak_usage
    }

    /// The usage recorded under each snapshot label.
    pub closed spec fn snapshot_map(&self) -> Map<Seq<char>, usize> {
        assoc(snapshot_pairs(self.snapshots@))
    }

    /// Creates a tracker with no usage and no snapshot.
    pub fn new() -> (t: Self)
        ensures
            t.current() == 0,
            t.peak() == 0,
            t.snapshot_map() == Map::<Seq<char>, usize>::empty(),
    {
        let t = MemoryTracker { current_usage: 0, peak_usage: 0, snapshots: Vec::new() };
        assert(snapshot_pairs(t.snapshots@) =~= Seq::empty());
        t
    }

    /// Tracks an allocation: the current usage grows by `bytes`, and the
    /// peak follows it when it is passed.
    pub fn allocate(&mut self, bytes: usize)
        requires
            old(self).current() + bytes <= usize::MAX,
        ensures
            final(self).current() == old(self).current() + bytes,
            final(self).peak() == if old(self).current() + bytes > old(self).peak() {
                (old(self).current() + bytes) as usize
            } else {
                old(self).peak()
            },
            final(self).snapshot_map() == old(self).snapshot_map(),
            final(self).peak() >= final(self).current(),
    {
        proof { use_type_invariant(&*self); }
        let c = self.current_usage + bytes;
        let p = if c > self.peak_usage { c } else { self.peak_usage };
        let mut entries: Vec<(String, usize)> = Vec::new();
        std::mem::swap(&mut entries, &mut self.snapshots);
        *self = MemoryTracker { current_usage: c, peak_usage: p, snapshots: entries };
    }

    /// Tracks a deallocation: the current usage shrinks by `bytes`, but not below zero.
    pub fn deallocate(&mut self, bytes: usize)
        ensures
            final(self).current() == if old(self).current() >= bytes { (old(self).current() - bytes) as usize } else { 0 },
            final(self).peak() == old(self).peak(),
            final(self).snapshot_map() == old(self).snapshot_map(),
            final(self).peak() >= final(self).current(),
    {
        proof { use_type_invariant(&*self); }
        let c = self.current_usage.saturating_sub(bytes);
        let p = self.peak_usage;
        let mut entries: Vec<(String, usize)> = Vec::new();
        std::mem::swap(&mut entries, &mut self.snapshots);
        *self = MemoryTracker { current_usage: c, peak_usage: p, snapshots: entries };
    }

    /// Records the current usage under `label`, replacing an earlier record.
    pub fn snapshot(&mut self, label: &str)
        ensures
            final(self).current() == old(self).current(),
            final(self).peak() == old(self).peak(),
            final(self).snapshot_map() == old(self).snapshot_map().insert(label@, old(self).current()),
    {
        proof { use_type_invariant(&*self); }
        let key = label.to_owned();
        let c = self.current_usage;
        let p = self.peak_usage;
        let mut entries: Vec<(String, usize)> = Vec::new();
        std::mem::swap(&mut entries, &mut self.snapshots);
        let ghost sp = snapshot_pairs(entries@);
        let mut i: usize = 0;
        let mut found: Option<usize> = None;
        while i < entries.len()
            invariant
                i <= entries@.len(),
                sp == snapshot_pairs(entries@),
                found matches Some(k) ==> k < entries@.len() && entries@[k as int].0@ == key@,
                found is None ==> forall|j: int| 0 <= j < i ==> entries@[j].0@ != key@,
            decreases entries.len() - i,
        {
            if found.is_none() && entries[i].0 == key {
                found = Some(i);
            }
            i = i + 1;
        }
        match found {
            Some(k) => {
                proof {
                    assert(sp[k as int].0 == key@);
                    lemma_assoc_update(sp, k as int, c);
                    assert(snapshot_pairs(entries@.update(k as int, (key, c))) =~= sp.update(k as int, (sp[k as int].0, c)));
                }
                entries.set(k, (key, c));
            }
            None => {
                proof {
                    assert(!has_key(sp, key@)) by {
                        if has_key(sp, key@) {
                            let j = choose|j: int| 0 <= j < sp.len() && (#[trigger] sp[j]).0 == key@;
                            assert(sp[j].0 == entries@[j].0@);
                        }
                    }
                    lemma_keys_unique_push(sp, key@, c);
                    assert(snapshot_pairs(entries@.push((key, c))) =~= sp.push((key@, c)));
                }
                entries.push((key, c));
                proof {
                    assert(snapshot_pairs(entries@).drop_last() =~= sp);
                }
            }
        }
        *self = MemoryTracker { current_usage: c, peak_usage: p, snapshots: entries };
    }

    /// The usage recorded under `label`, if any.
    pub fn snapshot_value(&self, label: &str) -> (r: Option<usize>)
        ensures
            r == lookup(self.snapshot_map(), label@),
    {
        proof { use_type_invariant(self); }
        let ghost sp = snapshot_pairs(self.snapshots@);
        let mut i: usize = 0;
        while i < self.snapshots.len()
            invariant
                i <= self.snapshots@.len(),
                sp == snapshot_pairs(self.snapshots@),
                keys_unique(sp),
                forall|j: int| 0 <= j < i ==> self.snapshots@[j].0@ != label@,
            decreases self.snapshots.len() - i,
        {
            if str_eq_string(&self.snapshots[i].0, label) {
                proof {
                    assert(sp[i as int] == (self.snapshots@[i as int].0@, self.snapshots@[i as int].1));
                    lemma_assoc_index(sp, i as int);
                }
                return Some(self.snapshots[i].1);
            }
            i = i + 1;
        }
        proof {
            lemma_assoc_dom(sp, label@);
            if has_key(sp, label@) {
                let j = choose|j: int| 0 <= j < sp.len() && (#[trigger] sp[j]).0 == label@;
                assert(sp[j].0 == self.snapshots@[j].0@);
            }
        }
        None
    }

    /// Current memory usage in bytes; never above the peak.
    pub fn current_usage(&self) -> (b: usize)
        ensures
            b == self.current(),
            b <= self.peak(),
    {
        proof { use_type_invariant(self); }
        self.current_usage
    }

    /// Peak memory usage in bytes.
    pub fn peak_usage(&self) -> (b: usize)
        ensures
            b == self.peak(),
    {
        self.peak_usage
    }
}

/// Whether a string and a string slice hold the same characters.
fn str_eq_string(a: &String, b: &str) -> (r: bool)
    ensures
        r == (a@ == b@),
{
    crate::text::str_eq(a.as_str(), b)
}

/// The checkpoint interval that suits a model of `num_layers` layers.
pub open spec fn default_interval(num_layers: usize) -> usize {
    if num_layers <= 4 {
        1
    } else if num_layers <= 10 {
        2
    } else if num_layers <= 20 {
        3
    } else if num_layers <= 40 {
        4
    } else {
        5
    }
}

/// Whether layer `layer` is checkpointed: never outside a forward pass or
/// with no checkpointing; the first and last layers with the boundary
/// strategy; every `interval`-th layer and the last with the uniform one;
/// the first and last layers, and then every second layer above the memory
/// threshold or every third below it, with the adaptive one.
pub open spec fn should_checkpoint_spec(
    strategy: CheckpointStrategy,
    num_layers: usize,
    interval: usize,
    in_forward: bool,
    current: usize,
    layer: usize,
) -> bool {
    let last = num_layers - 1;
    if !in_forward {
        false
    } else {
        match strategy {
            CheckpointStrategy::NoCheckpoint => false,
            CheckpointStrategy::Boundary => layer == 0 || layer == last,
            CheckpointStrategy::Uniform => layer % interval == 0 || layer == last,
            CheckpointStrategy::Adaptive => {
                if layer == 0 || layer == last {
                    true
                } else if current > ADAPTIVE_THRESHOLD_BYTES {
                    layer % 2 == 0
                } else {
                    layer % 3 == 0
                }
            },
        }
    }
}

/// The total size in bytes of stored checkpoints.
pub open spec fn total_size<T>(s: Seq<(usize, (T, usize))>) -> int
    decreases s.len(),
{
    if s.len() == 0 {
        0
    } else {
        total_size(s.drop_last()) + s.last().1.1
    }
}

proof fn lemma_total_size_split<T>(s: Seq<(usize, (T, usize))>, i: int)
    requires
        0 <= i < s.len(),
    ensures
        total_size(s) == total_size(s.subrange(0, i)) + s[i].1.1 + total_size(s.subrange(i + 1, s.len() as int)),
    decreases s.len(),
{
    if i == s.len() - 1 {
        assert(s.drop_last() =~= s.subrange(0, i));
        assert(s.subrange(i + 1, s.len() as int) =~= Seq::empty());
    } else {
        lemma_total_size_split(s.drop_last(), i);
        assert(s.drop_last().subrange(0, i) =~= s.subrange(0, i));
        assert(s.subrange(i + 1, s.len() as int).drop_last() =~= s.drop_last().subrange(i + 1, s.len() - 1));
    }
}

proof fn lemma_total_size_nonneg<T>(s: Seq<(usize, (T, usize))>)
    ensures
        total_size(s) >= 0,
    decreases s.len(),
{
    if s.len() > 0 {
        lemma_total_size_nonneg(s.drop_last());
    }
}

proof fn lemma_total_size_remove<T>(s: Seq<(usize, (T, usize))>, i: int)
    requires
        0 <= i < s.len(),
    ensures
        total_size(s.remove(i)) == total_size(s) - s[i].1.1,
{
    lemma_total_size_split(s, i);
    let a = s.subrange(0, i);
    let b = s.subrange(i + 1, s.len() as int);
    assert(s.remove(i) =~= a + b);
    lemma_total_size_concat(a, b);
}

proof fn lemma_total_size_update<T>(s: Seq<(usize, (T, usize))>, i: int, x: (usize, (T, usize)))
    requires
        0 <= i < s.len(),
    ensures
        total_size(s.update(i, x)) == total_size(s) - s[i].1.1 + x.1.1,
{
    lemma_total_size_split(s, i);
    lemma_total_size_split(s.update(i, x), i);
    assert(s.update(i, x).subrange(0, i) =~= s.subrange(0, i));
    assert(s.update(i, x).subrange(i + 1, s.len() as int) =~= s.subrange(i + 1, s.len() as int));
}

proof fn lemma_total_size_concat<T>(a: Seq<(usize, (T, usize))>, b: Seq<(usize, (T, usize))>)
    ensures
        total_size(a + b) == total_size(a) + total_size(b),
    decreases b.len(),
{
    if b.len() == 0 {
        assert(a + b =~= a);
    } else {
        lemma_total_size_concat(a, b.drop_last());
        assert((a + b).drop_last() =~= a + b.drop_last());
    }
}

/// Gradient checkpointing for memory-efficient backpropagation: the layers
/// chosen by the strategy keep their activations (of type `T`, with their
/// size in bytes) during the forward pass.
pub struct GradientCheckpointer<T> {
    strategy: CheckpointStrategy,
    num_layers: usize,
    memory_tracker: MemoryTracker,
    checkpoint_interval: usize,
    checkpoints: Vec<(usize, (T, usize))>,
    in_forward_pass: bool,
}

impl<T> GradientCheckpointer<T> {
    #[verifier::type_invariant]
    spec fn well_formed(self) -> bool {
        &&& self.checkpoint_interval >= 1
        &&& keys_unique(self.checkpoints@)
        &&& total_size(self.checkpoints@) <= self.memory_tracker.current()
    }

    /// The strategy.
    pub closed spec fn strategy_spec(&self) -> CheckpointStrategy {
        self.strategy
    }

    /// The number of layers.
    pub closed spec fn layers(&self) -> usize {
        self.num_layers
    }

    /// The checkpoint interval of the uniform strategy.
    pub closed spec fn interval(&self) -> usize {
        self.checkpoint_interval
    }

    /// Whether a forward pass is under way.
    pub closed spec fn in_forward(&self) -> bool {
        self.in_forward_pass
    }

    /// The memory tracker.
    pub closed spec fn tracker(&self) -> MemoryTracker {
        self.memory_tracker
    }

    /// The stored checkpoints: by layer, the activations and their size in bytes.
    pub closed spec fn stored(&self) -> Map<usize, (T, usize)> {
        assoc(self.checkpoints@)
    }

    /// The total size in bytes of the stored checkpoints.
    pub closed spec fn stored_bytes(&self) -> int {
        total_size(self.checkpoints@)
    }

    /// Whether `should_checkpoint(layer)` is defined: the last layer is
    /// only looked at when the model has layers.
    pub open spec fn checkpoint_defined(&self, layer: usize) -> bool {
        !(self.in_forward() && self.layers() == 0 && match self.strategy_spec() {
            CheckpointStrategy::NoCheckpoint => false,
            CheckpointStrategy::Uniform => layer % self.interval() != 0,
            _ => layer != 0,
        })
    }

    /// Whether `layer` is checkpointed now (see `should_checkpoint_spec`).
    pub open spec fn should(&self, layer: usize) -> bool {
        should_checkpoint_spec(self.strategy_spec(), self.layers(), self.interval(), self.in_forward(), self.tracker().current(), layer)
    }

    /// Creates a checkpointer with the given strategy for a model of
    /// `num_layers` layers: outside any forward pass, nothing stored, the
    /// interval chosen by the model size (see `default_interval`).
    pub fn new(strategy: CheckpointStrategy, num_layers: usize) -> (c: Self)
        ensures
            c.strategy_spec() == strategy,
            c.layers() == num_layers,
            c.interval() == default_interval(num_layers),
            !c.in_forward(),
            c.stored() == Map::<usize, (T, usize)>::empty(),
            c.tracker().current() == 0,
            c.tracker().peak() == 0,
    {
        let default_interval: usize = if num_layers <= 4 {
            1
        } else if num_layers <= 10 {
            2
        } else if num_layers <= 20 {
            3
        } else if num_layers <= 40 {
            4
        } else {
            5
        };
        let c = GradientCheckpointer {
            strategy,
            num_layers,
            memory_tracker: MemoryTracker::new(),
            checkpoint_interval: default_interval,
            checkpoints: Vec::new(),
            in_forward_pass: false,
        };
        assert(c.checkpoints@ =~= Seq::empty());
        c
    }

    /// Begins a forward pass: stored checkpoints are dropped and the
    /// tracker starts afresh.
    pub fn begin_forward(&mut self)
        ensures
            final(self).in_forward(),
            final(self).stored() == Map::<usize, (T, usize)>::empty(),
            final(self).tracker().current() == 0,
            final(self).tracker().peak() == 0,
            final(self).strategy_spec() == old(self).strategy_spec(),
            final(self).layers() == old(self).layers(),
            final(self).interval() == old(self).interval(),
    {
        proof { use_type_invariant(&*self); }
        let c = GradientCheckpointer {
            strategy: self.strategy,
            num_layers: self.num_layers,
            memory_tracker: MemoryTracker::new(),
            checkpoint_interval: self.checkpoint_interval,
            checkpoints: Vec::new(),
            in_forward_pass: true,
        };
        assert(c.checkpoints@ =~= Seq::empty());
        *self = c;
    }

    /// Ends the forward pass and records the usage under `end_forward`.
    pub fn end_forward(&mut self)
        ensures
            !final(self).in_forward(),
            final(self).stored() == old(self).stored(),
            final(self).tracker().current() == old(self).tracker().current(),
            final(self).tracker().peak() == old(self).tracker().peak(),
            final(self).tracker().snapshot_map() == old(self).tracker().snapshot_map().insert(
                seq!['e', 'n', 'd', '_', 'f', 'o', 'r', 'w', 'a', 'r', 'd'],
                old(self).tracker().current(),
            ),
            final(self).strategy_spec() == old(self).strategy_spec(),
            final(self).layers() == old(self).layers(),
            final(self).interval() == old(self).interval(),
    {
        proof {
            use_type_invariant(&*self);
            reveal_strlit("end_forward");
            assert("end_forward"@ =~= seq!['e', 'n', 'd', '_', 'f', 'o', 'r', 'w', 'a', 'r', 'd']);
        }
        let mut entries: Vec<(usize, (T, usize))> = Vec::new();
        std::mem::swap(&mut entries, &mut self.checkpoints);
        let mut tracker = MemoryTracker::new();
        std::mem::swap(&mut tracker, &mut self.memory_tracker);
        tracker.snapshot("end_forward");
        let c = GradientCheckpointer {
            strategy: self.strategy,
            num_layers: self.num_layers,
            memory_tracker: tracker,
            checkpoint_interval: self.checkpoint_interval,
            checkpoints: entries,
            in_forward_pass: false,
        };
        *self = c;
    }
}


/// The label of the snapshot taken when layer `layer` is checkpointed.
pub open spec fn checkpoint_label(layer: usize) -> Seq<char> {
    seq!['c', 'h', 'e', 'c', 'k', 'p', 'o', 'i', 'n', 't', '_', 'l', 'a', 'y', 'e', 'r', '_'] + decimal(layer as nat)
}

fn checkpoint_label_string(layer: usize) -> (s: String)
    ensures
        s@ == checkpoint_label(layer),
{
    proof {
        reveal_strlit("checkpoint_layer_");
    }
    let mut s = "checkpoint_layer_".to_owned();
    assert(s@ =~= seq!['c', 'h', 'e', 'c', 'k', 'p', 'o', 'i', 'n', 't', '_', 'l', 'a', 'y', 'e', 'r', '_']);
    push_decimal(&mut s, layer);
    s
}

impl<T> GradientCheckpointer<T> {
    /// Index of the entry for `layer`, if there is one.
    fn find_layer(&self, layer: usize) -> (r: Option<usize>)
        ensures
            match r {
                Some(i) => i < self.checkpoints@.len() && self.checkpoints@[i as int].0 == layer,
                None => !has_key(self.checkpoints@, layer),
            },
    {
        let mut i: usize = 0;
        while i < self.checkpoints.len()
            invariant
                i <= self.checkpoints@.len(),
                forall|j: int| 0 <= j < i ==> self.checkpoints@[j].0 != layer,
            decreases self.checkpoints.len() - i,
        {
            if self.checkpoints[i].0 == layer {
                return Some(i);
            }
            i = i + 1;
        }
        None
    }

    /// The number of layers of the model.
    pub fn num_layers(&self) -> (n: usize)
        ensures
            n == self.layers(),
    {
        self.num_layers
    }

    /// Whether `should_checkpoint(layer_idx)` is defined (see `checkpoint_defined`).
    pub fn is_checkpoint_defined(&self, layer_idx: usize) -> (b: bool)
        ensures
            b == self.checkpoint_defined(layer_idx),
    {
        proof { use_type_invariant(self); }
        !(self.in_forward_pass && self.num_layers == 0 && match self.strategy {
            CheckpointStrategy::NoCheckpoint => false,
            CheckpointStrategy::Uniform => layer_idx % self.checkpoint_interval != 0,
            _ => layer_idx != 0,
        })
    }

    /// Whether the activations of layer `layer_idx` should be checkpointed
    /// now (see `should_checkpoint_spec`).
    pub fn should_checkpoint(&self, layer_idx: usize) -> (b: bool)
        requires
            self.checkpoint_defined(layer_idx),
        ensures
            b == self.should(layer_idx),
    {
        proof { use_type_invariant(self); }
        if !self.in_forward_pass {
            return false;
        }
        match self.strategy {
            CheckpointStrategy::NoCheckpoint => false,
            CheckpointStrategy::Boundary => layer_idx == 0 || layer_idx == self.num_layers - 1,
            CheckpointStrategy::Uniform => layer_idx % self.checkpoint_interval == 0 || layer_idx == self.num_layers - 1,
            CheckpointStrategy::Adaptive => {
                if layer_idx == 0 || layer_idx == self.num_layers - 1 {
                    return true;
                }
                if self.memory_tracker.current_usage() > ADAPTIVE_THRESHOLD_BYTES {
                    layer_idx % 2 == 0
                } else {
                    layer_idx % 3 == 0
                }
            },
        }
    }

    /// Stores the activations of layer `layer_idx` (of `size_bytes` bytes)
    /// when a forward pass is under way and the layer should be
    /// checkpointed: the tracker counts the bytes and records the usage
    /// under `checkpoint_layer_<layer_idx>`. Otherwise nothing changes.
    pub fn store_checkpoint(&mut self, layer_idx: usize, item: T, size_bytes: usize)
        requires
            old(self).checkpoint_defined(layer_idx),
            old(self).should(layer_idx) ==> old(self).tracker().current() + size_bytes <= usize::MAX,
        ensures
            final(self).strategy_spec() == old(self).strategy_spec(),
            final(self).layers() == old(self).layers(),
            final(self).interval() == old(self).interval(),
            final(self).in_forward() == old(self).in_forward(),
            old(self).should(layer_idx) ==> {
                &&& final(self).stored() == old(self).stored().insert(layer_idx, (item, size_bytes))
                &&& final(self).tracker().current() == old(self).tracker().current() + size_bytes
                &&& final(self).tracker().peak() == if old(self).tracker().current() + size_bytes > old(self).tracker().peak() {
                    (old(self).tracker().current() + size_bytes) as usize
                } else {
                    old(self).tracker().peak()
                }
                &&& final(self).tracker().snapshot_map() == old(self).tracker().snapshot_map().insert(
                    checkpoint_label(layer_idx),
                    (old(self).tracker().current() + size_bytes) as usize,
                )
            },
            !old(self).should(layer_idx) ==> {
                &&& final(self).stored() == old(self).stored()
                &&& final(self).tracker() == old(self).tracker()
            },
    {
        proof { use_type_invariant(&*self); }
        if !self.in_forward_pass {
            return;
        }
        if !self.should_checkpoint(layer_idx) {
            return;
        }
        let mut entries: Vec<(usize, (T, usize))> = Vec::new();
        std::mem::swap(&mut entries, &mut self.checkpoints);
        let mut tracker = MemoryTracker::new();
        std::mem::swap(&mut tracker, &mut self.memory_tracker);
        let ghost e0 = entries@;
        let ghost c0 = tracker.current();
        tracker.allocate(size_bytes);
        let mut k: usize = 0;
        let mut found = false;
        while k < entries.len() && !found
            invariant
                k <= entries@.len(),
                entries@ == e0,
                !found ==> forall|j: int| 0 <= j < k ==> entries@[j].0 != layer_idx,
                found ==> k < entries@.len() && entries@[k as int].0 == layer_idx,
            decreases entries.len() - k + (if found { 0int } else { 1int }),
        {
            if entries[k].0 == layer_idx {
                found = true;
            } else {
                k = k + 1;
            }
        }
        if found {
            proof {
                lemma_assoc_update(e0, k as int, (item, size_bytes));
                lemma_total_size_update(e0, k as int, (layer_idx, (item, size_bytes)));
                lemma_total_size_nonneg(e0.remove(k as int));
                lemma_total_size_remove(e0, k as int);
            }
            entries.set(k, (layer_idx, (item, size_bytes)));
        } else {
            proof {
                lemma_keys_unique_push(e0, layer_idx, (item, size_bytes));
                assert(entries@.push((layer_idx, (item, size_bytes))).drop_last() =~= e0);
            }
            entries.push((layer_idx, (item, size_bytes)));
        }
        let label = checkpoint_label_string(layer_idx);
        tracker.snapshot(label.as_str());
        let c = GradientCheckpointer {
            strategy: self.strategy,
            num_layers: self.num_layers,
            memory_tracker: tracker,
            checkpoint_interval: self.checkpoint_interval,
            checkpoints: entries,
            in_forward_pass: self.in_forward_pass,
        };
        *self = c;
    }

    /// The stored activations of layer `layer_idx`, if any.
    pub fn get_checkpoint(&self, layer_idx: usize) -> (r: Option<&T>)
        ensures
            match r {
                Some(x) => self.stored().dom().contains(layer_idx) && *x == self.stored()[layer_idx].0,
                None => !self.stored().dom().contains(layer_idx),
            },
    {
        proof { use_type_invariant(self); }
        match self.find_layer(layer_idx) {
            Some(i) => {
                proof { lemma_assoc_index(self.checkpoints@, i as int); }
                Some(&self.checkpoints[i].1.0)
            }
            None => {
                proof { lemma_assoc_dom(self.checkpoints@, layer_idx); }
                None
            }
        }
    }

    /// Whether layer `layer_idx` has stored activations.
    pub fn has_checkpoint(&self, layer_idx: usize) -> (b: bool)
        ensures
            b == self.stored().dom().contains(layer_idx),
    {
        proof { lemma_assoc_dom(self.checkpoints@, layer_idx); }
        self.find_layer(layer_idx).is_some()
    }

    /// The activations of layer `layer_idx`: a clone of the stored ones
    /// when there are any, otherwise those that `compute_fn` computes from
    /// `input`.
    pub fn recompute_activations<I, F: Fn(I) -> T>(&self, layer_idx: usize, input: I, compute_fn: F) -> (r: T)
        where
            T: Clone,
        requires
            compute_fn.requires((input,)),
        ensures
            self.stored().dom().contains(layer_idx) ==> cloned(self.stored()[layer_idx].0, r),
            !self.stored().dom().contains(layer_idx) ==> compute_fn.ensures((input,), r),
    {
        match self.get_checkpoint(layer_idx) {
            Some(x) => x.clone(),
            None => compute_fn(input),
        }
    }

    /// Sets the checkpoint interval of the uniform strategy (at least 1).
    pub fn set_checkpoint_interval(&mut self, interval: usize)
        ensures
            final(self).interval() == if interval >= 1 { interval } else { 1 },
            final(self).strategy_spec() == old(self).strategy_spec(),
            final(self).layers() == old(self).layers(),
            final(self).in_forward() == old(self).in_forward(),
            final(self).stored() == old(self).stored(),
            final(self).tracker() == old(self).tracker(),
    {
        proof { use_type_invariant(&*self); }
        let v = if interval >= 1 { interval } else { 1 };
        let mut entries: Vec<(usize, (T, usize))> = Vec::new();
        std::mem::swap(&mut entries, &mut self.checkpoints);
        let mut tracker = MemoryTracker::new();
        std::mem::swap(&mut tracker, &mut self.memory_tracker);
        let c = GradientCheckpointer {
            strategy: self.strategy,
            num_layers: self.num_layers,
            memory_tracker: tracker,
            checkpoint_interval: v,
            checkpoints: entries,
            in_forward_pass: self.in_forward_pass,
        };
        *self = c;
    }

    /// The current and peak memory usage in bytes.
    pub fn memory_stats_bytes(&self) -> (r: (usize, usize))
        ensures
            r.0 == self.tracker().current(),
            r.1 == self.tracker().peak(),
            r.0 <= r.1,
            0 <= self.stored_bytes() <= r.0,
    {
        proof {
            use_type_invariant(self);
            lemma_total_size_nonneg(self.checkpoints@);
        }
        (self.memory_tracker.current_usage(), self.memory_tracker.peak_usage())
    }

    /// Drops the stored activations of layer `layer_idx`, if any, and
    /// counts their bytes as freed.
    pub fn free_checkpoint(&mut self, layer_idx: usize)
        ensures
            final(self).stored() == old(self).stored().remove(layer_idx),
            old(self).stored().dom().contains(layer_idx) ==> {
                let size = old(self).stored()[layer_idx].1;
                &&& final(self).tracker().current() == if old(self).tracker().current() >= size {
                    (old(self).tracker().current() - size) as usize
                } else {
                    0
                }
                &&& final(self).tracker().peak() == old(self).tracker().peak()
                &&& final(self).tracker().snapshot_map() == old(self).tracker().snapshot_map()
            },
            !old(self).stored().dom().contains(layer_idx) ==> final(self).tracker() == old(self).tracker(),
            final(self).strategy_spec() == old(self).strategy_spec(),
            final(self).layers() == old(self).layers(),
            final(self).interval() == old(self).interval(),
            final(self).in_forward() == old(self).in_forward(),
    {
        proof { use_type_invariant(&*self); }
        match self.find_layer(layer_idx) {
            Some(i) => {
                let mut entries: Vec<(usize, (T, usize))> = Vec::new();
                std::mem::swap(&mut entries, &mut self.checkpoints);
                let mut tracker = MemoryTracker::new();
                std::mem::swap(&mut tracker, &mut self.memory_tracker);
                let ghost e0 = entries@;
                proof {
                    lemma_assoc_remove(e0, i as int);
                    lemma_assoc_index(e0, i as int);
                    lemma_total_size_remove(e0, i as int);
                    lemma_total_size_nonneg(e0.remove(i as int));
                }
                let removed = entries.remove(i);
                let size = removed.1.1;
                tracker.deallocate(size);
                let c = GradientCheckpointer {
                    strategy: self.strategy,
                    num_layers: self.num_layers,
                    memory_tracker: tracker,
                    checkpoint_interval: self.checkpoint_interval,
                    checkpoints: entries,
                    in_forward_pass: self.in_forward_pass,
                };
                *self = c;
            }
            None => {
                proof {
                    lemma_assoc_dom(self.checkpoints@, layer_idx);
                    assert(self.stored().remove(layer_idx) =~= self.stored());
                }
            }
        }
    }

    /// The total size in bytes of the stored activations and the number of
    /// layers that have them: what the estimate of memory savings is made of.
    pub fn checkpoint_totals(&self) -> (r: (usize, usize))
        ensures
            r.0 == self.stored_bytes(),
            r.1 == self.stored().dom().len(),
    {
        proof {
            use_type_invariant(self);
            crate::assoc::lemma_assoc_len(self.checkpoints@);
        }
        let ghost s = self.checkpoints@;
        let mut total: usize = 0;
        let mut i: usize = 0;
        while i < self.checkpoints.len()
            invariant
                i <= s.len(),
                s == self.checkpoints@,
                total == total_size(s.take(i as int)),
                total_size(s) <= self.memory_tracker.current(),
            decreases self.checkpoints.len() - i,
        {
            proof {
                assert(s.take(i + 1).drop_last() =~= s.take(i as int));
                lemma_total_size_concat(s.take(i + 1), s.subrange(i + 1, s.len() as int));
                assert(s.take(i + 1) + s.subrange(i + 1, s.len() as int) =~= s);
                lemma_total_size_nonneg(s.subrange(i + 1, s.len() as int));
            }
            total = total + self.checkpoints[i].1.1;
            i = i + 1;
        }
        assert(s.take(i as int) =~= s);
        (total, self.checkpoints.len())
    }
}

/// Storing the activations of a layer that should be checkpointed makes
/// them available, and freeing them makes them unavailable again: the
/// stored map after storing then freeing layer `l` is the map before,
/// without `l`.
pub proof fn lemma_store_then_free<T>(m: Map<usize, (T, usize)>, l: usize, x: (T, usize))
    ensures
        m.insert(l, x).dom().contains(l),
        m.insert(l, x)[l] == x,
        m.insert(l, x).remove(l) == m.remove(l),
        !m.remove(l).dom().contains(l),
{
    assert(m.insert(l, x).remove(l) =~= m.remove(l));
}

} // verus!
