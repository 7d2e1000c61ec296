//! A layered Bloom filter: an ordered stack of layers in which a key's
//! generation is the number of leading layers that contain it.
use vstd::prelude::*;
use crate::bloom::{
    bloom_bloomfilter, bloom_filter_params, lemma_add_contains, lemma_contains_mono, lv_add,
    lv_contains, LayerView,
};
use vstd::string::StringSliceAdditionalSpecFns;

verus! {

/// The generation of `key` counted from layer `i`: the index of the first
/// layer from `i` on that does not contain it, or the number of layers.
pub open spec fn gen_from(ls: Seq<LayerView>, key: Seq<u8>, i: nat) -> nat
    decreases ls.len() - i,
{
    if i >= ls.len() || !lv_contains(ls[i as int], key) {
        i
    } else {
        gen_from(ls, key, i + 1)
    }
}

/// The generation of `key`: how many leading layers contain it.
pub open spec fn generation(ls: Seq<LayerView>, key: Seq<u8>) -> nat {
    gen_from(ls, key, 0)
}

/// Every layer has a non-empty region with one flag per bit.
pub open spec fn layers_ok(ls: Seq<LayerView>) -> bool {
    forall|i: int| 0 <= i < ls.len() ==> #[trigger] ls[i].m > 0 && ls[i].bits.len() == ls[i].m
}

/// The generation is the length of the prefix of layers containing the key.
pub proof fn lemma_gen_from(ls: Seq<LayerView>, key: Seq<u8>, i: nat)
    requires
        i <= ls.len(),
        forall|j: int| 0 <= j < i ==> lv_contains(#[trigger] ls[j], key),
    ensures
        gen_from(ls, key, i) <= ls.len(),
        forall|j: int| 0 <= j < gen_from(ls, key, i) ==> lv_contains(#[trigger] ls[j], key),
        gen_from(ls, key, i) < ls.len() ==> !lv_contains(ls[gen_from(ls, key, i) as int], key),
    decreases ls.len() - i,
{
    if i < ls.len() && lv_contains(ls[i as int], key) {
        lemma_gen_from(ls, key, i + 1);
    }
}

/// The generation is the length of the prefix of layers containing the key.
pub proof fn lemma_generation(ls: Seq<LayerView>, key: Seq<u8>)
    ensures
        generation(ls, key) <= ls.len(),
        forall|j: int| 0 <= j < generation(ls, key) ==> lv_contains(#[trigger] ls[j], key),
        generation(ls, key) < ls.len() ==> !lv_contains(ls[generation(ls, key) as int], key),
{
    lemma_gen_from(ls, key, 0);
}

/// A prefix of `g` layers that all contain the key bounds the generation from below.
pub proof fn lemma_generation_at_least(ls: Seq<LayerView>, key: Seq<u8>, g: nat)
    requires
        g <= ls.len(),
        forall|j: int| 0 <= j < g ==> lv_contains(#[trigger] ls[j], key),
    ensures
        generation(ls, key) >= g,
{
    lemma_generation(ls, key);
    if generation(ls, key) < g {
        assert(lv_contains(ls[generation(ls, key) as int], key));
    }
}

/// The layers after adding `key` where the generation says: into the first
/// layer that lacks it, if there is one.
pub open spec fn lbf_add(ls: Seq<LayerView>, key: Seq<u8>) -> Seq<LayerView> {
    let g = generation(ls, key);
    if g < ls.len() {
        ls.update(g as int, lv_add(ls[g as int], key))
    } else {
        ls
    }
}

/// What a filter's set does to its layers: grows a `fresh` layer when every
/// layer holds the key, then adds the key to the first layer that lacks it.
pub open spec fn set_layers(ls: Seq<LayerView>, key: Seq<u8>, fresh: LayerView) -> Seq<
    LayerView,
> {
    let grown = if generation(ls, key) == ls.len() {
        ls.push(fresh)
    } else {
        ls
    };
    lbf_add(grown, key)
}

/// What a filter's set answers: one more than the generation before.
pub open spec fn set_reply(ls: Seq<LayerView>, key: Seq<u8>) -> nat {
    generation(ls, key) + 1
}

/// The layers after setting each of `keys` in turn.
pub open spec fn apply_sets(ls: Seq<LayerView>, keys: Seq<Seq<u8>>, fresh: LayerView) -> Seq<
    LayerView,
>
    decreases keys.len(),
{
    if keys.len() == 0 {
        ls
    } else {
        set_layers(apply_sets(ls, keys.drop_last(), fresh), keys.last(), fresh)
    }
}

/// How often `key` occurs in `keys`.
pub open spec fn occurrences(keys: Seq<Seq<u8>>, key: Seq<u8>) -> nat
    decreases keys.len(),
{
    if keys.len() == 0 {
        0
    } else {
        occurrences(keys.drop_last(), key) + if keys.last() == key {
            1nat
        } else {
            0nat
        }
    }
}

/// A fresh layer: probes over a non-empty region with every bit clear.
pub open spec fn fresh_ok(fresh: LayerView) -> bool {
    &&& fresh.m > 0
    &&& fresh.k > 0
    &&& fresh.bits.len() == fresh.m
    &&& forall|j: int| 0 <= j < fresh.m ==> !#[trigger] fresh.bits[j]
}

/// A fresh layer contains no key.
pub proof fn lemma_fresh_empty(fresh: LayerView, key: Seq<u8>)
    requires
        fresh_ok(fresh),
    ensures
        !lv_contains(fresh, key),
{
    crate::hash::lemma_probe_bound(key, 0, fresh.m);
    assert(!fresh.bits[crate::hash::probe(key, 0, fresh.m) as int]);
}

/// Growing a fresh layer when every layer holds the key leaves the key's
/// generation as it was, now short of the number of layers.
pub proof fn lemma_grown_generation(ls: Seq<LayerView>, key: Seq<u8>, fresh: LayerView)
    requires
        fresh_ok(fresh),
    ensures
        ({
            let grown = if generation(ls, key) == ls.len() {
                ls.push(fresh)
            } else {
                ls
            };
            generation(grown, key) == generation(ls, key) && generation(ls, key) < grown.len()
        }),
{
    let grown = if generation(ls, key) == ls.len() {
        ls.push(fresh)
    } else {
        ls
    };
    let g = generation(ls, key);
    lemma_generation(ls, key);
    lemma_generation(grown, key);
    assert forall|j: int| 0 <= j < g implies lv_contains(#[trigger] grown[j], key) by {
        assert(grown[j] == ls[j]);
    }
    lemma_generation_at_least(grown, key, g);
    if g == ls.len() {
        lemma_fresh_empty(fresh, key);
    }
    if generation(grown, key) > g {
        assert(lv_contains(grown[g as int], key));
    }
}

/// One set keeps the layers well shaped, lowers no key's generation, and
/// raises the set key's generation past the generation it had.
pub proof fn lemma_set_layers(ls: Seq<LayerView>, key: Seq<u8>, fresh: LayerView)
    requires
        layers_ok(ls),
        generation(ls, key) < ls.len() || fresh_ok(fresh),
    ensures
        layers_ok(set_layers(ls, key, fresh)),
        generation(set_layers(ls, key, fresh), key) >= generation(ls, key) + 1,
        forall|x: Seq<u8>| #[trigger] generation(set_layers(ls, key, fresh), x) >= generation(ls, x),
{
    let grown = if generation(ls, key) == ls.len() {
        ls.push(fresh)
    } else {
        ls
    };
    let g = generation(ls, key);
    lemma_generation(ls, key);
    assert(layers_ok(grown));
    assert(generation(grown, key) == g) by {
        lemma_generation(grown, key);
        assert forall|j: int| 0 <= j < g implies lv_contains(#[trigger] grown[j], key) by {
            assert(grown[j] == ls[j]);
        }
        lemma_generation_at_least(grown, key, g);
        if g == ls.len() {
            lemma_fresh_empty(fresh, key);
        }
        if generation(grown, key) > g {
            assert(lv_contains(grown[g as int], key));
        }
    }
    let after = lbf_add(grown, key);
    lemma_add_contains(grown[g as int], key);
    assert(after == grown.update(g as int, lv_add(grown[g as int], key)));
    assert(layers_ok(after));
    assert forall|j: int| 0 <= j < g + 1 implies lv_contains(#[trigger] after[j], key) by {
        if j < g {
            assert(after[j] == grown[j]);
        }
    }
    lemma_generation_at_least(after, key, g + 1);
    assert forall|x: Seq<u8>| #[trigger] generation(after, x) >= generation(ls, x) by {
        lemma_generation(ls, x);
        let gx = generation(ls, x);
        assert forall|j: int| 0 <= j < gx implies lv_contains(#[trigger] after[j], x) by {
            assert(grown[j] == ls[j]);
            if j == g {
                lemma_contains_mono(grown[j], after[j], x);
            }
        }
        lemma_generation_at_least(after, x, gx);
    }
}

/// Setting keys in turn keeps the layers well shaped and lowers no key's generation.
pub proof fn lemma_apply_sets_mono(ls: Seq<LayerView>, keys: Seq<Seq<u8>>, fresh: LayerView)
    requires
        layers_ok(ls),
        fresh_ok(fresh),
    ensures
        layers_ok(apply_sets(ls, keys, fresh)),
        forall|x: Seq<u8>| #[trigger] generation(apply_sets(ls, keys, fresh), x) >= generation(ls, x),
    decreases keys.len(),
{
    if keys.len() > 0 {
        lemma_apply_sets_mono(ls, keys.drop_last(), fresh);
        lemma_set_layers(apply_sets(ls, keys.drop_last(), fresh), keys.last(), fresh);
    }
}

/// No false negatives: after setting `keys` in turn on any filter, a check of
/// any key answers at least the number of times it was set.
pub proof fn lemma_no_false_negatives(
    ls: Seq<LayerView>,
    keys: Seq<Seq<u8>>,
    fresh: LayerView,
    key: Seq<u8>,
)
    requires
        layers_ok(ls),
        fresh_ok(fresh),
    ensures
        generation(apply_sets(ls, keys, fresh), key) >= occurrences(keys, key),
        keys.contains(key) ==> generation(apply_sets(ls, keys, fresh), key) >= 1,
    decreases keys.len(),
{
    if keys.len() > 0 {
        let prev = apply_sets(ls, keys.drop_last(), fresh);
        lemma_no_false_negatives(ls, keys.drop_last(), fresh, key);
        lemma_apply_sets_mono(ls, keys.drop_last(), fresh);
        lemma_set_layers(prev, keys.last(), fresh);
        assert(generation(set_layers(prev, keys.last(), fresh), key) >= generation(prev, key));
        if keys.contains(key) {
            lemma_occurrences_positive(keys, key);
        }
    }
}

/// A key that occurs in `keys` occurs at least once.
pub proof fn lemma_occurrences_positive(keys: Seq<Seq<u8>>, key: Seq<u8>)
    requires
        keys.contains(key),
    ensures
        occurrences(keys, key) >= 1,
    decreases keys.len(),
{
    let i = choose|i: int| 0 <= i < keys.len() && keys[i] == key;
    if keys.last() != key {
        assert(keys.drop_last()[i] == key);
        lemma_occurrences_positive(keys.drop_last(), key);
    }
}

/// Monotone generation: setting a key, then any other keys, then the key
/// again answers a larger generation the second time.
pub proof fn lemma_set_monotone(
    ls: Seq<LayerView>,
    key: Seq<u8>,
    between: Seq<Seq<u8>>,
    fresh: LayerView,
)
    requires
        layers_ok(ls),
        fresh_ok(fresh),
    ensures
        set_reply(apply_sets(set_layers(ls, key, fresh), between, fresh), key) > set_reply(ls, key),
{
    lemma_set_layers(ls, key, fresh);
    let first = set_layers(ls, key, fresh);
    lemma_apply_sets_mono(first, between, fresh);
}

/// A layered Bloom filter: its parameters, its name and its layers.
#[allow(non_camel_case_types)]
pub struct bloom_lbf {
    params: bloom_filter_params,
    name: String,
    num_filters: u32,
    filters: Vec<bloom_bloomfilter>,
}

/// The views of a vector of layers.
pub open spec fn views_of(fs: Seq<bloom_bloomfilter>) -> Seq<LayerView> {
    fs.map_values(|l: bloom_bloomfilter| l.view())
}

impl bloom_lbf {
    /// What the layers hold, in order.
    pub closed spec fn view(&self) -> Seq<LayerView> {
        views_of(self.filters@)
    }

    /// The parameters new layers are made with.
    pub closed spec fn spec_params(&self) -> bloom_filter_params {
        self.params
    }

    /// The filter's name.
    pub closed spec fn spec_name(&self) -> Seq<char> {
        self.name@
    }

    /// The parameters new layers are made with.
    pub fn params(&self) -> (r: bloom_filter_params)
        ensures
            r == self.spec_params(),
    {
        self.params
    }

    /// The filter's name.
    pub fn name(&self) -> (r: &String)
        ensures
            r@ == self.spec_name(),
    {
        &self.name
    }

    /// The layers themselves.
    pub closed spec fn layers(&self) -> Seq<bloom_bloomfilter> {
        self.filters@
    }

    /// Every layer is well formed and the count of layers is kept.
    pub closed spec fn wf(&self) -> bool {
        &&& forall|i: int| 0 <= i < self.filters@.len() ==> (#[trigger] self.filters@[i]).wf()
        &&& self.num_filters == self.filters@.len()
    }

    /// A well-formed filter's layers are well shaped.
    pub proof fn lemma_layers_ok(&self)
        requires
            self.wf(),
        ensures
            layers_ok(self.view()),
            self.view().len() == self.layers().len(),
            self.layers().len() <= u32::MAX,
            forall|i: int| 0 <= i < self.layers().len() ==> (#[trigger] self.layers()[i]).wf(),
            forall|i: int| 0 <= i < self.layers().len() ==> #[trigger] self.view()[i] == self.layers()[i].view(),
    {
        assert forall|i: int| 0 <= i < self.view().len() implies #[trigger] self.view()[i].m > 0
            && self.view()[i].bits.len() == self.view()[i].m by {
            self.filters@[i].lemma_wf();
        }
    }

    /// A filter over the given layers.
    pub fn new(params: bloom_filter_params, name: String, filters: Vec<bloom_bloomfilter>) -> (r:
        Self)
        requires
            filters@.len() <= u32::MAX,
            forall|i: int| 0 <= i < filters@.len() ==> (#[trigger] filters@[i]).wf(),
        ensures
            r.wf(),
            r.view() == views_of(filters@),
            r.layers() == filters@,
            r.spec_params() == params,
            r.spec_name() == name@,
    {
        let n = filters.len() as u32;
        bloom_lbf { params, name, num_filters: n, filters }
    }

    /// The number of layers.
    pub fn num_filters(&self) -> (r: u32)
        requires
            self.wf(),
        ensures
            r == self.view().len(),
    {
        self.num_filters
    }

    /// Appends a layer, when it probes as many bits as the parameters say and
    /// there is room for one more layer; answers whether it did.
    pub fn add_filter(&mut self, filter: bloom_bloomfilter) -> (r: bool)
        requires
            old(self).wf(),
            filter.wf(),
        ensures
            final(self).wf(),
            r == (filter.view().k == old(self).spec_params().k_num && old(self).view().len() < u32::MAX),
            r ==> final(self).view() == old(self).view().push(filter.view()),
            r ==> final(self).layers() == old(self).layers().push(filter),
            !r ==> final(self).view() == old(self).view() && final(self).layers() == old(self).layers(),
            final(self).spec_params() == old(self).spec_params(),
            final(self).spec_name() == old(self).spec_name(),
    {
        if filter.view_k() != self.params.k_num || self.num_filters == u32::MAX {
            return false;
        }
        self.filters.push(filter);
        self.num_filters = self.num_filters + 1;
        assert(self.view() =~= old(self).view().push(filter.view()));
        true
    }

    /// The number of insertions counted by layer `index`.
    pub fn get_filter_size(&self, index: usize) -> (r: u64)
        requires
            self.wf(),
            index < self.view().len(),
        ensures
            r == self.view()[index as int].count,
    {
        self.filters[index].size()
    }

    /// Layer `index`.
    pub fn layer(&self, index: usize) -> (r: &bloom_bloomfilter)
        requires
            self.wf(),
            index < self.view().len(),
        ensures
            *r == self.layers()[index as int],
            r.wf(),
    {
        &self.filters[index]
    }

    /// The generation of `key`: how many leading layers contain it.
    pub fn contains(&self, key: &str) -> (r: u32)
        requires
            self.wf(),
        ensures
            r == generation(self.view(), key.spec_bytes()),
    {
        let ghost kb = key.spec_bytes();
        proof {
            self.lemma_layers_ok();
            lemma_generation(self.view(), kb);
        }
        let mut i: usize = 0;
        while i < self.filters.len()
            invariant
                self.wf(),
                i <= self.view().len(),
                self.view().len() == self.filters@.len(),
                self.filters@.len() <= u32::MAX,
                kb == key.spec_bytes(),
                forall|j: int| 0 <= j < i ==> lv_contains(#[trigger] self.view()[j], kb),
            decreases self.filters@.len() - i,
        {
            assert(self.view()[i as int] == self.filters@[i as int].view());
            let c = self.filters[i].contains(key);
            assert(c == lv_contains(self.view()[i as int], kb));
            if !c {
                proof {
                    lemma_generation(self.view(), kb);
                    lemma_generation_at_least(self.view(), kb, i as nat);
                    if generation(self.view(), kb) > i {
                        assert(lv_contains(self.view()[i as int], kb));
                    }
                }
                return i as u32;
            }
            i += 1;
        }
        proof {
            lemma_generation_at_least(self.view(), kb, i as nat);
        }
        i as u32
    }

    /// Adds `key` to the first layer that lacks it and answers that layer's
    /// position counted from one; answers zero, changing nothing, when every
    /// layer holds the key.
    pub fn add(&mut self, key: &str) -> (r: u32)
        requires
            old(self).wf(),
        ensures
            final(self).wf(),
            r == (if generation(old(self).view(), key.spec_bytes()) < old(self).view().len() {
                generation(old(self).view(), key.spec_bytes()) + 1
            } else {
                0
            }),
            final(self).view() == lbf_add(old(self).view(), key.spec_bytes()),
            final(self).view().len() == old(self).view().len(),
            final(self).spec_params() == old(self).spec_params(),
            final(self).spec_name() == old(self).spec_name(),
            forall|i: int| 0 <= i < final(self).layers().len() ==> (#[trigger] final(self).layers()[i]).bytes().len() == old(self).layers()[i].bytes().len(),
    {
        let g = self.contains(key);
        if (g as usize) >= self.filters.len() {
            assert(forall|i: int| 0 <= i < self.layers().len() ==> (#[trigger] self.layers()[i]).bytes().len() == old(self).layers()[i].bytes().len());
            return 0;
        }
        let gi = g as usize;
        let mut l = self.filters.remove(gi);
        l.add(key);
        self.filters.insert(gi, l);
        proof {
            assert(self.filters@ =~= old(self).filters@.update(gi as int, l));
            assert(self.view() =~= lbf_add(old(self).view(), key.spec_bytes()));
        }
        g + 1
    }

    /// The number of distinct keys: the insertions counted by the first layer.
    pub fn size(&self) -> (r: u64)
        requires
            self.wf(),
        ensures
            r == (if self.view().len() > 0 {
                self.view()[0].count
            } else {
                0
            }),
    {
        if self.filters.len() > 0 {
            self.filters[0].size()
        } else {
            0
        }
    }

    /// Writes every layer's header into its bitmap and hands back, layer by
    /// layer, the pages written since the last flush.
    pub fn flush(&mut self) -> (r: Vec<Vec<usize>>)
        requires
            old(self).wf(),
        ensures
            final(self).wf(),
            final(self).view() == old(self).view(),
            r@.len() == final(self).layers().len(),
            final(self).layers().len() == old(self).layers().len(),
            forall|i: int| 0 <= i < final(self).layers().len() ==> (#[trigger] final(self).layers()[i]).synced(),
            forall|i: int| 0 <= i < final(self).layers().len() ==> (#[trigger] final(self).layers()[i]).bytes().len() == old(self).layers()[i].bytes().len(),
            forall|i: int, k: int| 0 <= i < r@.len() && 0 <= k < r@[i]@.len() ==> (#[trigger] r@[i]@[k]) < final(self).layers()[i].spec_map().dirty().len(),
            forall|i: int| 0 <= i < r@.len() ==> (#[trigger] r@[i])@ == crate::bloom::flushed_pages(old(self).layers()[i]),
            final(self).spec_params() == old(self).spec_params(),
            final(self).spec_name() == old(self).spec_name(),
    {
        let mut r: Vec<Vec<usize>> = Vec::new();
        let n = self.filters.len();
        let mut i: usize = 0;
        while i < n
            invariant
                self.wf(),
                n == self.filters@.len(),
                n == old(self).filters@.len(),
                i <= n,
                r@.len() == i,
                self.view() == old(self).view(),
                self.params == old(self).params,
                self.name@ == old(self).name@,
                forall|j: int| 0 <= j < i ==> (#[trigger] self.filters@[j]).synced(),
                forall|j: int| 0 <= j < n ==> (#[trigger] self.filters@[j]).bytes().len() == old(self).filters@[j].bytes().len(),
                forall|j: int| 0 <= j < n ==> (#[trigger] self.filters@[j]).spec_map().dirty().len() == old(self).filters@[j].spec_map().dirty().len(),
                forall|j: int, k: int| 0 <= j < i && 0 <= k < r@[j]@.len() ==> (#[trigger] r@[j]@[k]) < self.filters@[j].spec_map().dirty().len(),
                forall|j: int| 0 <= j < i ==> (#[trigger] r@[j])@ == crate::bloom::flushed_pages(old(self).filters@[j]),
                forall|j: int| i <= j < n ==> #[trigger] self.filters@[j] == old(self).filters@[j],
            decreases n - i,
        {
            let mut l = self.filters.remove(i);
            let pages = l.flush();
            self.filters.insert(i, l);
            r.push(pages);
            proof {
                assert(self.view() =~= old(self).view());
            }
            i += 1;
        }
        r
    }
}

} // verus!
