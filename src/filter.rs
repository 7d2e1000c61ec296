//! What a single layer and a layered filter both offer.
use vstd::prelude::*;
use crate::bloom::{bloom_bloomfilter, lv_contains};
use crate::lbf::{bloom_lbf, generation};
use vstd::string::StringSliceAdditionalSpecFns;

verus! {

/// The operations every kind of filter offers; answers are generations: 0
/// when the key is absent, else how many layers in a row hold it.
pub trait IBloomFilter {
    /// The filter is consistent.
    spec fn filter_wf(&self) -> bool;

    /// The answer `contains` gives for `key`.
    spec fn spec_contains(&self, key: Seq<u8>) -> nat;

    /// Adds `key`; answers 0 when nothing changed.
    fn add(&mut self, key: &str) -> (r: u32)
        requires
            old(self).filter_wf(),
        ensures
            final(self).filter_wf(),
            r > 0 ==> final(self).spec_contains(key.spec_bytes()) >= r,
    ;

    /// The generation of `key`.
    fn contains(&self, key: &str) -> (r: u32)
        requires
            self.filter_wf(),
        ensures
            r == self.spec_contains(key.spec_bytes()),
    ;

    /// The number of keys counted.
    fn size(&self) -> (r: u64)
        requires
            self.filter_wf(),
    ;
}

impl IBloomFilter for bloom_bloomfilter {
    open spec fn filter_wf(&self) -> bool {
        self.wf()
    }

    open spec fn spec_contains(&self, key: Seq<u8>) -> nat {
        if lv_contains(self.view(), key) {
            1
        } else {
            0
        }
    }

    fn add(&mut self, key: &str) -> (r: u32) {
        let ghost v = self.view();
        proof {
            self.lemma_wf();
            crate::bloom::lemma_add_contains(v, key.spec_bytes());
        }
        let added = bloom_bloomfilter::add(self, key);
        if added {
            1
        } else {
            0
        }
    }

    fn contains(&self, key: &str) -> (r: u32) {
        if bloom_bloomfilter::contains(self, key) {
            1
        } else {
            0
        }
    }

    fn size(&self) -> (r: u64) {
        bloom_bloomfilter::size(self)
    }
}

impl IBloomFilter for bloom_lbf {
    open spec fn filter_wf(&self) -> bool {
        self.wf()
    }

    open spec fn spec_contains(&self, key: Seq<u8>) -> nat {
        generation(self.view(), key)
    }

    fn add(&mut self, key: &str) -> (r: u32) {
        let ghost ls = self.view();
        proof {
            self.lemma_layers_ok();
        }
        let r = bloom_lbf::add(self, key);
        proof {
            if r > 0 {
                let kb = key.spec_bytes();
                let g = generation(ls, kb);
                crate::lbf::lemma_generation(ls, kb);
                crate::bloom::lemma_add_contains(ls[g as int], kb);
                let after = self.view();
                assert forall|j: int| 0 <= j < g + 1 implies lv_contains(#[trigger] after[j], kb) by {
                    if j < g {
                        assert(after[j] == ls[j]);
                    }
                }
                crate::lbf::lemma_generation_at_least(after, kb, g + 1);
            }
        }
        r
    }

    fn contains(&self, key: &str) -> (r: u32) {
        bloom_lbf::contains(self, key)
    }

    fn size(&self) -> (r: u64) {
        bloom_lbf::size(self)
    }
}

} // verus!
