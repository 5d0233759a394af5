//! The loaded checkpoint: an index of tensors and their bytes.
use vstd::prelude::*;

use crate::tensor::TensorMeta;

verus! {

/// Tensors by name. Names are distinct; entry `i` of `data` is the stored
/// form of entry `i` of `metas`.
pub struct LoadedWeights<'a> {
    pub metas: Vec<TensorMeta>,
    pub data: Vec<&'a [u8]>,
}

/// The first entry called `name`.
pub open spec fn position(ms: Seq<TensorMeta>, name: Seq<char>) -> Option<int>
    decreases ms.len(),
{
    if ms.len() == 0 {
        None
    } else {
        match position(ms.drop_last(), name) {
            Some(i) => Some(i),
            None => if ms.last().name@ == name {
                Some(ms.len() - 1)
            } else {
                None
            },
        }
    }
}

pub proof fn lemma_position(ms: Seq<TensorMeta>, name: Seq<char>)
    ensures
        match position(ms, name) {
            Some(i) => 0 <= i < ms.len() && ms[i].name@ == name,
            None => forall|i: int| 0 <= i < ms.len() ==> #[trigger] ms[i].name@ != name,
        },
    decreases ms.len(),
{
    if ms.len() > 0 {
        let t = ms.drop_last();
        lemma_position(t, name);
        match position(t, name) {
            Some(i) => {
                assert(ms[i] == t[i]);
            },
            None => {
                if ms.last().name@ != name {
                    assert forall|i: int| 0 <= i < ms.len() implies #[trigger] ms[i].name@
                        != name by {
                        if i < t.len() {
                            assert(ms[i] == t[i]);
                        }
                    }
                }
            },
        }
    }
}

impl<'a> LoadedWeights<'a> {
    pub open spec fn distinct(&self) -> bool {
        forall|i: int, j: int|
            0 <= i < j < self.metas@.len() ==> (#[trigger] self.metas@[i]).name@ != (
            #[trigger] self.metas@[j]).name@
    }

    pub open spec fn wf(&self) -> bool {
        self.metas@.len() == self.data@.len() && self.distinct()
    }

    /// The entry called `name`.
    pub open spec fn find(&self, name: Seq<char>) -> Option<int> {
        position(self.metas@, name)
    }

    /// There is a tensor called `name`.
    pub open spec fn holds(&self, name: Seq<char>) -> bool {
        self.find(name) is Some
    }

    pub fn get(&self, name: &str) -> (r: Option<usize>)
        ensures
            match r {
                Some(i) => self.find(name@) == Some(i as int) && i < self.metas@.len()
                    && self.metas@[i as int].name@ == name@,
                None => self.find(name@) is None,
            },
    {
        let key: String = name.to_owned();
        let mut i: usize = 0;
        assert(self.metas@.take(0).len() == 0);
        while i < self.metas.len()
            invariant
                i <= self.metas@.len(),
                key@ == name@,
                position(self.metas@.take(i as int), name@) is None,
            decreases self.metas@.len() - i,
        {
            proof {
                assert(self.metas@.take(i + 1).drop_last() =~= self.metas@.take(i as int));
                assert(self.metas@.take(i + 1).last() == self.metas@[i as int]);
            }
            if self.metas[i].name == key {
                proof {
                    lemma_position_prefix(self.metas@, i + 1, name@);
                }
                return Some(i);
            }
            i = i + 1;
        }
        assert(self.metas@.take(i as int) =~= self.metas@);
        None
    }

    pub fn contains(&self, name: &str) -> (r: bool)
        ensures
            r == self.holds(name@),
    {
        self.get(name).is_some()
    }
}

/// A name found in a prefix is found there in the whole.
proof fn lemma_position_prefix(ms: Seq<TensorMeta>, n: int, name: Seq<char>)
    requires
        0 <= n <= ms.len(),
        position(ms.take(n), name) is Some,
    ensures
        position(ms, name) == position(ms.take(n), name),
    decreases ms.len(),
{
    if n == ms.len() {
        assert(ms.take(n) =~= ms);
    } else {
        let t = ms.drop_last();
        assert(t.take(n) =~= ms.take(n));
        lemma_position_prefix(t, n, name);
    }
}

} // verus!
