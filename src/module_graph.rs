//! What the chunk graph reads of the module graph: each module's source
//! types with their sizes, and its outgoing connections.
use vstd::prelude::*;
use crate::ident::ModuleIdentifier;
use crate::keyed::{has_key, key_position, keyed_get, keys_unique, lemma_key_index};
use crate::source_type::SourceType;

verus! {

/// Whether a dependency edge is live.
#[derive(Debug, Clone, Copy, PartialEq, Eq, Structural)]
pub enum ConnectionState {
    /// Live (`true`) or dead (`false`).
    Active(bool),
    /// Passes through to the target's own connections.
    TransitiveOnly,
    CircularConnection,
}

pub struct ModuleGraphConnection {
    pub module_identifier: ModuleIdentifier,
    pub state: ConnectionState,
}

pub struct ModuleInfo {
    /// The module's source types, each with its size.
    pub source_types: Vec<(SourceType, u64)>,
    pub outgoing_connections: Vec<ModuleGraphConnection>,
}

pub struct ModuleGraph {
    pub modules: Vec<(ModuleIdentifier, ModuleInfo)>,
}

/// The sum of the sizes in `ps`.
pub open spec fn sizes_sum(ps: Seq<(SourceType, u64)>) -> int
    decreases ps.len(),
{
    if ps.len() == 0 {
        0
    } else {
        sizes_sum(ps.drop_last()) + ps.last().1 as int
    }
}

pub open spec fn has_source_type(ps: Seq<(SourceType, u64)>, t: SourceType) -> bool {
    exists|i: int| 0 <= i < ps.len() && (#[trigger] ps[i]).0 == t
}

impl ModuleGraph {
    pub open spec fn wf(&self) -> bool {
        keys_unique(self.modules@)
    }

    pub open spec fn has(&self, m: Seq<char>) -> bool {
        has_key(self.modules@, m)
    }

    pub open spec fn info(&self, m: Seq<char>) -> ModuleInfo {
        keyed_get(self.modules@, m).unwrap()
    }

    /// The size of module `m` over all its source types.
    pub open spec fn module_size(&self, m: Seq<char>) -> int {
        sizes_sum(self.info(m).source_types@)
    }

    pub open spec fn module_has_type(&self, m: Seq<char>, t: SourceType) -> bool {
        has_source_type(self.info(m).source_types@, t)
    }

    pub fn module_by_identifier(&self, m: &ModuleIdentifier) -> (r: Option<&ModuleInfo>)
        requires
            self.wf(),
        ensures
            r is Some == self.has(m@),
            r is Some ==> *r.unwrap() == self.info(m@),
    {
        match key_position(&self.modules, m) {
            Some(i) => {
                proof {
                    lemma_key_index(self.modules@, i as int);
                }
                Some(&self.modules[i].1)
            },
            None => None,
        }
    }
}

impl ModuleInfo {
    pub fn has_source_type(&self, t: SourceType) -> (r: bool)
        ensures
            r == has_source_type(self.source_types@, t),
    {
        let mut i: usize = 0;
        while i < self.source_types.len()
            invariant
                0 <= i <= self.source_types@.len(),
                forall|j: int| 0 <= j < i ==> (#[trigger] self.source_types@[j]).0 != t,
            decreases self.source_types@.len() - i,
        {
            if self.source_types[i].0 == t {
                return true;
            }
            i = i + 1;
        }
        false
    }

    /// The size of the module over all its source types.
    pub fn size(&self) -> (r: u64)
        requires
            sizes_sum(self.source_types@) <= u64::MAX,
        ensures
            r == sizes_sum(self.source_types@),
    {
        let mut acc: u64 = 0;
        let mut i: usize = 0;
        while i < self.source_types.len()
            invariant
                0 <= i <= self.source_types@.len(),
                sizes_sum(self.source_types@) <= u64::MAX,
                acc == sizes_sum(self.source_types@.subrange(0, i as int)),
            decreases self.source_types@.len() - i,
        {
            proof {
                assert(self.source_types@.subrange(0, i + 1).drop_last() =~= self.source_types@.subrange(0, i as int));
                lemma_sizes_sum_prefix(self.source_types@, i + 1);
            }
            acc = acc + self.source_types[i].1;
            i = i + 1;
        }
        assert(self.source_types@.subrange(0, i as int) =~= self.source_types@);
        acc
    }
}

pub proof fn lemma_sizes_sum_prefix(ps: Seq<(SourceType, u64)>, k: int)
    requires
        0 <= k <= ps.len(),
    ensures
        0 <= sizes_sum(ps.subrange(0, k)) <= sizes_sum(ps),
    decreases ps.len(),
{
    if ps.len() > 0 {
        if k == ps.len() {
            assert(ps.subrange(0, k) =~= ps);
            lemma_sizes_sum_prefix(ps.drop_last(), k - 1);
            assert(ps.drop_last().subrange(0, k - 1) =~= ps.drop_last());
        } else {
            lemma_sizes_sum_prefix(ps.drop_last(), k);
            assert(ps.drop_last().subrange(0, k) =~= ps.subrange(0, k));
        }
    } else {
        assert(ps.subrange(0, k) =~= ps);
    }
}

} // verus!
