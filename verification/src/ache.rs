//! The "ache" analysis: a per-class heuristic vector scoring cost-reduction
//! potential, seeded per operator and combined by elementwise maximum when
//! classes merge. Components are fixed-point numbers in hundredths, so the
//! seed `70` stands for seven tenths.

use vstd::prelude::*;

use crate::strs::str_eq;

verus! {

/// Component `i` of an ache vector; positions past the end read as zero.
pub open spec fn ache_at(v: Seq<u32>, i: int) -> u32 {
    if 0 <= i < v.len() {
        v[i]
    } else {
        0
    }
}

pub open spec fn u32_max(x: u32, y: u32) -> u32 {
    if x >= y {
        x
    } else {
        y
    }
}

/// The merge law: elementwise maximum, padded with zeros to the longer length.
pub open spec fn max_merge_spec(a: Seq<u32>, b: Seq<u32>) -> Seq<u32> {
    Seq::new(if a.len() >= b.len() { a.len() } else { b.len() },
        |i: int| u32_max(ache_at(a, i), ache_at(b, i)))
}

/// Sum of all components.
pub open spec fn ache_sum(v: Seq<u32>) -> int
    decreases v.len(),
{
    if v.len() == 0 {
        0
    } else {
        ache_sum(v.drop_last()) + v.last()
    }
}

/// The per-operator local heuristic profile; operators with no entry default
/// to the zero vector.
pub open spec fn ache_profile(op: Seq<char>) -> Seq<u32> {
    if op == "compose"@ || op == "and"@ {
        seq![70u32, 70u32]
    } else if op == "filter"@ {
        seq![50u32, 20u32]
    } else if op == "map"@ {
        seq![20u32, 40u32]
    } else if op == "normalize"@ {
        seq![10u32, 10u32]
    } else if op == "glyph"@ {
        seq![30u32, 30u32]
    } else if op == "seq"@ {
        seq![5u32, 5u32]
    } else {
        seq![0u32, 0u32]
    }
}

/// Analysis monotonicity: the merge of two ache vectors is, in every
/// component, at least as large as either operand, so a class's analysis
/// value never decreases through any sequence of unions.
pub proof fn lemma_max_merge_monotone(a: Seq<u32>, b: Seq<u32>, i: int)
    ensures
        ache_at(a, i) <= ache_at(max_merge_spec(a, b), i),
        ache_at(b, i) <= ache_at(max_merge_spec(a, b), i),
{
}

/// A fixed-dimension heuristic vector attached to each equivalence class.
pub struct AcheVec {
    pub vals: Vec<u32>,
}

impl AcheVec {
    pub fn empty() -> (r: AcheVec)
        ensures
            r.vals@.len() == 0,
    {
        AcheVec { vals: Vec::new() }
    }

    /// Elementwise maximum of two ache vectors, the analysis merge law.
    pub fn max_merge(a: &Self, b: &Self) -> (r: Self)
        ensures
            r.vals@ == max_merge_spec(a.vals@, b.vals@),
    {
        let n: usize = if a.vals.len() >= b.vals.len() {
            a.vals.len()
        } else {
            b.vals.len()
        };
        let mut out: Vec<u32> = Vec::new();
        let mut i: usize = 0;
        while i < n
            invariant
                i <= n,
                n == if a.vals@.len() >= b.vals@.len() {
                    a.vals@.len()
                } else {
                    b.vals@.len()
                },
                out@.len() == i,
                forall|k: int|
                    0 <= k < i ==> out@[k] == u32_max(ache_at(a.vals@, k), ache_at(b.vals@, k)),
            decreases n - i,
        {
            let ai: u32 = if i < a.vals.len() {
                a.vals[i]
            } else {
                0
            };
            let bi: u32 = if i < b.vals.len() {
                b.vals[i]
            } else {
                0
            };
            out.push(if ai >= bi {
                ai
            } else {
                bi
            });
            i = i + 1;
        }
        proof {
            assert(out@ =~= max_merge_spec(a.vals@, b.vals@));
        }
        AcheVec { vals: out }
    }

    /// Sum of the vector's components, the aggregate ache scalar.
    pub fn sum(&self) -> (r: u64)
        requires
            self.vals@.len() < 0x1_0000_0000,
        ensures
            r as int == ache_sum(self.vals@),
    {
        let mut acc: u64 = 0;
        let mut i: usize = 0;
        while i < self.vals.len()
            invariant
                i <= self.vals@.len(),
                self.vals@.len() < 0x1_0000_0000,
                acc as int == ache_sum(self.vals@.take(i as int)),
                acc as int <= i * 0xFFFF_FFFF,
            decreases self.vals@.len() - i,
        {
            proof {
                assert(self.vals@.take(i as int + 1).drop_last() =~= self.vals@.take(i as int));
            }
            acc = acc + self.vals[i] as u64;
            i = i + 1;
        }
        proof {
            assert(self.vals@.take(self.vals@.len() as int) =~= self.vals@);
        }
        acc
    }

    /// Exact equality of two ache vectors as stored (trailing zeros count).
    pub fn same_as(&self, other: &Self) -> (r: bool)
        ensures
            r == (self.vals@ =~= other.vals@),
    {
        if self.vals.len() != other.vals.len() {
            return false;
        }
        let mut i: usize = 0;
        while i < self.vals.len()
            invariant
                i <= self.vals@.len(),
                self.vals@.len() == other.vals@.len(),
                forall|k: int| 0 <= k < i ==> self.vals@[k] == other.vals@[k],
            decreases self.vals@.len() - i,
        {
            if self.vals[i] != other.vals[i] {
                return false;
            }
            i = i + 1;
        }
        true
    }

    pub fn duplicate(&self) -> (r: Self)
        ensures
            r.vals@ == self.vals@,
    {
        let mut out: Vec<u32> = Vec::new();
        let mut i: usize = 0;
        while i < self.vals.len()
            invariant
                i <= self.vals@.len(),
                out@ == self.vals@.take(i as int),
            decreases self.vals@.len() - i,
        {
            out.push(self.vals[i]);
            proof {
                assert(out@ =~= self.vals@.take(i as int + 1));
            }
            i = i + 1;
        }
        proof {
            assert(self.vals@.take(self.vals@.len() as int) =~= self.vals@);
        }
        AcheVec { vals: out }
    }
}

/// The analysis attached to every equivalence class.
pub struct AcheAnalysis;

/// The analysis value an equivalence class owns.
pub struct AcheData {
    pub ache: AcheVec,
}

impl AcheAnalysis {
    /// The seed analysis for a fresh singleton class holding `op`.
    pub fn make(op: &str) -> (r: AcheData)
        ensures
            r.ache.vals@ == ache_profile(op@),
    {
        let mut v: Vec<u32> = Vec::new();
        if str_eq(op, "compose") || str_eq(op, "and") {
            v.push(70);
            v.push(70);
            proof {
                assert(v@ =~= seq![70u32, 70u32]);
            }
        } else if str_eq(op, "filter") {
            v.push(50);
            v.push(20);
            proof {
                assert(v@ =~= seq![50u32, 20u32]);
            }
        } else if str_eq(op, "map") {
            v.push(20);
            v.push(40);
            proof {
                assert(v@ =~= seq![20u32, 40u32]);
            }
        } else if str_eq(op, "normalize") {
            v.push(10);
            v.push(10);
            proof {
                assert(v@ =~= seq![10u32, 10u32]);
            }
        } else if str_eq(op, "glyph") {
            v.push(30);
            v.push(30);
            proof {
                assert(v@ =~= seq![30u32, 30u32]);
            }
        } else if str_eq(op, "seq") {
            v.push(5);
            v.push(5);
            proof {
                assert(v@ =~= seq![5u32, 5u32]);
            }
        } else {
            v.push(0);
            v.push(0);
            proof {
                assert(v@ =~= seq![0u32, 0u32]);
            }
        }
        AcheData { ache: AcheVec { vals: v } }
    }

    /// Merges `b` into `a` by the elementwise-maximum law; reports whether
    /// the stored vector actually changed.
    pub fn merge(a: &mut AcheData, b: &AcheData) -> (changed: bool)
        ensures
            final(a).ache.vals@ == max_merge_spec(old(a).ache.vals@, b.ache.vals@),
            changed == (final(a).ache.vals@ != old(a).ache.vals@),
    {
        let merged = AcheVec::max_merge(&a.ache, &b.ache);
        let changed = !merged.same_as(&a.ache);
        proof {
            if merged.vals@ =~= a.ache.vals@ {
                assert(merged.vals@ == a.ache.vals@);
            }
        }
        a.ache = merged;
        changed
    }
}

} // verus!
