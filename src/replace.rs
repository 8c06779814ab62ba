//! Block replacement on the canonical model: rules applied in order to every
//! block state.
use vstd::prelude::*;
use crate::model::{BlockData, BlockStatePosList, BlockView};

verus! {

/// A replacement rule.
#[derive(Debug)]
pub enum RuleMatcher {
    /// Blocks named `original` take the name `replacement`, keeping their
    /// properties.
    IdMatch { original: String, replacement: String },
    /// Blocks equal to `original` (same name, same properties in any order)
    /// become `replacement`.
    FullMatch { original: BlockData, replacement: BlockData },
}

/// Every property of `a` is a property of `b`, and they have as many.
pub open spec fn props_match(a: Seq<(Seq<char>, Seq<char>)>, b: Seq<(Seq<char>, Seq<char>)>) -> bool {
    &&& a.len() == b.len()
    &&& forall|i: int| 0 <= i < a.len() ==> #[trigger] b.contains(a[i])
}

/// Whether rule `r` applies to state `b`.
pub open spec fn rule_matches(r: RuleMatcher, b: BlockView) -> bool {
    match r {
        RuleMatcher::IdMatch { original, .. } => b.0 == original@,
        RuleMatcher::FullMatch { original, .. } => b.0 == original@.0 && props_match(b.1, original@.1),
    }
}

/// State `b` after rule `r`.
pub open spec fn apply_rule(r: RuleMatcher, b: BlockView) -> BlockView {
    if rule_matches(r, b) {
        match r {
            RuleMatcher::IdMatch { replacement, .. } => (replacement@, b.1),
            RuleMatcher::FullMatch { replacement, .. } => replacement@,
        }
    } else {
        b
    }
}

/// State `b` after every rule, first to last.
pub open spec fn apply_rules(rules: Seq<RuleMatcher>, b: BlockView) -> BlockView
    decreases rules.len(),
{
    if rules.len() == 0 {
        b
    } else {
        apply_rule(rules.last(), apply_rules(rules.drop_last(), b))
    }
}

fn props_equal(a: &Vec<(String, String)>, b: &Vec<(String, String)>) -> (r: bool)
    ensures
        r == props_match(
            a@.map_values(|p: (String, String)| (p.0@, p.1@)),
            b@.map_values(|p: (String, String)| (p.0@, p.1@)),
        ),
{
    let ghost av = a@.map_values(|p: (String, String)| (p.0@, p.1@));
    let ghost bv = b@.map_values(|p: (String, String)| (p.0@, p.1@));
    if a.len() != b.len() {
        return false;
    }
    let mut i: usize = 0;
    while i < a.len()
        invariant
            i <= a.len(),
            a.len() == b.len(),
            av == a@.map_values(|p: (String, String)| (p.0@, p.1@)),
            bv == b@.map_values(|p: (String, String)| (p.0@, p.1@)),
            forall|m: int| 0 <= m < i ==> #[trigger] bv.contains(av[m]),
        decreases a.len() - i,
    {
        let mut found = false;
        let mut j: usize = 0;
        while j < b.len()
            invariant_except_break
                !found,
                forall|m: int| 0 <= m < j ==> bv[m] != av[i as int],
            invariant
                i < a.len(),
                j <= b.len(),
                av == a@.map_values(|p: (String, String)| (p.0@, p.1@)),
                bv == b@.map_values(|p: (String, String)| (p.0@, p.1@)),
            ensures
                found ==> bv.contains(av[i as int]),
                !found ==> forall|m: int| 0 <= m < b.len() ==> bv[m] != av[i as int],
            decreases b.len() - j,
        {
            if a[i].0 == b[j].0 && a[i].1 == b[j].1 {
                found = true;
                proof {
                    assert(bv[j as int] == av[i as int]);
                }
                break;
            }
            j = j + 1;
        }
        if !found {
            proof {
                assert(bv.len() == b.len());
                assert(!bv.contains(av[i as int]));
                assert(!props_match(av, bv));
            }
            return false;
        }
        i = i + 1;
    }
    true
}

fn apply_one(r: &RuleMatcher, b: BlockData) -> (out: BlockData)
    ensures
        out@ == apply_rule(*r, b@),
{
    match r {
        RuleMatcher::IdMatch { original, replacement } => {
            if b.name == *original {
                BlockData { name: replacement.clone(), properties: b.properties }
            } else {
                b
            }
        },
        RuleMatcher::FullMatch { original, replacement } => {
            if b.name == original.name && props_equal(&b.properties, &original.properties) {
                replacement.duplicate()
            } else {
                b
            }
        },
    }
}

/// Applies the rules, in order, to every state of the list; every block
/// holding a state then holds the rewritten state.
pub fn replace_blocks(list: &mut BlockStatePosList, rules: &Vec<RuleMatcher>)
    ensures
        final(list).states@.len() == old(list).states@.len(),
        final(list).elements@ == old(list).elements@,
        forall|s: int| 0 <= s < old(list).states@.len() ==>
            (#[trigger] final(list).states@[s])@ == apply_rules(rules@, old(list).states@[s]@),
{
    let n = list.states.len();
    let mut s: usize = 0;
    while s < n
        invariant
            n == list.states.len(),
            n == old(list).states@.len(),
            list.elements@ == old(list).elements@,
            s <= n,
            forall|t: int| 0 <= t < s ==> (#[trigger] list.states@[t])@ == apply_rules(rules@, old(list).states@[t]@),
            forall|t: int| s <= t < n ==> #[trigger] list.states@[t] == old(list).states@[t],
        decreases n - s,
    {
        let mut cur = list.states[s].duplicate();
        let mut k: usize = 0;
        while k < rules.len()
            invariant
                k <= rules.len(),
                s < n,
                n == list.states.len(),
                list.states@[s as int] == old(list).states@[s as int],
                cur@ == apply_rules(rules@.take(k as int), old(list).states@[s as int]@),
            decreases rules.len() - k,
        {
            proof {
                assert(rules@.take(k + 1).drop_last() =~= rules@.take(k as int));
                assert(rules@.take(k + 1).last() == rules@[k as int]);
            }
            cur = apply_one(&rules[k], cur);
            k = k + 1;
        }
        proof {
            assert(rules@.take(rules.len() as int) =~= rules@);
        }
        list.states.set(s, cur);
        s = s + 1;
    }
}

} // verus!
