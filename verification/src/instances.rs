//! Operator instance data: for each operator and promotion tier, its group
//! tags and the base skills it brings to each facility.

use vstd::prelude::*;

use crate::text::clone_strings;
use crate::tier::PromotionTier;

verus! {

/// The skills an operator instance brings to one facility.
#[derive(Debug)]
pub struct FacilityBinding {
    /// Facility key (`trade`, `manufacture`, `power`, `control`, `office`, …).
    pub facility: String,
    pub buff_ids: Vec<String>,
}

/// One operator at one promotion tier.
#[derive(Debug)]
pub struct OperatorInstance {
    pub name: String,
    pub tier: PromotionTier,
    pub tags: Vec<String>,
    pub facilities: Vec<FacilityBinding>,
}

/// All operator instances; the first instance of a name and tier counts.
#[derive(Debug)]
pub struct OperatorInstances {
    pub instances: Vec<OperatorInstance>,
}

/// The first instance of `name` at `tier`.
pub open spec fn lookup_instance(
    s: Seq<OperatorInstance>,
    name: Seq<char>,
    tier: PromotionTier,
) -> Option<OperatorInstance>
    decreases s.len(),
{
    if s.len() == 0 {
        None
    } else if s[0].name@ == name && s[0].tier == tier {
        Some(s[0])
    } else {
        lookup_instance(s.drop_first(), name, tier)
    }
}

/// The first binding of `facility` in a list of bindings.
pub open spec fn lookup_binding(s: Seq<FacilityBinding>, facility: Seq<char>) -> Option<FacilityBinding>
    decreases s.len(),
{
    if s.len() == 0 {
        None
    } else if s[0].facility@ == facility {
        Some(s[0])
    } else {
        lookup_binding(s.drop_first(), facility)
    }
}

/// The instance of `name` at `tier` works in `facility`.
pub open spec fn instance_has_facility(
    s: Seq<OperatorInstance>,
    name: Seq<char>,
    tier: PromotionTier,
    facility: Seq<char>,
) -> bool {
    match lookup_instance(s, name, tier) {
        Some(inst) => lookup_binding(inst.facilities@, facility) is Some,
        None => false,
    }
}

/// Group tags of `name` at `tier` (none when there is no such instance).
pub open spec fn instance_tags(s: Seq<OperatorInstance>, name: Seq<char>, tier: PromotionTier) -> Seq<String> {
    match lookup_instance(s, name, tier) {
        Some(inst) => inst.tags@,
        None => Seq::empty(),
    }
}

/// Skills `name` at `tier` brings to `facility` (none when unbound).
pub open spec fn instance_buffs(
    s: Seq<OperatorInstance>,
    name: Seq<char>,
    tier: PromotionTier,
    facility: Seq<char>,
) -> Seq<String> {
    match lookup_instance(s, name, tier) {
        Some(inst) => match lookup_binding(inst.facilities@, facility) {
            Some(b) => b.buff_ids@,
            None => Seq::empty(),
        },
        None => Seq::empty(),
    }
}

impl OperatorInstances {
    /// The instance of `name` at `tier`.
    pub fn get(&self, name: &str, tier: PromotionTier) -> (res: Option<&OperatorInstance>)
        ensures
            match res {
                Some(inst) => lookup_instance(self.instances@, name@, tier) == Some(*inst),
                None => lookup_instance(self.instances@, name@, tier) is None,
            },
    {
        let target = String::from_str(name);
        let mut i: usize = 0;
        assert(self.instances@.skip(0) == self.instances@);
        while i < self.instances.len()
            invariant
                0 <= i <= self.instances@.len(),
                target@ == name@,
                lookup_instance(self.instances@, name@, tier) == lookup_instance(
                    self.instances@.skip(i as int),
                    name@,
                    tier,
                ),
            decreases self.instances@.len() - i,
        {
            let inst = &self.instances[i];
            assert(self.instances@.skip(i as int)[0] == *inst);
            assert(self.instances@.skip(i as int).drop_first() == self.instances@.skip(i + 1));
            if inst.name == target && inst.tier == tier {
                return Some(inst);
            }
            i += 1;
        }
        None
    }

    /// Group tags of `name` at `tier`.
    pub fn tags_for(&self, name: &str, tier: PromotionTier) -> (res: Vec<String>)
        ensures
            res@ == instance_tags(self.instances@, name@, tier),
    {
        match self.get(name, tier) {
            Some(inst) => clone_strings(&inst.tags),
            None => Vec::new(),
        }
    }

    /// Whether `name` at `tier` works in `facility`.
    pub fn has_facility(&self, name: &str, tier: PromotionTier, facility: &str) -> (res: bool)
        ensures
            res == instance_has_facility(self.instances@, name@, tier, facility@),
    {
        match self.get(name, tier) {
            Some(inst) => binding(&inst.facilities, facility).is_some(),
            None => false,
        }
    }

    /// Skills `name` at `tier` brings to `facility`.
    pub fn resolve_buff_ids(&self, name: &str, tier: PromotionTier, facility: &str) -> (res: Vec<String>)
        ensures
            res@ == instance_buffs(self.instances@, name@, tier, facility@),
    {
        match self.get(name, tier) {
            Some(inst) => match binding(&inst.facilities, facility) {
                Some(b) => clone_strings(&b.buff_ids),
                None => Vec::new(),
            },
            None => Vec::new(),
        }
    }
}

/// The first binding of `facility`.
fn binding<'a>(bindings: &'a Vec<FacilityBinding>, facility: &str) -> (res: Option<&'a FacilityBinding>)
    ensures
        match res {
            Some(b) => lookup_binding(bindings@, facility@) == Some(*b),
            None => lookup_binding(bindings@, facility@) is None,
        },
{
    let target = String::from_str(facility);
    let mut i: usize = 0;
    assert(bindings@.skip(0) == bindings@);
    while i < bindings.len()
        invariant
            0 <= i <= bindings@.len(),
            target@ == facility@,
            lookup_binding(bindings@, facility@) == lookup_binding(bindings@.skip(i as int), facility@),
        decreases bindings@.len() - i,
    {
        let b = &bindings[i];
        assert(bindings@.skip(i as int)[0] == *b);
        assert(bindings@.skip(i as int).drop_first() == bindings@.skip(i + 1));
        if b.facility == target {
            return Some(b);
        }
        i += 1;
    }
    None
}

} // verus!
