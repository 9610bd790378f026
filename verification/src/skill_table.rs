//! The skill table: every base skill, keyed by buff id, with the facility it
//! belongs to and its effect atoms.

use vstd::prelude::*;

use crate::types::EffectAtom;

verus! {

/// One base skill.
#[derive(Debug)]
pub struct Skill {
    /// Buff id (`skill_table.id == buff_id`).
    pub id: String,
    /// Facility key the skill belongs to.
    pub facility: String,
    pub atoms: Vec<EffectAtom>,
}

/// All base skills; the first skill with an id counts.
#[derive(Debug)]
pub struct SkillTable {
    pub skills: Vec<Skill>,
}

/// The first skill with id `id`.
pub open spec fn lookup_skill(skills: Seq<Skill>, id: Seq<char>) -> Option<Skill>
    decreases skills.len(),
{
    if skills.len() == 0 {
        None
    } else if skills[0].id@ == id {
        Some(skills[0])
    } else {
        lookup_skill(skills.drop_first(), id)
    }
}

impl SkillTable {
    /// The skill with buff id `id`.
    pub fn get(&self, id: &str) -> (res: Option<&Skill>)
        ensures
            match res {
                Some(skill) => lookup_skill(self.skills@, id@) == Some(*skill),
                None => lookup_skill(self.skills@, id@) is None,
            },
    {
        let target = String::from_str(id);
        let mut i: usize = 0;
        assert(self.skills@.skip(0) == self.skills@);
        while i < self.skills.len()
            invariant
                0 <= i <= self.skills@.len(),
                target@ == id@,
                lookup_skill(self.skills@, id@) == lookup_skill(self.skills@.skip(i as int), id@),
            decreases self.skills@.len() - i,
        {
            let skill = &self.skills[i];
            assert(self.skills@.skip(i as int)[0] == *skill);
            assert(self.skills@.skip(i as int).drop_first() == self.skills@.skip(i + 1));
            if skill.id == target {
                return Some(skill);
            }
            i += 1;
        }
        None
    }

    /// All skills, in table order.
    pub fn skills(&self) -> (res: &Vec<Skill>)
        ensures
            res@ == self.skills@,
    {
        &self.skills
    }
}

} // verus!
