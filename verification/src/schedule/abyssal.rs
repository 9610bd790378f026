//! The abyssal chain of the short shift: the owned abyssal hunters, and every
//! way of spreading them over the factories that may change.

use vstd::prelude::*;

use crate::instances::{instance_buffs, instance_tags, OperatorInstances};
use crate::operbox::OperBox;
use crate::pool::manufacture::ManuPoolEntry;
use crate::pool::ranked::first_unmodeled_for;
use crate::skill_table::SkillTable;
use crate::text::{contains_name, has_name, spec_trim, str_eq, views};
use crate::tier::{spec_tier_of, OperatorTier, PromotionTier};

verus! {

/// The four abyssal hunters, in order.
pub open spec fn abyssal_hunters() -> Seq<Seq<char>> {
    seq!["乌尔比安"@, "斯卡蒂"@, "幽灵鲨"@, "安哲拉"@]
}

/// The hunter is owned and not yet used by the alpha or beta team.
pub open spec fn hunter_available(owned: Map<Seq<char>, crate::roster::OperatorProgress>, used: Seq<String>) -> spec_fn(
    Seq<char>,
) -> bool {
    |n: Seq<char>| owned.contains_key(spec_trim(n)) && !has_name(used, n)
}

/// The abyssal hunters the box owns that the alpha and beta teams do not use,
/// in the fixed hunter order.
pub fn owned_abyssal_hunters(operbox: &OperBox, used_ab: &Vec<String>) -> (res: Vec<String>)
    ensures
        res@.map_values(|s: String| s@) == abyssal_hunters().filter(hunter_available(operbox.owned@, used_ab@)),
{
    let mut names: Vec<&str> = Vec::new();
    names.push("乌尔比安");
    names.push("斯卡蒂");
    names.push("幽灵鲨");
    names.push("安哲拉");
    let ghost all = abyssal_hunters();
    let ghost pred = hunter_available(operbox.owned@, used_ab@);
    assert(names@.map_values(|s: &str| s@) == all);
    let mut out: Vec<String> = Vec::new();
    let mut k: usize = 0;
    while k < names.len()
        invariant
            0 <= k <= names@.len(),
            names@.len() == 4,
            names@.map_values(|s: &str| s@) == all,
            pred == hunter_available(operbox.owned@, used_ab@),
            out@.map_values(|s: String| s@) == all.take(k as int).filter(pred),
        decreases names@.len() - k,
    {
        let name = names[k];
        proof {
            assert(all[k as int] == name@);
            all.take(k as int).lemma_filter_push(name@, pred);
            assert(all.take(k + 1) == all.take(k as int).push(name@));
        }
        if operbox.owns(name) && !contains_name(used_ab, name) {
            let ghost before = out@;
            out.push(String::from_str(name));
            proof {
                assert(out@.map_values(|s: String| s@) =~= before.map_values(|s: String| s@).push(name@));
            }
        }
        k += 1;
    }
    assert(all.take(4) == all);
    out
}

/// Prepends `c`.
pub open spec fn cons(c: usize) -> spec_fn(Seq<usize>) -> Seq<usize> {
    |s: Seq<usize>| seq![c] + s
}

/// Prefixes `pre`.
pub open spec fn prefixed(pre: Seq<usize>) -> spec_fn(Seq<usize>) -> Seq<usize> {
    |s: Seq<usize>| pre + s
}

/// Every way, in lexicographic order, to fill `slots` rooms with 0 to 3
/// hunters each, `remaining` hunters in all.
pub open spec fn count_vectors(remaining: nat, slots: nat) -> Seq<Seq<usize>>
    decreases slots, 5int,
{
    if slots == 0 {
        if remaining == 0 {
            seq![Seq::empty()]
        } else {
            Seq::empty()
        }
    } else {
        vectors_from(remaining, slots, 0)
    }
}

/// The vectors of `count_vectors(remaining, slots)` whose first count is at
/// least `c`.
pub open spec fn vectors_from(remaining: nat, slots: nat, c: nat) -> Seq<Seq<usize>>
    decreases slots, 4 - c,
{
    if slots == 0 || c > 3 || c > remaining {
        Seq::empty()
    } else {
        count_vectors((remaining - c) as nat, (slots - 1) as nat).map_values(cons(c as usize)) + vectors_from(
            remaining,
            slots,
            c + 1,
        )
    }
}

/// The values of a list of vectors.
pub open spec fn vec_views(v: Seq<Vec<usize>>) -> Seq<Seq<usize>> {
    v.map_values(|x: Vec<usize>| x@)
}

proof fn lemma_prefix_cons(ss: Seq<Seq<usize>>, pre: Seq<usize>, c: usize)
    ensures
        ss.map_values(cons(c)).map_values(prefixed(pre)) == ss.map_values(prefixed(pre.push(c))),
{
    assert forall|i: int| 0 <= i < ss.len() implies #[trigger] ss.map_values(cons(c)).map_values(prefixed(pre))[i]
        == ss.map_values(prefixed(pre.push(c)))[i] by {
        assert(pre + (seq![c] + ss[i]) =~= pre.push(c) + ss[i]);
    }
    assert(ss.map_values(cons(c)).map_values(prefixed(pre)) =~= ss.map_values(prefixed(pre.push(c))));
}

/// Appends to `out`, each prefixed by `current`, every way to spread
/// `remaining` hunters over the rooms still open (`room_count` minus the
/// rooms `current` already fixed), at most three per room.
pub fn enumerate_abyssal_counts(
    remaining: usize,
    room_count: usize,
    current: &mut Vec<usize>,
    out: &mut Vec<Vec<usize>>,
)
    requires
        old(current)@.len() <= room_count,
    ensures
        final(current)@ == old(current)@,
        vec_views(final(out)@) == vec_views(old(out)@) + count_vectors(
            remaining as nat,
            (room_count - old(current)@.len()) as nat,
        ).map_values(prefixed(old(current)@)),
    decreases room_count - old(current)@.len(),
{
    let ghost slots = (room_count - current@.len()) as nat;
    if current.len() == room_count {
        if remaining == 0 {
            let ghost before = vec_views(out@);
            out.push(current.clone());
            proof {
                assert(current@ + Seq::<usize>::empty() =~= current@);
                assert(vec_views(out@) =~= before + count_vectors(0, 0).map_values(prefixed(current@)));
            }
        } else {
            assert(vec_views(out@) =~= vec_views(out@) + count_vectors(remaining as nat, 0).map_values(
                prefixed(current@),
            ));
        }
        return ;
    }
    let top = if remaining < 3 {
        remaining
    } else {
        3
    };
    let ghost pre = current@;
    let ghost start = vec_views(out@);
    let mut count: usize = 0;
    while count <= top
        invariant
            0 <= count <= top + 1,
            top <= 3,
            top <= remaining,
            current@ == pre,
            old(current)@ == pre,
            pre.len() < room_count,
            slots == room_count - pre.len(),
            slots > 0,
            start + count_vectors(remaining as nat, slots).map_values(prefixed(pre)) == vec_views(out@)
                + vectors_from(remaining as nat, slots, count as nat).map_values(prefixed(pre)),
        decreases top + 1 - count,
    {
        let ghost before = vec_views(out@);
        current.push(count);
        assert(current@.len() == pre.len() + 1);
        assert(room_count - current@.len() < room_count - pre.len());
        enumerate_abyssal_counts(remaining - count, room_count, current, out);
        current.pop();
        proof {
            let part = count_vectors((remaining - count) as nat, (slots - 1) as nat);
            assert(pre.push(count).len() == pre.len() + 1);
            assert((room_count - pre.push(count).len()) as nat == (slots - 1) as nat);
            lemma_prefix_cons(part, pre, count);
            let rest = vectors_from(remaining as nat, slots, (count + 1) as nat);
            assert(vectors_from(remaining as nat, slots, count as nat) == part.map_values(cons(count)) + rest);
            assert((part.map_values(cons(count)) + rest).map_values(prefixed(pre)) =~= part.map_values(
                cons(count),
            ).map_values(prefixed(pre)) + rest.map_values(prefixed(pre)));
            assert(vec_views(out@) == before + part.map_values(prefixed(pre.push(count))));
        }
        count += 1;
    }
    proof {
        assert(vectors_from(remaining as nat, slots, count as nat) == Seq::<Seq<usize>>::empty());
        assert(vec_views(out@) + Seq::<Seq<usize>>::empty().map_values(prefixed(pre)) =~= vec_views(out@));
    }
}

/// The group tag every abyssal hunter counts under.
pub open spec fn abyssal_tag() -> Seq<char> {
    "cc.g.abyssal"@
}

/// Tags `t` with the abyssal tag added at the end when missing.
pub open spec fn with_abyssal_tag(t: Seq<Seq<char>>) -> Seq<Seq<char>> {
    if t.contains(abyssal_tag()) {
        t
    } else {
        t.push(abyssal_tag())
    }
}

/// The factory entry of a hunter placed on the abyssal chain: owned, all its
/// factory skills modeled (`None` otherwise); no hint, always carrying the
/// abyssal tag, classified as a cross-station piece.
pub fn abyssal_manu_entry(name: &str, operbox: &OperBox, instances: &OperatorInstances, table: &SkillTable) -> (res:
    Option<ManuPoolEntry>)
    ensures
        res is Some <==> ({
            &&& operbox.owned@.contains_key(spec_trim(name@))
            &&& first_unmodeled_for(
                instance_buffs(
                    instances.instances@,
                    name@,
                    spec_tier_of(
                        operbox.owned@[spec_trim(name@)].elite,
                        operbox.owned@[spec_trim(name@)].rarity,
                    ),
                    "manufacture"@,
                ),
                table.skills@,
                "manufacture"@,
            ) is None
        }),
        res matches Some(e) ==> {
            let progress = operbox.owned@[spec_trim(name@)];
            let tier = spec_tier_of(progress.elite, progress.rarity);
            &&& e.name@ == name@
            &&& e.elite == progress.elite
            &&& e.progress == progress
            &&& e.buff_ids@ == instance_buffs(instances.instances@, name@, tier, "manufacture"@)
            &&& views(e.tags@) == with_abyssal_tag(views(instance_tags(instances.instances@, name@, tier)))
            &&& e.flat_eff_hint_milli == 0
            &&& !e.has_l2_delegate
            &&& e.tier == OperatorTier::CrossStation
        },
{
    let progress = match operbox.progress_of(name) {
        Some(p) => p,
        None => return None,
    };
    let tier = PromotionTier::from_progress(progress);
    let buff_ids = instances.resolve_buff_ids(name, tier, "manufacture");
    let ghost skills = table.skills@;
    let mut i: usize = 0;
    assert(buff_ids@.skip(0) == buff_ids@);
    while i < buff_ids.len()
        invariant
            0 <= i <= buff_ids@.len(),
            skills == table.skills@,
            operbox.owned@.contains_key(spec_trim(name@)),
            progress == operbox.owned@[spec_trim(name@)],
            buff_ids@ == instance_buffs(
                instances.instances@,
                name@,
                spec_tier_of(progress.elite, progress.rarity),
                "manufacture"@,
            ),
            first_unmodeled_for(buff_ids@, skills, "manufacture"@) == first_unmodeled_for(
                buff_ids@.skip(i as int),
                skills,
                "manufacture"@,
            ),
        decreases buff_ids@.len() - i,
    {
        let bid = &buff_ids[i];
        assert(buff_ids@.skip(i as int)[0] == *bid);
        assert(buff_ids@.skip(i as int).drop_first() == buff_ids@.skip(i + 1));
        match table.get(bid.as_str()) {
            None => return None,
            Some(skill) => {
                if !str_eq(skill.facility.as_str(), "manufacture") {
                    return None;
                }
            },
        }
        i += 1;
    }
    assert(buff_ids@.skip(i as int).len() == 0);
    let mut tags = instances.tags_for(name, tier);
    let ghost t0 = tags@;
    proof {
        crate::schedule::halves::lemma_has_name_views(t0, abyssal_tag());
    }
    if !contains_name(&tags, "cc.g.abyssal") {
        tags.push(String::from_str("cc.g.abyssal"));
        assert(views(tags@) =~= views(t0).push(abyssal_tag()));
    }
    Some(
        ManuPoolEntry {
            name: String::from_str(name),
            elite: progress.elite,
            progress,
            buff_ids,
            tags,
            flat_eff_hint_milli: 0,
            has_l2_delegate: false,
            tier: OperatorTier::CrossStation,
        },
    )
}

} // verus!
