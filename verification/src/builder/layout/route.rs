//! Which obstacles an edge may pass through: its own end nodes, and every
//! container that holds one of its ends. The routing geometry itself works
//! on coordinates and lives outside this library.

use vstd::prelude::*;

use super::crossing::layer_view;

verus! {

/// The members of each container, by container id, as character sequences.
pub open spec fn members_view(members: Seq<(String, Vec<String>)>) -> Seq<(Seq<char>, Seq<Seq<char>>)> {
    members.map_values(|p: (String, Vec<String>)| (p.0@, layer_view(p.1@)))
}

/// Index of the first entry for container `owner` below `k`, or -1.
pub open spec fn entry_pos(members: Seq<(Seq<char>, Seq<Seq<char>>)>, owner: Seq<char>, k: int) -> int
    decreases k,
{
    if k <= 0 {
        -1
    } else {
        let p = entry_pos(members, owner, k - 1);
        if p >= 0 {
            p
        } else if members[k - 1].0 == owner {
            k - 1
        } else {
            -1
        }
    }
}

/// Whether the edge from `s` to `t` may pass through the obstacle owned by
/// `owner`: the owner is one of its ends, or a container that lists one of
/// its ends among its members.
pub open spec fn spec_edge_skip(
    s: Seq<char>,
    t: Seq<char>,
    members: Seq<(Seq<char>, Seq<Seq<char>>)>,
    owner: Seq<char>,
) -> bool {
    let k = entry_pos(members, owner, members.len() as int);
    ||| owner == s
    ||| owner == t
    ||| (k >= 0 && (members[k].1.contains(s) || members[k].1.contains(t)))
}

fn contains_id(ids: &Vec<String>, id: &String) -> (b: bool)
    ensures
        b == layer_view(ids@).contains(id@),
{
    let mut i: usize = 0;
    while i < ids.len()
        invariant
            i <= ids@.len(),
            forall|j: int| 0 <= j < i ==> ids@[j]@ != id@,
        decreases ids@.len() - i,
    {
        if ids[i] == *id {
            assert(layer_view(ids@)[i as int] == id@);
            return true;
        }
        i = i + 1;
    }
    assert forall|j: int| 0 <= j < layer_view(ids@).len() implies layer_view(ids@)[j] != id@ by {
        assert(layer_view(ids@)[j] == ids@[j]@);
    }
    false
}

/// Whether the edge from `s_id` to `t_id` may pass through the obstacle
/// owned by `owner` (a node or container id): true for the edge's own end
/// nodes, and for a container whose members (the first entry for that
/// container in `members`) include either end.
pub fn edge_skip(s_id: &String, t_id: &String, members: &Vec<(String, Vec<String>)>, owner: &String) -> (r: bool)
    ensures
        r == spec_edge_skip(s_id@, t_id@, members_view(members@), owner@),
{
    if *owner == *s_id || *owner == *t_id {
        return true;
    }
    let ghost mv = members_view(members@);
    let mut k: usize = 0;
    while k < members.len()
        invariant
            k <= members@.len(),
            mv == members_view(members@),
            owner@ != s_id@ && owner@ != t_id@,
            entry_pos(mv, owner@, k as int) == -1,
        decreases members@.len() - k,
    {
        if members[k].0 == *owner {
            let m = &members[k].1;
            assert(mv[k as int].1 == layer_view(m@));
            assert(entry_pos(mv, owner@, k + 1) == k);
            proof {
                lemma_entry_pos_found(mv, owner@, k + 1, mv.len() as int);
            }
            let hit_s = contains_id(m, s_id);
            let hit_t = contains_id(m, t_id);
            return hit_s || hit_t;
        }
        k = k + 1;
    }
    false
}

proof fn lemma_entry_pos_found(members: Seq<(Seq<char>, Seq<Seq<char>>)>, owner: Seq<char>, k: int, m: int)
    requires
        0 <= k <= m,
        entry_pos(members, owner, k) >= 0,
    ensures
        entry_pos(members, owner, m) == entry_pos(members, owner, k),
    decreases m - k,
{
    if m > k {
        lemma_entry_pos_found(members, owner, k, m - 1);
    }
}

} // verus!
