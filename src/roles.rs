use vstd::prelude::*;

verus! {

/// A role offered by a role button.
#[derive(Clone, Debug, PartialEq, Eq)]
pub struct RoleEntry {
    pub role_id: u64,
    pub description: String,
    pub emoji: String,
}

/// A role button: the role granted on click, and the roles one can pick.
#[derive(Clone, Debug)]
pub struct RoleButton {
    pub on_click: Option<u64>,
    pub roles: Vec<RoleEntry>,
}

#[derive(Clone, Copy, Debug, PartialEq, Eq, Structural)]
pub enum RoleError {
    /// The role is not offered by the button.
    NotConfigured,
}

/// Index of the first entry for `role_id`, or the length.
pub open spec fn role_index(s: Seq<RoleEntry>, role_id: u64) -> nat
    decreases s.len(),
{
    if s.len() == 0 {
        0
    } else if s[0].role_id == role_id {
        0
    } else {
        1 + role_index(s.drop_first(), role_id)
    }
}

pub proof fn lemma_role_index(s: Seq<RoleEntry>, role_id: u64, i: int)
    requires
        0 <= i <= s.len(),
        forall|k: int| 0 <= k < i ==> (#[trigger] s[k]).role_id != role_id,
        i == s.len() || s[i].role_id == role_id,
    ensures
        role_index(s, role_id) == i,
    decreases s.len(),
{
    if s.len() > 0 && i > 0 {
        let t = s.drop_first();
        assert forall|k: int| 0 <= k < i - 1 implies (#[trigger] t[k]).role_id != role_id by {
            assert(t[k] == s[k + 1]);
        }
        lemma_role_index(t, role_id, i - 1);
    }
}

fn find_role(roles: &Vec<RoleEntry>, role_id: u64) -> (i: usize)
    ensures
        i == role_index(roles@, role_id),
        i <= roles@.len(),
{
    let mut i: usize = 0;
    while i < roles.len() && roles[i].role_id != role_id
        invariant
            0 <= i <= roles@.len(),
            forall|k: int| 0 <= k < i ==> (#[trigger] roles@[k]).role_id != role_id,
        decreases roles@.len() - i,
    {
        i += 1;
    }
    proof {
        lemma_role_index(roles@, role_id, i as int);
    }
    i
}

impl RoleButton {
    /// A button without roles.
    pub fn new() -> (r: RoleButton)
        ensures
            r.on_click is None,
            r.roles@ == Seq::<RoleEntry>::empty(),
    {
        RoleButton { on_click: None, roles: Vec::new() }
    }

    /// Offers `entry`, replacing the entry of the same role if there is one.
    pub fn insert_role(&mut self, entry: RoleEntry)
        ensures
            final(self).on_click == old(self).on_click,
            ({
                let i = role_index(old(self).roles@, entry.role_id);
                if i < old(self).roles@.len() {
                    final(self).roles@ == old(self).roles@.update(i as int, entry)
                } else {
                    final(self).roles@ == old(self).roles@.push(entry)
                }
            }),
    {
        let i = find_role(&self.roles, entry.role_id);
        if i < self.roles.len() {
            self.roles.set(i, entry);
        } else {
            self.roles.push(entry);
        }
    }

    /// Stops offering `role_id` and returns its entry.
    pub fn remove_role(&mut self, role_id: u64) -> (r: Result<RoleEntry, RoleError>)
        ensures
            final(self).on_click == old(self).on_click,
            ({
                let i = role_index(old(self).roles@, role_id);
                if i < old(self).roles@.len() {
                    &&& r == Ok::<RoleEntry, RoleError>(old(self).roles@[i as int])
                    &&& final(self).roles@ == old(self).roles@.remove(i as int)
                } else {
                    &&& r == Err::<RoleEntry, RoleError>(RoleError::NotConfigured)
                    &&& final(self).roles@ == old(self).roles@
                }
            }),
    {
        let i = find_role(&self.roles, role_id);
        if i < self.roles.len() {
            Ok(self.roles.remove(i))
        } else {
            Err(RoleError::NotConfigured)
        }
    }
}

/// The roles of `configured`, in order, that are in `a` and not in `b`.
pub open spec fn in_first_only(configured: Seq<u64>, a: Seq<u64>, b: Seq<u64>) -> Seq<u64>
    decreases configured.len(),
{
    if configured.len() == 0 {
        Seq::empty()
    } else {
        let rest = in_first_only(configured.drop_last(), a, b);
        let r = configured.last();
        if a.contains(r) && !b.contains(r) {
            rest.push(r)
        } else {
            rest
        }
    }
}

fn contains(v: &Vec<u64>, x: u64) -> (r: bool)
    ensures
        r == v@.contains(x),
{
    let mut i: usize = 0;
    while i < v.len()
        invariant
            0 <= i <= v@.len(),
            forall|k: int| 0 <= k < i ==> v@[k] != x,
        decreases v@.len() - i,
    {
        if v[i] == x {
            return true;
        }
        i += 1;
    }
    false
}

fn only_in_first(configured: &Vec<u64>, a: &Vec<u64>, b: &Vec<u64>) -> (r: Vec<u64>)
    ensures
        r@ == in_first_only(configured@, a@, b@),
{
    let ghost s = configured@;
    let mut out: Vec<u64> = Vec::new();
    let mut i: usize = 0;
    while i < configured.len()
        invariant
            0 <= i <= s.len(),
            s == configured@,
            out@ == in_first_only(s.subrange(0, i as int), a@, b@),
        decreases s.len() - i,
    {
        assert(s.subrange(0, i + 1).drop_last() =~= s.subrange(0, i as int));
        let r = configured[i];
        if contains(a, r) && !contains(b, r) {
            out.push(r);
        }
        i += 1;
    }
    assert(s.subrange(0, s.len() as int) =~= s);
    out
}

/// What a selection in the role menu changes: among the roles the button offers
/// (`configured`, in order), those selected but not held are added, and those held but
/// not selected are removed. Roles the button does not offer are left alone.
pub fn role_changes(configured: &Vec<u64>, selected: &Vec<u64>, current: &Vec<u64>) -> (r: (
    Vec<u64>,
    Vec<u64>,
))
    ensures
        r.0@ == in_first_only(configured@, selected@, current@),
        r.1@ == in_first_only(configured@, current@, selected@),
{
    (only_in_first(configured, selected, current), only_in_first(configured, current, selected))
}

} // verus!
