//! The descendents of a process: the parent of every process is read from its
//! status file, the processes are grouped by parent, and the tree below a process
//! is walked depth first.
use std::collections::HashMap;

use vstd::prelude::*;

use crate::parse::{parse_i32, parse_i32_spec, split_chars, split_on};
use crate::text::chars_of;
use crate::types::Pid;

verus! {

broadcast use vstd::std_specs::hash::group_hash_axioms;

/// Why the descendents of a process could not be listed.
#[derive(Debug, Clone, Copy, PartialEq, Eq)]
pub enum DescendentsError {
    /// A status file has no `PPid:` line.
    PpidNotFound,
    /// The `PPid:` line does not hold a process id.
    InvalidPpid,
}

/// The children lists of a map from parents to children.
pub open spec fn children_view(m: Map<Pid, Vec<Pid>>) -> Map<Pid, Seq<Pid>> {
    m.map_values(|v: Vec<Pid>| v@)
}

/// The children of `p`, or none.
pub open spec fn children_of(m: Map<Pid, Seq<Pid>>, p: Pid) -> Seq<Pid> {
    if m.contains_key(p) {
        m[p]
    } else {
        Seq::empty()
    }
}

/// The order in which the walk visits processes: it pops the last process of `stack`,
/// visits it, and pushes its children, until the stack is empty. `None` when that
/// takes more than `fuel` steps.
pub open spec fn walk(m: Map<Pid, Seq<Pid>>, stack: Seq<Pid>, fuel: nat) -> Option<Seq<Pid>>
    decreases fuel,
{
    if stack.len() == 0 {
        Some(Seq::empty())
    } else if fuel == 0 {
        None
    } else {
        let p = stack.last();
        match walk(m, stack.drop_last() + children_of(m, p), (fuel - 1) as nat) {
            Some(r) => Some(seq![p] + r),
            None => None,
        }
    }
}

/// The walk from `root` comes to an end: no process below it is its own ancestor.
pub open spec fn walk_ends(m: Map<Pid, Seq<Pid>>, root: Pid) -> bool {
    exists|f: nat| (#[trigger] walk(m, seq![root], f)) is Some
}

/// Enough steps for the walk from `root`.
pub open spec fn walk_fuel(m: Map<Pid, Seq<Pid>>, root: Pid) -> nat {
    choose|f: nat| (#[trigger] walk(m, seq![root], f)) is Some
}

/// The processes the walk from `root` visits, in order: `root` first, and after each
/// process the subtrees of its children, the last child first.
pub open spec fn descendents(m: Map<Pid, Seq<Pid>>, root: Pid) -> Seq<Pid> {
    walk(m, seq![root], walk_fuel(m, root)).unwrap()
}

/// The list of descendents begins with the process itself, and a process without
/// children is its own only descendent.
pub proof fn law_descendents_start_with_root(m: Map<Pid, Seq<Pid>>, root: Pid)
    requires
        walk_ends(m, root),
    ensures
        descendents(m, root).len() >= 1,
        descendents(m, root)[0] == root,
        children_of(m, root).len() == 0 ==> descendents(m, root) == seq![root],
{
    let f = walk_fuel(m, root);
    assert(walk(m, seq![root], f) is Some);
    assert(f > 0);
    let rest = seq![root].drop_last() + children_of(m, root);
    assert(rest =~= children_of(m, root));
    let r = walk(m, rest, (f - 1) as nat).unwrap();
    assert(descendents(m, root) == seq![root] + r);
    if children_of(m, root).len() == 0 {
        assert(rest.len() == 0);
        assert(r =~= Seq::<Pid>::empty());
        assert(seq![root] + r =~= seq![root]);
    }
}

/// Every process the walk visits was on the stack or is a child of a process visited
/// before it; every process on the stack is visited; and every child of a visited
/// process is visited.
proof fn lemma_walk_closed(m: Map<Pid, Seq<Pid>>, stack: Seq<Pid>, fuel: nat)
    requires
        walk(m, stack, fuel) is Some,
    ensures
        forall|i: int|
            0 <= i < walk(m, stack, fuel).unwrap().len() ==> stack.contains(walk(m, stack, fuel).unwrap()[i])
                || exists|j: int|
                0 <= j < i && #[trigger] children_of(m, walk(m, stack, fuel).unwrap()[j]).contains(
                    walk(m, stack, fuel).unwrap()[i],
                ),
        forall|x: Pid| #[trigger] stack.contains(x) ==> walk(m, stack, fuel).unwrap().contains(x),
        forall|i: int, c: Pid|
            0 <= i < walk(m, stack, fuel).unwrap().len() && #[trigger] children_of(
                m,
                walk(m, stack, fuel).unwrap()[i],
            ).contains(c) ==> walk(m, stack, fuel).unwrap().contains(c),
    decreases fuel,
{
    let r = walk(m, stack, fuel).unwrap();
    if stack.len() > 0 {
        let p = stack.last();
        let kids = children_of(m, p);
        let next = stack.drop_last() + kids;
        let f1 = (fuel - 1) as nat;
        lemma_walk_closed(m, next, f1);
        let r2 = walk(m, next, f1).unwrap();
        assert(r == seq![p] + r2);
        assert(stack.contains(p)) by {
            assert(stack[stack.len() - 1] == p);
        }
        assert forall|x: Pid| #[trigger] next.contains(x) implies stack.contains(x) || kids.contains(x) by {
            let k = choose|k: int| 0 <= k < next.len() && next[k] == x;
            if k < stack.len() - 1 {
                assert(stack[k] == x);
            } else {
                assert(kids[k - (stack.len() - 1)] == x);
            }
        }
        assert forall|i: int| 0 <= i < r.len() implies stack.contains(r[i]) || exists|j: int|
            0 <= j < i && #[trigger] children_of(m, r[j]).contains(r[i]) by {
            if i > 0 {
                assert(r[i] == r2[i - 1]);
                if next.contains(r2[i - 1]) {
                    if !stack.contains(r[i]) {
                        assert(kids.contains(r[i]));
                        assert(children_of(m, r[0]).contains(r[i]));
                    }
                } else {
                    let j = choose|j: int| 0 <= j < i - 1 && #[trigger] children_of(m, r2[j]).contains(r2[i - 1]);
                    assert(r[j + 1] == r2[j]);
                    assert(children_of(m, r[j + 1]).contains(r[i]));
                }
            }
        }
        assert forall|x: Pid| #[trigger] stack.contains(x) implies r.contains(x) by {
            if x == p {
                assert(r[0] == x);
            } else {
                let k = choose|k: int| 0 <= k < stack.len() && stack[k] == x;
                assert(k < stack.len() - 1);
                assert(next[k] == x);
                assert(next.contains(x));
                let q = choose|q: int| 0 <= q < r2.len() && r2[q] == x;
                assert(r[q + 1] == x);
            }
        }
        assert forall|i: int, c: Pid|
            0 <= i < r.len() && #[trigger] children_of(m, r[i]).contains(c) implies r.contains(c) by {
            if i == 0 {
                let k = choose|k: int| 0 <= k < kids.len() && kids[k] == c;
                assert(next[stack.len() - 1 + k] == c);
                assert(next.contains(c));
            } else {
                assert(r[i] == r2[i - 1]);
                assert(children_of(m, r2[i - 1]).contains(c));
            }
            assert(r2.contains(c));
            let q = choose|q: int| 0 <= q < r2.len() && r2[q] == c;
            assert(r[q + 1] == c);
        }
    } else {
        assert(r =~= Seq::<Pid>::empty());
    }
}

/// `d` lists `root` and the processes below it: `root` first; every process in it is
/// `root` or a child of a process listed before it; and every child of a listed
/// process is listed.
pub open spec fn lists_subtree(m: Map<Pid, Seq<Pid>>, root: Pid, d: Seq<Pid>) -> bool {
    &&& d.len() >= 1
    &&& d[0] == root
    &&& forall|i: int|
        0 <= i < d.len() ==> d[i] == root || exists|j: int| 0 <= j < i && #[trigger] children_of(m, d[j]).contains(d[i])
    &&& forall|i: int, c: Pid| 0 <= i < d.len() && #[trigger] children_of(m, d[i]).contains(c) ==> d.contains(c)
}

/// In a forest, `d` lists each process once, when no process in it has `root` as a
/// child.
pub open spec fn once_each_in_forest(m: Map<Pid, Seq<Pid>>, root: Pid, d: Seq<Pid>) -> bool {
    forest(m) && (forall|i: int| 0 <= i < d.len() ==> !(#[trigger] children_of(m, d[i])).contains(root))
        ==> d.no_duplicates()
}

/// The descendents of a process are exactly the process and the processes below it:
/// the list begins with the process; every process in it is the process itself or a
/// child of a process listed before it; and every child of a listed process is listed.
pub proof fn law_descendents_closed(m: Map<Pid, Seq<Pid>>, root: Pid)
    requires
        walk_ends(m, root),
    ensures
        lists_subtree(m, root, descendents(m, root)),
{
    law_descendents_start_with_root(m, root);
    let f = walk_fuel(m, root);
    assert(walk(m, seq![root], f) is Some);
    lemma_walk_closed(m, seq![root], f);
    let d = descendents(m, root);
    assert forall|i: int| 0 <= i < d.len() implies d[i] == root || exists|j: int|
        0 <= j < i && #[trigger] children_of(m, d[j]).contains(d[i]) by {
        if seq![root].contains(d[i]) {
            assert(seq![root][0] == root);
        }
    }
}

/// Each process is the child of at most one process, and no process is listed twice
/// among the children of its parent.
pub open spec fn forest(m: Map<Pid, Seq<Pid>>) -> bool {
    &&& forall|p: Pid, q: Pid, x: Pid|
        #[trigger] children_of(m, p).contains(x) && #[trigger] children_of(m, q).contains(x) ==> p == q
    &&& forall|p: Pid| (#[trigger] children_of(m, p)).no_duplicates()
}

/// A walk in a forest, from processes none of which was visited, that are `root` or
/// children of visited processes, visits no process twice and none that was visited.
proof fn lemma_walk_distinct(m: Map<Pid, Seq<Pid>>, root: Pid, stack: Seq<Pid>, fuel: nat, visited: Set<Pid>)
    requires
        walk(m, stack, fuel) is Some,
        forest(m),
        stack.no_duplicates(),
        forall|x: Pid| #[trigger] stack.contains(x) ==> !visited.contains(x),
        forall|x: Pid|
            #[trigger] stack.contains(x) ==> x == root || exists|v: Pid|
                visited.contains(v) && #[trigger] children_of(m, v).contains(x),
        forall|x: Pid|
            #[trigger] visited.contains(x) ==> x == root || exists|v: Pid|
                visited.contains(v) && #[trigger] children_of(m, v).contains(x),
        forall|i: int|
            0 <= i < walk(m, stack, fuel).unwrap().len() ==> !(#[trigger] children_of(
                m,
                walk(m, stack, fuel).unwrap()[i],
            )).contains(root),
    ensures
        walk(m, stack, fuel).unwrap().no_duplicates(),
        forall|x: Pid| #[trigger] walk(m, stack, fuel).unwrap().contains(x) ==> !visited.contains(x),
    decreases fuel,
{
    let r = walk(m, stack, fuel).unwrap();
    if stack.len() > 0 {
        let p = stack.last();
        let kids = children_of(m, p);
        let rest = stack.drop_last();
        let next = rest + kids;
        let f1 = (fuel - 1) as nat;
        let v2 = visited.insert(p);
        let r2 = walk(m, next, f1).unwrap();
        assert(r == seq![p] + r2);
        assert(stack.contains(p)) by {
            assert(stack[stack.len() - 1] == p);
        }
        assert(!kids.contains(root)) by {
            assert(r[0] == p);
        }
        assert forall|x: Pid| #[trigger] rest.contains(x) implies stack.contains(x) && x != p by {
            let k = choose|k: int| 0 <= k < rest.len() && rest[k] == x;
            assert(stack[k] == x);
            assert(stack[stack.len() - 1] == p);
        }
        // A child of `p` was never visited and waits nowhere else on the stack: its
        // only parent is `p`, which was not visited before now.
        assert forall|c: Pid| #[trigger] kids.contains(c) implies !v2.contains(c) && !rest.contains(c) by {
            if visited.contains(c) || c == p {
                if c != root {
                    let w = if visited.contains(c) {
                        choose|v: Pid| visited.contains(v) && #[trigger] children_of(m, v).contains(c)
                    } else {
                        choose|v: Pid| visited.contains(v) && #[trigger] children_of(m, v).contains(p)
                    };
                    assert(children_of(m, w).contains(c) || children_of(m, w).contains(p));
                    if visited.contains(c) {
                        assert(w == p);
                    } else {
                        assert(children_of(m, p).contains(p));
                        assert(w == p);
                    }
                }
            }
            if rest.contains(c) {
                assert(stack.contains(c));
                if c != root {
                    let w = choose|v: Pid| visited.contains(v) && #[trigger] children_of(m, v).contains(c);
                    assert(w == p);
                }
            }
        }
        assert forall|i: int, j: int| 0 <= i < next.len() && 0 <= j < next.len() && i != j implies next[i]
            != next[j] by {
            if i < rest.len() && j < rest.len() {
                assert(stack[i] == next[i] && stack[j] == next[j]);
            } else if i >= rest.len() && j >= rest.len() {
                assert(kids[i - rest.len()] == next[i] && kids[j - rest.len()] == next[j]);
            } else if i < rest.len() {
                assert(rest[i] == next[i] && rest.contains(rest[i]));
                assert(kids[j - rest.len()] == next[j] && kids.contains(kids[j - rest.len()]));
            } else {
                assert(rest[j] == next[j] && rest.contains(rest[j]));
                assert(kids[i - rest.len()] == next[i] && kids.contains(kids[i - rest.len()]));
            }
        }
        assert forall|x: Pid| #[trigger] next.contains(x) implies rest.contains(x) || kids.contains(x) by {
            let k = choose|k: int| 0 <= k < next.len() && next[k] == x;
            if k < rest.len() {
                assert(rest[k] == x);
            } else {
                assert(kids[k - rest.len()] == x);
            }
        }
        assert forall|x: Pid| #[trigger] next.contains(x) implies x == root || exists|v: Pid|
            v2.contains(v) && #[trigger] children_of(m, v).contains(x) by {
            if rest.contains(x) && x != root {
                let w = choose|v: Pid| visited.contains(v) && #[trigger] children_of(m, v).contains(x);
                assert(v2.contains(w));
            } else if kids.contains(x) {
                assert(v2.contains(p) && children_of(m, p).contains(x));
            }
        }
        assert forall|x: Pid| #[trigger] v2.contains(x) implies x == root || exists|v: Pid|
            v2.contains(v) && #[trigger] children_of(m, v).contains(x) by {
            if x != root {
                if visited.contains(x) {
                    let w = choose|v: Pid| visited.contains(v) && #[trigger] children_of(m, v).contains(x);
                    assert(v2.contains(w));
                } else {
                    assert(x == p);
                    let w = choose|v: Pid| visited.contains(v) && #[trigger] children_of(m, v).contains(p);
                    assert(v2.contains(w));
                }
            }
        }
        assert forall|i: int| 0 <= i < r2.len() implies !(#[trigger] children_of(m, r2[i])).contains(root) by {
            assert(r[i + 1] == r2[i]);
        }
        lemma_walk_distinct(m, root, next, f1, v2);
        assert forall|x: Pid| #[trigger] r.contains(x) implies !visited.contains(x) by {
            let k = choose|k: int| 0 <= k < r.len() && r[k] == x;
            if k > 0 {
                assert(r2[k - 1] == x);
                assert(r2.contains(x));
            }
        }
        assert forall|i: int, j: int| 0 <= i < r.len() && 0 <= j < r.len() && i != j implies r[i] != r[j] by {
            if i > 0 && j > 0 {
                assert(r[i] == r2[i - 1] && r[j] == r2[j - 1]);
            } else if i == 0 {
                assert(r[j] == r2[j - 1] && r2.contains(r2[j - 1]));
            } else {
                assert(r[i] == r2[i - 1] && r2.contains(r2[i - 1]));
            }
        }
    } else {
        assert(r =~= Seq::<Pid>::empty());
    }
}

/// In a forest, the descendents of a process that is not below itself (no process in
/// the list has it as a child) list each process once.
pub proof fn law_descendents_distinct(m: Map<Pid, Seq<Pid>>, root: Pid)
    requires
        walk_ends(m, root),
        forest(m),
        forall|i: int|
            0 <= i < descendents(m, root).len() ==> !(#[trigger] children_of(m, descendents(m, root)[i])).contains(
                root,
            ),
    ensures
        descendents(m, root).no_duplicates(),
{
    let f = walk_fuel(m, root);
    assert(walk(m, seq![root], f) is Some);
    let d = walk(m, seq![root], f).unwrap();
    assert(d == descendents(m, root));
    assert forall|i: int| 0 <= i < d.len() implies !(#[trigger] children_of(m, d[i])).contains(root) by {
        assert(!children_of(m, descendents(m, root)[i]).contains(root));
    }
    lemma_walk_distinct(m, root, seq![root], f, Set::empty());
}

/// More steps than a walk needs change nothing.
proof fn lemma_walk_more_fuel(m: Map<Pid, Seq<Pid>>, stack: Seq<Pid>, f1: nat, f2: nat)
    requires
        walk(m, stack, f1) is Some,
        f1 <= f2,
    ensures
        walk(m, stack, f2) == walk(m, stack, f1),
    decreases f1,
{
    if stack.len() > 0 {
        let p = stack.last();
        lemma_walk_more_fuel(m, stack.drop_last() + children_of(m, p), (f1 - 1) as nat, (f2 - 1) as nat);
    }
}

/// A walk that comes to an end within `steps` steps lists the descendents.
proof fn lemma_walk_within(m: Map<Pid, Seq<Pid>>, root: Pid, steps: nat)
    requires
        walk(m, seq![root], steps) is Some,
    ensures
        walk_ends(m, root),
        walk(m, seq![root], steps).unwrap() == descendents(m, root),
{
    assert(walk_ends(m, root));
    let f = walk_fuel(m, root);
    if f <= steps {
        lemma_walk_more_fuel(m, seq![root], f, steps);
    } else {
        lemma_walk_more_fuel(m, seq![root], steps, f);
    }
}

/// Lists `parent_pid` and all processes below it, as `get_descendents` does, when the
/// walk takes at most `steps` steps; none when it takes more (as it does forever when
/// a process is below itself).
pub fn get_descendents_within(
    parent_pid: Pid,
    parents_to_children: HashMap<Pid, Vec<Pid>>,
    steps: usize,
) -> (r: Option<Vec<Pid>>)
    ensures
        r is Some <==> walk(children_view(parents_to_children@), seq![parent_pid], steps as nat) is Some,
        r matches Some(v) ==> walk_ends(children_view(parents_to_children@), parent_pid) && v@ == descendents(
            children_view(parents_to_children@),
            parent_pid,
        ),
        r matches Some(v) ==> lists_subtree(children_view(parents_to_children@), parent_pid, v@),
        r matches Some(v) ==> once_each_in_forest(children_view(parents_to_children@), parent_pid, v@),
{
    let ghost m = children_view(parents_to_children@);
    let ghost whole = walk(m, seq![parent_pid], steps as nat);
    let mut left: usize = steps;
    let mut result: Vec<Pid> = Vec::new();
    let mut queue: Vec<Pid> = Vec::new();
    queue.push(parent_pid);
    assert(queue@ =~= seq![parent_pid]);
    loop
        invariant
            m == children_view(parents_to_children@),
            whole == walk(m, seq![parent_pid], steps as nat),
            whole == match walk(m, queue@, left as nat) {
                Some(rest) => Some(result@ + rest),
                None => None::<Seq<Pid>>,
            },
        decreases left,
    {
        if queue.len() == 0 {
            assert(result@ + Seq::<Pid>::empty() =~= result@);
            proof {
                lemma_walk_within(m, parent_pid, steps as nat);
                law_descendents_closed(m, parent_pid);
                let d = descendents(m, parent_pid);
                if forest(m) && (forall|i: int| 0 <= i < d.len() ==> !(#[trigger] children_of(m, d[i])).contains(parent_pid)) {
                    law_descendents_distinct(m, parent_pid);
                }
            }
            return Some(result);
        }
        if left == 0 {
            return None;
        }
        let current_pid = queue.pop().unwrap();
        let ghost before = queue@.push(current_pid);
        let ghost kids = children_of(m, current_pid);
        assert(before.drop_last() =~= queue@);
        match parents_to_children.get(&current_pid) {
            Some(children) => {
                assert(children@ == kids);
                let mut j: usize = 0;
                let ghost start = queue@;
                while j < children.len()
                    invariant
                        j <= children@.len(),
                        queue@ == start + children@.take(j as int),
                    decreases children@.len() - j,
                {
                    queue.push(children[j]);
                    j = j + 1;
                    assert(children@.take(j as int) =~= children@.take(j - 1).push(children@[j - 1]));
                }
                assert(children@.take(children@.len() as int) =~= children@);
            },
            None => {
                assert(kids =~= Seq::<Pid>::empty());
                assert(queue@ =~= queue@ + kids);
            },
        }
        result.push(current_pid);
        left = left - 1;
        proof {
            if walk(m, queue@, left as nat) is Some {
                let rest = walk(m, queue@, left as nat).unwrap();
                assert(result@ + rest =~= result@.drop_last() + (seq![current_pid] + rest));
            }
        }
    }
}

/// Lists `parent_pid` and all processes below it in `parents_to_children`.
pub fn get_descendents(
    parent_pid: Pid,
    parents_to_children: HashMap<Pid, Vec<Pid>>,
) -> (r: Result<Vec<Pid>, DescendentsError>)
    requires
        walk_ends(children_view(parents_to_children@), parent_pid),
    ensures
        r is Ok,
        r matches Ok(v) ==> v@ == descendents(children_view(parents_to_children@), parent_pid),
        r matches Ok(v) ==> lists_subtree(children_view(parents_to_children@), parent_pid, v@),
        r matches Ok(v) ==> once_each_in_forest(children_view(parents_to_children@), parent_pid, v@),
{
    let ghost m = children_view(parents_to_children@);
    let ghost total = descendents(m, parent_pid);
    let ghost mut fuel: nat = walk_fuel(m, parent_pid);
    let mut result: Vec<Pid> = Vec::new();
    let mut queue: Vec<Pid> = Vec::new();
    queue.push(parent_pid);
    assert(queue@ =~= seq![parent_pid]);
    loop
        invariant
            m == children_view(parents_to_children@),
            walk_ends(m, parent_pid),
            total == descendents(m, parent_pid),
            walk(m, queue@, fuel) is Some,
            result@ + walk(m, queue@, fuel).unwrap() == total,
        decreases fuel,
    {
        match queue.pop() {
            None => {
                assert(result@ =~= total);
                proof {
                    law_descendents_closed(m, parent_pid);
                    if forest(m) && (forall|i: int|
                        0 <= i < total.len() ==> !(#[trigger] children_of(m, total[i])).contains(parent_pid)) {
                        law_descendents_distinct(m, parent_pid);
                    }
                }
                return Ok(result);
            },
            Some(current_pid) => {
                let ghost before = queue@.push(current_pid);
                let ghost kids = children_of(m, current_pid);
                assert(before.drop_last() =~= queue@);
                match parents_to_children.get(&current_pid) {
                    Some(children) => {
                        assert(children@ == kids);
                        let mut j: usize = 0;
                        let ghost start = queue@;
                        while j < children.len()
                            invariant
                                j <= children@.len(),
                                queue@ == start + children@.take(j as int),
                            decreases children@.len() - j,
                        {
                            queue.push(children[j]);
                            j = j + 1;
                            assert(children@.take(j as int) =~= children@.take(j - 1).push(
                                children@[j - 1],
                            ));
                        }
                        assert(children@.take(children@.len() as int) =~= children@);
                    },
                    None => {
                        assert(kids =~= Seq::<Pid>::empty());
                        assert(queue@ =~= queue@ + kids);
                    },
                }
                result.push(current_pid);
                proof {
                    let rest = walk(m, queue@, (fuel - 1) as nat).unwrap();
                    assert(result@ + rest =~= result@.drop_last() + (seq![current_pid] + rest));
                    fuel = (fuel - 1) as nat;
                }
            },
        }
    }
}

/// Which children belong to `p`, in the order of `pairs` of (process, parent).
pub open spec fn children_in(pairs: Seq<(Pid, Pid)>, p: Pid) -> Seq<Pid>
    decreases pairs.len(),
{
    if pairs.len() == 0 {
        Seq::empty()
    } else if pairs.last().1 == p {
        children_in(pairs.drop_last(), p).push(pairs.last().0)
    } else {
        children_in(pairs.drop_last(), p)
    }
}

/// `p` is the parent of some process in `pairs`.
pub open spec fn is_parent_in(pairs: Seq<(Pid, Pid)>, p: Pid) -> bool {
    exists|i: int| 0 <= i < pairs.len() && (#[trigger] pairs[i]).1 == p
}

/// The parents in `pairs`, each with its children in order.
pub open spec fn children_map(pairs: Seq<(Pid, Pid)>) -> Map<Pid, Seq<Pid>> {
    Map::new(|p: Pid| is_parent_in(pairs, p), |p: Pid| children_in(pairs, p))
}

/// Groups pairs of (process, parent) by parent.
pub fn map_parents_to_children(pairs: &[(Pid, Pid)]) -> (m: HashMap<Pid, Vec<Pid>>)
    ensures
        children_view(m@) == children_map(pairs@),
{
    let mut pid_map: HashMap<Pid, Vec<Pid>> = HashMap::new();
    let mut i: usize = 0;
    while i < pairs.len()
        invariant
            i <= pairs@.len(),
            children_view(pid_map@) == children_map(pairs@.take(i as int)),
        decreases pairs@.len() - i,
    {
        let (pid, ppid) = pairs[i];
        let ghost before = pairs@.take(i as int);
        let ghost after = pairs@.take(i + 1);
        assert(after.drop_last() =~= before);
        let ghost old_map = pid_map@;
        let removed = pid_map.remove(&ppid);
        assert(removed is Some ==> old_map.contains_key(ppid) && removed->0 == old_map[ppid]);
        assert(removed is None ==> !old_map.contains_key(ppid));
        assert(pid_map@ == old_map.remove(ppid));
        let mut kids: Vec<Pid> = match removed {
            Some(v) => v,
            None => Vec::new(),
        };
        assert(children_view(old_map).contains_key(ppid) == old_map.contains_key(ppid));
        assert(children_map(before).contains_key(ppid) == is_parent_in(before, ppid));
        proof {
            if old_map.contains_key(ppid) {
                assert(children_view(old_map)[ppid] == old_map[ppid]@);
            } else {
                lemma_children_in_absent(before, ppid);
            }
        }
        assert(kids@ == children_in(before, ppid));
        kids.push(pid);
        let ghost new_kids = kids@;
        pid_map.insert(ppid, kids);
        i = i + 1;
        proof {
            assert(after.last() == (pid, ppid));
            assert forall|p: Pid| #[trigger] is_parent_in(after, p) == (p == ppid
                || is_parent_in(before, p)) by {
                if is_parent_in(after, p) && p != ppid {
                    let k = choose|k: int| 0 <= k < after.len() && (#[trigger] after[k]).1 == p;
                    assert(before[k] == after[k]);
                }
                if is_parent_in(before, p) {
                    let k = choose|k: int| 0 <= k < before.len() && (#[trigger] before[k]).1 == p;
                    assert(after[k] == before[k]);
                }
                if p == ppid {
                    assert(after[after.len() - 1].1 == p);
                }
            }
            assert(children_map(after) =~= children_map(before).insert(ppid, new_kids));
            assert(children_view(pid_map@) =~= children_view(old_map).insert(ppid, new_kids));
        }
    }
    assert(pairs@.take(pairs@.len() as int) =~= pairs@);
    pid_map
}

/// No pair names `p` as parent: it has no children.
proof fn lemma_children_in_absent(pairs: Seq<(Pid, Pid)>, p: Pid)
    requires
        !is_parent_in(pairs, p),
    ensures
        children_in(pairs, p) == Seq::<Pid>::empty(),
    decreases pairs.len(),
{
    if pairs.len() > 0 {
        assert(pairs.last() == pairs[pairs.len() - 1]);
        assert(!is_parent_in(pairs.drop_last(), p)) by {
            if is_parent_in(pairs.drop_last(), p) {
                let k = choose|k: int|
                    0 <= k < pairs.drop_last().len() && (#[trigger] pairs.drop_last()[k]).1 == p;
                assert(pairs[k] == pairs.drop_last()[k]);
            }
        }
        lemma_children_in_absent(pairs.drop_last(), p);
    }
}

/// Lists `parent_pid` and every process below it, given each process with its parent.
pub fn descendents_of(parent_pid: Pid, process_pairs: &[(Pid, Pid)]) -> (r: Result<
    Vec<Pid>,
    DescendentsError,
>)
    requires
        walk_ends(children_map(process_pairs@), parent_pid),
    ensures
        r matches Ok(v) && v@ == descendents(children_map(process_pairs@), parent_pid),
        r matches Ok(v) && lists_subtree(children_map(process_pairs@), parent_pid, v@),
        r matches Ok(v) && once_each_in_forest(children_map(process_pairs@), parent_pid, v@),
{
    let parents_to_children = map_parents_to_children(process_pairs);
    get_descendents(parent_pid, parents_to_children)
}

/// Lists a process and all processes below it, as `descendents_of` does, when the walk
/// takes at most `steps` steps; none when it takes more.
pub fn descendents_of_within(parent_pid: Pid, process_pairs: &[(Pid, Pid)], steps: usize) -> (r: Option<Vec<Pid>>)
    ensures
        r is Some <==> walk(children_map(process_pairs@), seq![parent_pid], steps as nat) is Some,
        r matches Some(v) ==> v@ == descendents(children_map(process_pairs@), parent_pid),
        r matches Some(v) ==> lists_subtree(children_map(process_pairs@), parent_pid, v@),
        r matches Some(v) ==> once_each_in_forest(children_map(process_pairs@), parent_pid, v@),
{
    let parents_to_children = map_parents_to_children(process_pairs);
    get_descendents_within(parent_pid, parents_to_children, steps)
}

/// The prefix that marks the line of a status file that names the parent.
pub open spec fn ppid_prefix() -> Seq<char> {
    seq!['P', 'P', 'i', 'd', ':']
}

/// Line `i` of `lines` is the first that starts with `PPid:`.
pub open spec fn first_ppid_line(lines: Seq<Seq<char>>, i: int) -> bool {
    &&& 0 <= i < lines.len()
    &&& lines[i].len() >= 5 && lines[i].take(5) == ppid_prefix()
    &&& forall|j: int|
        0 <= j < i ==> !((#[trigger] lines[j]).len() >= 5 && lines[j].take(5) == ppid_prefix())
}

/// Some line of `lines` starts with `PPid:`.
pub open spec fn has_ppid_line(lines: Seq<Seq<char>>) -> bool {
    exists|i: int| first_ppid_line(lines, i)
}

/// The first line of `lines` that starts with `PPid:`.
pub open spec fn ppid_line(lines: Seq<Seq<char>>) -> Seq<char> {
    lines[choose|i: int| first_ppid_line(lines, i)]
}

/// A status file can be read: its `PPid:` line, if any, has a tab after which the
/// parent stands.
pub open spec fn status_readable(status: Seq<char>) -> bool {
    let lines = split_on(status, '\n');
    has_ppid_line(lines) ==> split_on(ppid_line(lines), '\t').len() >= 2
}

/// What a status file says of the parent: the field after the first tab of the first
/// `PPid:` line, read as a process id.
pub open spec fn status_ppid(status: Seq<char>) -> Result<Pid, DescendentsError> {
    let lines = split_on(status, '\n');
    if !has_ppid_line(lines) {
        Err(DescendentsError::PpidNotFound)
    } else {
        match parse_i32_spec(split_on(ppid_line(lines), '\t')[1]) {
            Some(p) => Ok(p),
            None => Err(DescendentsError::InvalidPpid),
        }
    }
}

proof fn lemma_first_ppid_line_unique(lines: Seq<Seq<char>>, i: int, j: int)
    requires
        first_ppid_line(lines, i),
        first_ppid_line(lines, j),
    ensures
        i == j,
{
    if i < j {
        assert(!((lines[i]).len() >= 5 && lines[i].take(5) == ppid_prefix()));
    }
    if j < i {
        assert(!((lines[j]).len() >= 5 && lines[j].take(5) == ppid_prefix()));
    }
}

/// Reads the parent process id from the text of a `/proc/<pid>/status` file.
pub fn status_file_ppid(status: &str) -> (r: Result<Pid, DescendentsError>)
    requires
        status_readable(status@),
    ensures
        r == status_ppid(status@),
{
    let text = chars_of(status);
    let lines = split_chars(text.as_slice(), '\n');
    let ghost sl = split_on(status@, '\n');
    let prefix: Vec<char> = vec!['P', 'P', 'i', 'd', ':'];
    assert(prefix@ =~= ppid_prefix());
    let mut i: usize = 0;
    while i < lines.len()
        invariant
            i <= lines@.len(),
            lines@.len() == sl.len(),
            forall|k: int| 0 <= k < lines@.len() ==> (#[trigger] lines@[k])@ == sl[k],
            prefix@ == ppid_prefix(),
            sl == split_on(status@, '\n'),
            status_readable(status@),
            forall|j: int|
                0 <= j < i ==> !((#[trigger] sl[j]).len() >= 5 && sl[j].take(5) == ppid_prefix()),
        decreases lines@.len() - i,
    {
        if crate::text::starts_with(lines[i].as_slice(), prefix.as_slice()) {
            assert(first_ppid_line(sl, i as int));
            proof {
                assert(has_ppid_line(sl));
                let c = choose|c: int| first_ppid_line(sl, c);
                lemma_first_ppid_line_unique(sl, i as int, c);
                assert(ppid_line(sl) == sl[i as int]);
                assert(status_readable(status@));
                assert(split_on(ppid_line(sl), '\t').len() >= 2);
            }
            let parts = split_chars(lines[i].as_slice(), '\t');
            assert(parts@.len() >= 2);
            return match parse_i32(parts[1].as_slice()) {
                Some(p) => Ok(p),
                None => Err(DescendentsError::InvalidPpid),
            };
        }
        assert(!(sl[i as int].len() >= 5 && sl[i as int].take(5) == ppid_prefix()));
        i = i + 1;
    }
    assert(!has_ppid_line(sl));
    Err(DescendentsError::PpidNotFound)
}

} // verus!
