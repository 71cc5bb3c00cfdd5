//! Ordering rules between pages: which rules concern an update, the graph
//! that rules make, an order of its nodes that obeys the rules, and whether
//! an update follows that order.

use crate::lists::occurrences;
use std::collections::{HashMap, VecDeque};
use vstd::prelude::*;
use vstd::set_lib::lemma_len_subset;
use vstd::std_specs::iter::IteratorSpec;

verus! {

/// The second parts of those of the first `n` rules whose first part is `p`, in their order.
pub open spec fn children_of(rules: Seq<(i32, i32)>, p: i32, n: int) -> Seq<i32>
    decreases n,
{
    if n <= 0 {
        Seq::empty()
    } else if rules[n - 1].0 == p {
        children_of(rules, p, n - 1).push(rules[n - 1].1)
    } else {
        children_of(rules, p, n - 1)
    }
}

/// How many of the first `n` rules have `v` as their second part and a first
/// part that is not in `done`.
pub open spec fn pending(rules: Seq<(i32, i32)>, v: i32, done: Set<i32>, n: int) -> nat
    decreases n,
{
    if n <= 0 {
        0
    } else {
        pending(rules, v, done, n - 1) + (if rules[n - 1].1 == v && !done.contains(rules[n - 1].0) {
            1nat
        } else {
            0nat
        })
    }
}

/// One of the first `n` rules names `v`.
pub open spec fn names(rules: Seq<(i32, i32)>, v: i32, n: int) -> bool {
    exists|i: int| 0 <= i < n && ((#[trigger] rules[i]).0 == v || rules[i].1 == v)
}

/// The two maps stand for the first `n` rules.
pub open spec fn stands_for(
    adjacency: Map<i32, Vec<i32>>,
    degrees: Map<i32, usize>,
    rules: Seq<(i32, i32)>,
    n: int,
) -> bool {
    &&& forall|p: i32| #[trigger] adjacency.contains_key(p) <==> children_of(rules, p, n).len() > 0
    &&& forall|p: i32| #[trigger] adjacency.contains_key(p) ==> adjacency[p]@ == children_of(rules, p, n)
    &&& forall|v: i32| #[trigger] degrees.contains_key(v) <==> names(rules, v, n)
    &&& forall|v: i32| #[trigger]
        degrees.contains_key(v) ==> degrees[v] == pending(rules, v, Set::empty(), n)
}

/// The rule `(p, c)` is among `rules`.
pub open spec fn has_rule(rules: Seq<(i32, i32)>, p: i32, c: i32) -> bool {
    exists|i: int| 0 <= i < rules.len() && #[trigger] rules[i] == (p, c)
}

/// The two maps stand for the rules: the first gives for each first part
/// of a rule the second parts of its rules, the second gives for each page
/// that a rule names the number of rules that have it as their second part.
pub open spec fn represents(
    adjacency: Map<i32, Vec<i32>>,
    degrees: Map<i32, usize>,
    rules: Seq<(i32, i32)>,
) -> bool {
    stands_for(adjacency, degrees, rules, rules.len() as int)
}

/// An edge leads from `u` to `v`.
pub open spec fn has_edge(adjacency: Map<i32, Vec<i32>>, u: i32, v: i32) -> bool {
    adjacency.contains_key(u) && adjacency[u]@.contains(v)
}

/// `order` lists nodes of the graph, none twice, each behind all nodes from
/// which an edge leads to it; and it lists every node that it can list so:
/// each whose edges all come from nodes in the list.
pub open spec fn is_topological(order: Seq<i32>, adjacency: Map<i32, Vec<i32>>, nodes: Set<i32>) -> bool {
    &&& order.no_duplicates()
    &&& forall|i: int| 0 <= i < order.len() ==> nodes.contains(#[trigger] order[i])
    &&& forall|i: int, u: i32|
        0 <= i < order.len() && #[trigger] has_edge(adjacency, u, order[i]) ==> exists|j: int|
            0 <= j < i && order[j] == u
    &&& forall|v: i32|
        nodes.contains(v) && (forall|u: i32| #[trigger] has_edge(adjacency, u, v) ==> order.contains(u))
            ==> #[trigger] order.contains(v)
}

/// The children of `p` among the first rules are the second parts of the
/// rules that begin with `p`.
pub proof fn lemma_children_of(rules: Seq<(i32, i32)>, p: i32, n: int)
    requires
        0 <= n <= rules.len(),
    ensures
        children_of(rules, p, n).len() <= n,
        forall|c: i32|
            #[trigger] children_of(rules, p, n).contains(c) <==> exists|i: int|
                0 <= i < n && #[trigger] rules[i] == (p, c),
    decreases n,
{
    if n > 0 {
        lemma_children_of(rules, p, n - 1);
        let before = children_of(rules, p, n - 1);
        let now = children_of(rules, p, n);
        assert forall|c: i32| #[trigger]
            now.contains(c) <==> exists|i: int| 0 <= i < n && #[trigger] rules[i] == (p, c) by {
            if now.contains(c) {
                let k = choose|k: int| 0 <= k < now.len() && now[k] == c;
                if k < before.len() {
                    assert(before[k] == c);
                    assert(before.contains(c));
                    let i = choose|i: int| 0 <= i < n - 1 && #[trigger] rules[i] == (p, c);
                    assert(0 <= i < n && rules[i] == (p, c));
                } else {
                    assert(rules[n - 1] == (p, c));
                }
            }
            if exists|i: int| 0 <= i < n && #[trigger] rules[i] == (p, c) {
                let i = choose|i: int| 0 <= i < n && #[trigger] rules[i] == (p, c);
                if i < n - 1 {
                    assert(before.contains(c));
                    let k = choose|k: int| 0 <= k < before.len() && before[k] == c;
                    assert(now[k] == c);
                } else {
                    assert(now[now.len() - 1] == c);
                }
            }
        }
    }
}

/// How often a page stands among the first places of a list does not change
/// when the list gets longer.
pub proof fn lemma_occurrences_push(list: Seq<i32>, a: i32, x: i32, n: int)
    requires
        0 <= n <= list.len(),
    ensures
        occurrences(list.push(a), x, n) == occurrences(list, x, n),
    decreases n,
{
    if n > 0 {
        lemma_occurrences_push(list, a, x, n - 1);
        assert(list.push(a)[n - 1] == list[n - 1]);
    }
}

/// How often a page stands among fewer places is no more.
pub proof fn lemma_occurrences_monotone(list: Seq<i32>, x: i32, a: int, b: int)
    requires
        a <= b,
    ensures
        occurrences(list, x, a) <= occurrences(list, x, b),
    decreases b,
{
    if b > 0 && a < b {
        lemma_occurrences_monotone(list, x, a, b - 1);
    }
}

/// When `cur` joins the pages that are done, the rules from `cur` to `v` are
/// no longer pending.
pub proof fn lemma_pending_split(rules: Seq<(i32, i32)>, v: i32, done: Set<i32>, cur: i32, n: int)
    requires
        0 <= n <= rules.len(),
        !done.contains(cur),
    ensures
        pending(rules, v, done, n) == pending(rules, v, done.insert(cur), n) + occurrences(
            children_of(rules, cur, n),
            v,
            children_of(rules, cur, n).len() as int,
        ),
    decreases n,
{
    if n > 0 {
        lemma_pending_split(rules, v, done, cur, n - 1);
        let before = children_of(rules, cur, n - 1);
        if rules[n - 1].0 == cur {
            lemma_occurrences_push(before, rules[n - 1].1, v, before.len() as int);
        }
    }
}

/// Nothing is pending for `v` exactly when every rule that ends in `v` begins
/// with a page that is done.
pub proof fn lemma_pending_zero(rules: Seq<(i32, i32)>, v: i32, done: Set<i32>, n: int)
    requires
        0 <= n <= rules.len(),
    ensures
        pending(rules, v, done, n) == 0 <==> forall|i: int|
            0 <= i < n && (#[trigger] rules[i]).1 == v ==> done.contains(rules[i].0),
    decreases n,
{
    if n > 0 {
        lemma_pending_zero(rules, v, done, n - 1);
        if pending(rules, v, done, n) == 0 {
            assert forall|i: int| 0 <= i < n && (#[trigger] rules[i]).1 == v implies done.contains(
                rules[i].0,
            ) by {
                if i < n - 1 {
                }
            }
        }
    }
}

/// An edge of the graph is a rule, and a rule is an edge.
pub proof fn lemma_edges_are_rules(
    adjacency: Map<i32, Vec<i32>>,
    degrees: Map<i32, usize>,
    rules: Seq<(i32, i32)>,
    u: i32,
    v: i32,
)
    requires
        represents(adjacency, degrees, rules),
    ensures
        has_edge(adjacency, u, v) <==> has_rule(rules, u, v),
{
    lemma_children_of(rules, u, rules.len() as int);
    let children = children_of(rules, u, rules.len() as int);
    if has_rule(rules, u, v) {
        let i = choose|i: int| 0 <= i < rules.len() && #[trigger] rules[i] == (u, v);
        assert(children.contains(v));
        assert(children.len() > 0);
        assert(adjacency.contains_key(u));
    }
    if has_edge(adjacency, u, v) {
        assert(children.contains(v));
    }
}

/// The rules that concern an update: those whose first part is a page of the
/// update, in their order.
pub open spec fn valid_rules(rules: Seq<(i32, i32)>, pages: Seq<i32>, n: int) -> Seq<(i32, i32)>
    decreases n,
{
    if n <= 0 {
        Seq::empty()
    } else if pages.contains(rules[n - 1].0) {
        valid_rules(rules, pages, n - 1).push(rules[n - 1])
    } else {
        valid_rules(rules, pages, n - 1)
    }
}

/// Whether `page` is in the list.
fn contains_page(pages: &Vec<i32>, page: i32) -> (found: bool)
    ensures
        found == pages@.contains(page),
{
    let mut i: usize = 0;
    while i < pages.len()
        invariant
            i <= pages.len(),
            forall|k: int| 0 <= k < i ==> pages@[k] != page,
        decreases pages.len() - i,
    {
        if pages[i] == page {
            return true;
        }
        i += 1;
    }
    false
}

/// The rules whose first part is a page of `page_order`, in their order.
pub fn get_valid_rules_pairs(all_rules_pairs: &Vec<(i32, i32)>, page_order: &Vec<i32>) -> (valid: Vec<
    (i32, i32),
>)
    ensures
        valid@ == valid_rules(all_rules_pairs@, page_order@, all_rules_pairs@.len() as int),
{
    let mut valid: Vec<(i32, i32)> = Vec::new();
    let mut i: usize = 0;
    while i < all_rules_pairs.len()
        invariant
            i <= all_rules_pairs.len(),
            valid@ == valid_rules(all_rules_pairs@, page_order@, i as int),
        decreases all_rules_pairs.len() - i,
    {
        let rule = all_rules_pairs[i];
        if contains_page(page_order, rule.0) {
            valid.push(rule);
        }
        i += 1;
    }
    valid
}

/// The place of the first `page` in `list`, or `None` where it is not there.
fn position(list: &Vec<i32>, page: i32) -> (at: Option<usize>)
    ensures
        at == first_position(list@, page),
{
    let mut i: usize = 0;
    while i < list.len()
        invariant
            i <= list.len(),
            forall|k: int| 0 <= k < i ==> list@[k] != page,
        decreases list.len() - i,
    {
        if list[i] == page {
            proof {
                lemma_first_position(list@, page, i as int);
            }
            return Some(i);
        }
        i += 1;
    }
    proof {
        lemma_first_position(list@, page, list@.len() as int);
    }
    None
}

/// The place of the first `page` among the first `n` of `list`, counted as `n` where there is none.
pub open spec fn first_among(list: Seq<i32>, page: i32, n: int) -> int
    decreases n,
{
    if n <= 0 {
        0
    } else {
        let before = first_among(list, page, n - 1);
        if before < n - 1 {
            before
        } else if list[n - 1] == page {
            n - 1
        } else {
            n
        }
    }
}

/// The place of the first `page` in `list`, or `None` where it is not there.
pub open spec fn first_position(list: Seq<i32>, page: i32) -> Option<usize> {
    if first_among(list, page, list.len() as int) < list.len() {
        Some(first_among(list, page, list.len() as int) as usize)
    } else {
        None
    }
}

/// Where no earlier place holds the page, the first place of the page is
/// `at`, or there is none if `at` is the end of the list.
pub proof fn lemma_first_position(list: Seq<i32>, page: i32, at: int)
    requires
        0 <= at <= list.len(),
        forall|k: int| 0 <= k < at ==> list[k] != page,
        at < list.len() ==> list[at] == page,
    ensures
        first_among(list, page, list.len() as int) == at,
{
    lemma_first_among(list, page, at, list.len() as int);
}

proof fn lemma_first_among(list: Seq<i32>, page: i32, at: int, n: int)
    requires
        0 <= at <= list.len(),
        0 <= n <= list.len(),
        forall|k: int| 0 <= k < at ==> list[k] != page,
        at < list.len() ==> list[at] == page,
    ensures
        first_among(list, page, n) == (if at < n {
            at
        } else {
            n
        }),
    decreases n,
{
    if n > 0 {
        lemma_first_among(list, page, at, n - 1);
    }
}

/// The pages of the update up to `n` are all in the sorted order, each at a
/// first place that is not before that of the page before it.
pub open spec fn follows_order(sorted: Seq<i32>, pages: Seq<i32>, n: int) -> bool
    decreases n,
{
    if n <= 0 {
        true
    } else {
        &&& follows_order(sorted, pages, n - 1)
        &&& first_position(sorted, pages[n - 1]) is Some
        &&& n >= 2 ==> first_position(sorted, pages[n - 2])->0 <= first_position(sorted, pages[n - 1])->0
    }
}

/// The middle page of an update that follows the sorted order, and 0 for an
/// update that does not.
pub fn validate_page_order(sorted_order: &Vec<i32>, page_order: &Vec<i32>) -> (middle: i32)
    requires
        page_order.len() >= 1,
    ensures
        middle == (if follows_order(sorted_order@, page_order@, page_order@.len() as int) {
            page_order@[(page_order@.len() - 1) / 2]
        } else {
            0
        }),
{
    let mut prev_index: usize = 0;
    let mut i: usize = 0;
    while i < page_order.len()
        invariant
            i <= page_order.len(),
            follows_order(sorted_order@, page_order@, i as int),
            i >= 1 ==> first_position(sorted_order@, page_order@[i - 1]) == Some(prev_index),
            i == 0 ==> prev_index == 0,
        decreases page_order.len() - i,
    {
        match position(sorted_order, page_order[i]) {
            Some(index) => {
                if index < prev_index {
                    proof {
                        lemma_order_broken(sorted_order@, page_order@, i as int + 1, page_order@.len() as int);
                    }
                    return 0;
                }
                prev_index = index;
            },
            None => {
                proof {
                    lemma_order_broken(sorted_order@, page_order@, i as int + 1, page_order@.len() as int);
                }
                return 0;
            },
        }
        i += 1;
    }
    let middle = (page_order.len() - 1) / 2;
    page_order[middle]
}

/// An update that does not follow the order up to some page does not follow it at all.
pub proof fn lemma_order_broken(sorted: Seq<i32>, pages: Seq<i32>, n: int, more: int)
    requires
        !follows_order(sorted, pages, n),
        n <= more,
    ensures
        !follows_order(sorted, pages, more),
    decreases more - n,
{
    if n < more {
        lemma_order_broken(sorted, pages, n, more - 1);
    }
}

/// At most `n` rules are pending among the first `n`.
pub proof fn lemma_pending_bound(rules: Seq<(i32, i32)>, v: i32, done: Set<i32>, n: int)
    requires
        0 <= n,
    ensures
        pending(rules, v, done, n) <= n,
    decreases n,
{
    if n > 0 {
        lemma_pending_bound(rules, v, done, n - 1);
    }
}

/// The graph of the rules: for each first part of a rule the second parts of
/// its rules, in their order, and for each page that a rule names the number
/// of rules that have it as their second part.
pub fn create_adjacency_list_and_indegree_map(rules_pairs: &Vec<(i32, i32)>) -> (graph: (
    HashMap<i32, Vec<i32>>,
    HashMap<i32, usize>,
))
    ensures
        represents(graph.0@, graph.1@, rules_pairs@),
{
    broadcast use vstd::std_specs::hash::group_hash_axioms;

    let mut adjacency_list: HashMap<i32, Vec<i32>> = HashMap::new();
    let mut in_degree_map: HashMap<i32, usize> = HashMap::new();
    let ghost rules = rules_pairs@;
    let mut i: usize = 0;
    while i < rules_pairs.len()
        invariant
            i <= rules_pairs.len(),
            rules == rules_pairs@,
            stands_for(adjacency_list@, in_degree_map@, rules, i as int),
        decreases rules_pairs.len() - i,
    {
        let (parent, child) = rules_pairs[i];
        let ghost adjacency_before = adjacency_list@;
        let ghost degrees_before = in_degree_map@;
        let mut list: Vec<i32> = match adjacency_list.remove(&parent) {
            Some(list) => list,
            None => Vec::new(),
        };
        proof {
            assert(list@ == children_of(rules, parent, i as int)) by {
                if !adjacency_before.contains_key(parent) {
                    assert(children_of(rules, parent, i as int).len() == 0);
                    assert(list@ =~= children_of(rules, parent, i as int));
                }
            }
        }
        list.push(child);
        adjacency_list.insert(parent, list);
        let seen: usize = match in_degree_map.get(&child) {
            Some(count) => *count,
            None => 0,
        };
        proof {
            lemma_pending_bound(rules, child, Set::empty(), i as int);
            if !degrees_before.contains_key(child) {
                lemma_pending_zero(rules, child, Set::empty(), i as int);
                assert forall|k: int| 0 <= k < i && (#[trigger] rules[k]).1 == child implies false by {
                    assert(names(rules, child, i as int));
                }
            }
        }
        in_degree_map.insert(child, seen + 1);
        if !in_degree_map.contains_key(&parent) {
            proof {
                lemma_pending_zero(rules, parent, Set::empty(), i as int + 1);
                assert forall|k: int| 0 <= k < i + 1 && (#[trigger] rules[k]).1 == parent implies false by {
                    if k < i {
                        assert(names(rules, parent, i as int));
                    }
                }
            }
            in_degree_map.insert(parent, 0);
        }
        proof {
            let n = i as int;
            assert forall|p: i32| #[trigger]
                adjacency_list@.contains_key(p) <==> children_of(rules, p, n + 1).len() > 0 by {
                if p != parent {
                    assert(adjacency_before.contains_key(p) <==> children_of(rules, p, n).len() > 0);
                }
            }
            assert forall|p: i32| #[trigger] adjacency_list@.contains_key(p) implies adjacency_list@[p]@
                == children_of(rules, p, n + 1) by {
                if p != parent {
                    assert(adjacency_before.contains_key(p));
                }
            }
            assert forall|v: i32| #[trigger] in_degree_map@.contains_key(v) <==> names(
                rules,
                v,
                n + 1,
            ) by {
                if names(rules, v, n + 1) {
                    let k = choose|k: int| 0 <= k < n + 1 && ((#[trigger] rules[k]).0 == v || rules[k].1 == v);
                    if k < n {
                        assert(names(rules, v, n));
                        assert(degrees_before.contains_key(v));
                    }
                }
                if in_degree_map@.contains_key(v) {
                    if v == child || v == parent {
                        assert(rules[n].0 == v || rules[n].1 == v);
                    } else {
                        assert(degrees_before.contains_key(v));
                        assert(names(rules, v, n));
                        let k = choose|k: int| 0 <= k < n && ((#[trigger] rules[k]).0 == v || rules[k].1 == v);
                        assert(0 <= k < n + 1 && (rules[k].0 == v || rules[k].1 == v));
                    }
                }
            }
            assert forall|v: i32| #[trigger] in_degree_map@.contains_key(v) implies in_degree_map@[v]
                == pending(rules, v, Set::empty(), n + 1) by {
                if v != child && v != parent {
                    assert(degrees_before.contains_key(v));
                }
                if v == parent && v != child && !degrees_before.contains_key(v) {
                }
                if v != child && degrees_before.contains_key(v) {
                }
            }
        }
        i += 1;
    }
    (adjacency_list, in_degree_map)
}

/// The pages with a degree of zero, each once.
fn zero_keys(degrees: &HashMap<i32, usize>) -> (queue: VecDeque<i32>)
    ensures
        queue@.no_duplicates(),
        forall|v: i32| #[trigger] queue@.contains(v) <==> degrees@.contains_key(v) && degrees@[v] == 0,
{
    broadcast use vstd::std_specs::hash::group_hash_axioms;

    let mut queue: VecDeque<i32> = VecDeque::new();
    let ghost all = vstd::std_specs::hash::spec_hash_map_iter(degrees).remaining();
    let ghost mut seen: int = 0;
    for pair in it: degrees.iter()
        invariant
            it.seq() == all,
            seen == it.index(),
            all.no_duplicates(),
            forall|i: int|
                0 <= i < all.len() ==> degrees@.contains_key(*(#[trigger] all[i]).0) && degrees@[*all[i].0]
                    == *all[i].1,
            forall|k: i32| #[trigger]
                degrees@.contains_key(k) ==> exists|i: int| 0 <= i < all.len() && *(#[trigger] all[i]).0 == k,
            queue@.no_duplicates(),
            forall|v: i32| #[trigger]
                queue@.contains(v) <==> exists|i: int|
                    0 <= i < seen && *(#[trigger] all[i]).0 == v && *all[i].1 == 0,
    {
        let (node, degree) = pair;
        let ghost before = queue@;
        let ghost at = it.index() as int;
        assert(pair == all[at]);
        proof {
            seen = seen + 1;
        }
        if *degree == 0 {
            proof {
                if before.contains(*node) {
                    let i = choose|i: int| 0 <= i < at && *(#[trigger] all[i]).0 == *node && *all[i].1 == 0;
                    assert(degrees@[*all[i].0] == *all[i].1);
                    assert(all[i] == all[at]);
                }
            }
            queue.push_back(*node);
            proof {
                assert(queue@ == before.push(*node));
                assert forall|a: int, b: int|
                    0 <= a < queue@.len() && 0 <= b < queue@.len() && a != b implies queue@[a] != queue@[b] by {
                    if a < before.len() {
                        assert(before.contains(before[a]));
                    }
                    if b < before.len() {
                        assert(before.contains(before[b]));
                    }
                }
            }
        }
        proof {
            assert forall|v: i32| #[trigger]
                queue@.contains(v) <==> exists|i: int|
                    0 <= i < at + 1 && *(#[trigger] all[i]).0 == v && *all[i].1 == 0 by {
                if queue@.contains(v) {
                    let k = choose|k: int| 0 <= k < queue@.len() && queue@[k] == v;
                    if k < before.len() {
                        assert(before.contains(v));
                        let i = choose|i: int| 0 <= i < at && *(#[trigger] all[i]).0 == v && *all[i].1 == 0;
                        assert(0 <= i < at + 1 && *all[i].0 == v && *all[i].1 == 0);
                    } else {
                        assert(*all[at].0 == v && *all[at].1 == 0);
                    }
                }
                if exists|i: int| 0 <= i < at + 1 && *(#[trigger] all[i]).0 == v && *all[i].1 == 0 {
                    let i = choose|i: int| 0 <= i < at + 1 && *(#[trigger] all[i]).0 == v && *all[i].1 == 0;
                    if i < at {
                        assert(before.contains(v));
                        let k = choose|k: int| 0 <= k < before.len() && before[k] == v;
                        assert(queue@[k] == v);
                    } else {
                        assert(queue@[before.len() as int] == v);
                    }
                }
            }
        }
    }
    proof {
        assert(seen == all.len());
        assert forall|v: i32| #[trigger]
            queue@.contains(v) <==> degrees@.contains_key(v) && degrees@[v] == 0 by {
            if degrees@.contains_key(v) && degrees@[v] == 0 {
                let i = choose|i: int| 0 <= i < all.len() && *(#[trigger] all[i]).0 == v;
                assert(degrees@[*all[i].0] == *all[i].1);
            }
            if queue@.contains(v) {
                let i = choose|i: int| 0 <= i < seen && *(#[trigger] all[i]).0 == v && *all[i].1 == 0;
                assert(degrees@.contains_key(*all[i].0));
            }
        }
    }
    queue
}

/// In `order` each page stands behind the first parts of all rules that end in it.
pub open spec fn obeys(order: Seq<i32>, rules: Seq<(i32, i32)>) -> bool {
    forall|i: int, k: int|
        0 <= i < order.len() && 0 <= k < rules.len() && (#[trigger] rules[k]).1 == #[trigger] order[i]
            ==> exists|j: int| 0 <= j < i && order[j] == rules[k].0
}

/// What holds of the degrees while the pages of `order` are done: each is
/// the number of rules that are still pending for its page.
pub open spec fn degrees_pending(degrees: Map<i32, usize>, rules: Seq<(i32, i32)>, order: Seq<i32>) -> bool {
    forall|v: i32| #[trigger]
        degrees.contains_key(v) ==> degrees[v] == pending(rules, v, order.to_set(), rules.len() as int)
}

/// The pages in line and those in the queue are pages of the graph with a
/// degree of zero, none twice, and they are all such pages.
pub open spec fn zeros_listed(degrees: Map<i32, usize>, order: Seq<i32>, queue: Seq<i32>) -> bool {
    &&& (order + queue).no_duplicates()
    &&& forall|i: int|
        0 <= i < (order + queue).len() ==> degrees.contains_key(#[trigger] (order + queue)[i])
            && degrees[(order + queue)[i]] == 0
    &&& forall|v: i32| #[trigger]
        degrees.contains_key(v) && degrees[v] == 0 ==> (order + queue).contains(v)
}

/// An order of the pages of the graph that obeys its edges: each page
/// stands behind all pages from which an edge leads to it. A page is left
/// out only where it cannot stand so, because an edge leads to it from a
/// page that is left out. Which of several such orders comes out is open.
/// The degrees are counted down on the way.
pub fn topological_sort(
    adjacency_list: &HashMap<i32, Vec<i32>>,
    in_degree_map: &mut HashMap<i32, usize>,
) -> (sorted_order: Vec<i32>)
    requires
        exists|rules: Seq<(i32, i32)>| #[trigger] represents(adjacency_list@, old(in_degree_map)@, rules),
    ensures
        is_topological(sorted_order@, adjacency_list@, old(in_degree_map)@.dom()),
        final(in_degree_map)@.dom() == old(in_degree_map)@.dom(),
        forall|v: i32| #[trigger]
            final(in_degree_map)@.contains_key(v) ==> (final(in_degree_map)@[v] == 0
                <==> sorted_order@.contains(v)),
{
    broadcast use vstd::std_specs::hash::group_hash_axioms;

    let ghost rules = choose|rules: Seq<(i32, i32)>| #[trigger]
        represents(adjacency_list@, old(in_degree_map)@, rules);
    let ghost n = rules.len() as int;
    let ghost nodes = old(in_degree_map)@.dom();
    let mut sorted_order: Vec<i32> = Vec::new();
    let mut queue = zero_keys(in_degree_map);
    proof {
        assert(sorted_order@.to_set() =~= Set::<i32>::empty());
        assert(sorted_order@ + queue@ =~= queue@);
        assert forall|i: int| 0 <= i < queue@.len() implies in_degree_map@.contains_key(
            #[trigger] queue@[i],
        ) && in_degree_map@[queue@[i]] == 0 by {
            assert(queue@.contains(queue@[i]));
        }
    }
    while queue.len() > 0
        invariant
            represents(adjacency_list@, old(in_degree_map)@, rules),
            n == rules.len(),
            nodes == old(in_degree_map)@.dom(),
            nodes.finite(),
            in_degree_map@.dom() == nodes,
            degrees_pending(in_degree_map@, rules, sorted_order@),
            zeros_listed(in_degree_map@, sorted_order@, queue@),
            obeys(sorted_order@, rules),
        decreases nodes.len() - sorted_order@.len(),
    {
        let ghost order = sorted_order@;
        let ghost waiting = queue@;
        let ghost done = order.to_set();
        let current_node = queue.pop_front().unwrap();
        proof {
            assert((order + waiting)[order.len() as int] == current_node);
            assert(!done.contains(current_node)) by {
                if order.contains(current_node) {
                    let i = choose|i: int| 0 <= i < order.len() && order[i] == current_node;
                    assert((order + waiting)[i] == current_node);
                }
            }
            lemma_order_within(order + waiting, nodes);
            lemma_pending_zero(rules, current_node, done, n);
        }
        sorted_order.push(current_node);
        let ghost order2 = sorted_order@;
        let ghost done2 = order2.to_set();
        proof {
            assert(order2 + queue@ =~= order + waiting);
            assert forall|v: i32| done2.contains(v) <==> done.insert(current_node).contains(v) by {
                if order2.contains(v) {
                    let i = choose|i: int| 0 <= i < order2.len() && order2[i] == v;
                    if i < order.len() {
                        assert(order[i] == v);
                    }
                }
                if order.contains(v) {
                    let i = choose|i: int| 0 <= i < order.len() && order[i] == v;
                    assert(order2[i] == v);
                }
                if v == current_node {
                    assert(order2[order.len() as int] == v);
                }
            }
            assert(done2 =~= done.insert(current_node));
            assert forall|i: int, k: int|
                0 <= i < order2.len() && 0 <= k < rules.len() && (#[trigger] rules[k]).1
                    == #[trigger] order2[i] implies exists|j: int| 0 <= j < i && order2[j] == rules[k].0 by {
                if i < order.len() {
                    assert(order[i] == order2[i]);
                    let j = choose|j: int| 0 <= j < i && order[j] == rules[k].0;
                    assert(order2[j] == rules[k].0);
                } else {
                    assert(done.contains(rules[k].0));
                    let j = choose|j: int| 0 <= j < order.len() && order[j] == rules[k].0;
                    assert(order2[j] == rules[k].0);
                }
            }
        }
        match adjacency_list.get(&current_node) {
            Some(neighbors) => {
                let ghost list = neighbors@;
                proof {
                    assert(list == children_of(rules, current_node, n));
                    assert forall|v: i32| #[trigger] in_degree_map@.contains_key(v) implies in_degree_map@[v]
                        + occurrences(list, v, 0) == pending(rules, v, done2, n) + occurrences(
                        list,
                        v,
                        list.len() as int,
                    ) by {
                        lemma_pending_split(rules, v, done, current_node, n);
                    }
                }
                let mut j: usize = 0;
                while j < neighbors.len()
                    invariant
                        j <= neighbors.len(),
                        list == neighbors@,
                        nodes.finite(),
                        in_degree_map@.dom() == nodes,
                        n == rules.len(),
                        forall|v: i32| #[trigger]
                            in_degree_map@.contains_key(v) ==> in_degree_map@[v] + occurrences(
                                list,
                                v,
                                j as int,
                            ) == pending(rules, v, done2, n) + occurrences(list, v, list.len() as int),
                        zeros_listed(in_degree_map@, order2, queue@),
                    decreases neighbors.len() - j,
                {
                    let neighbor = neighbors[j];
                    let ghost degrees_before = in_degree_map@;
                    let ghost waiting_before = queue@;
                    proof {
                        lemma_occurrences_monotone(list, neighbor, j as int + 1, list.len() as int);
                    }
                    let found: Option<usize> = match in_degree_map.get(&neighbor) {
                        Some(degree) => Some(*degree),
                        None => None,
                    };
                    if found.is_some() {
                        let degree = found.unwrap();
                        assert(degree >= 1);
                        in_degree_map.insert(neighbor, degree - 1);
                        proof {
                            assert(in_degree_map@.dom() =~= nodes);
                            assert(!(order2 + waiting_before).contains(neighbor)) by {
                                if (order2 + waiting_before).contains(neighbor) {
                                    let i = choose|i: int|
                                        0 <= i < (order2 + waiting_before).len() && (order2
                                            + waiting_before)[i] == neighbor;
                                    assert(degrees_before[(order2 + waiting_before)[i]] == 0);
                                }
                            }
                        }
                        if degree - 1 == 0 {
                            queue.push_back(neighbor);
                            proof {
                                assert(order2 + queue@ =~= (order2 + waiting_before).push(neighbor));
                                lemma_listed_push(
                                    degrees_before,
                                    in_degree_map@,
                                    order2 + waiting_before,
                                    neighbor,
                                );
                            }
                        } else {
                            proof {
                                lemma_listed_same(
                                    degrees_before,
                                    in_degree_map@,
                                    order2 + waiting_before,
                                    neighbor,
                                );
                            }
                        }
                    }
                    j += 1;
                }
            },
            None => {
                proof {
                    let children = children_of(rules, current_node, n);
                    assert(children.len() == 0);
                    assert forall|v: i32| #[trigger] in_degree_map@.contains_key(v) implies in_degree_map@[v]
                        == pending(rules, v, done2, n) by {
                        lemma_pending_split(rules, v, done, current_node, n);
                    }
                }
            },
        }
        proof {
            lemma_order_within(order2 + queue@, nodes);
        }
    }
    proof {
        assert(sorted_order@ + queue@ =~= sorted_order@);
        let order = sorted_order@;
        assert forall|i: int| 0 <= i < order.len() implies nodes.contains(#[trigger] order[i]) by {
            assert((order + queue@)[i] == order[i]);
        }
        assert forall|i: int, u: i32|
            0 <= i < order.len() && #[trigger] has_edge(adjacency_list@, u, order[i]) implies exists|
            j: int,
        |
            0 <= j < i && order[j] == u by {
            lemma_edges_are_rules(adjacency_list@, old(in_degree_map)@, rules, u, order[i]);
            let k = choose|k: int| 0 <= k < rules.len() && #[trigger] rules[k] == (u, order[i]);
            assert(rules[k].1 == order[i]);
        }
        assert forall|v: i32|
            nodes.contains(v) && (forall|u: i32| #[trigger]
                has_edge(adjacency_list@, u, v) ==> order.contains(u)) implies #[trigger] order.contains(
            v,
        ) by {
            lemma_pending_zero(rules, v, order.to_set(), n);
            assert forall|k: int| 0 <= k < n && (#[trigger] rules[k]).1 == v implies order.to_set().contains(
                rules[k].0,
            ) by {
                lemma_edges_are_rules(adjacency_list@, old(in_degree_map)@, rules, rules[k].0, v);
                assert(has_rule(rules, rules[k].0, v));
                assert(has_edge(adjacency_list@, rules[k].0, v));
            }
            assert(in_degree_map@[v] == 0);
        }
        assert forall|v: i32| #[trigger] in_degree_map@.contains_key(v) implies (in_degree_map@[v] == 0
            <==> order.contains(v)) by {
            if order.contains(v) {
                let i = choose|i: int| 0 <= i < order.len() && order[i] == v;
                assert((order + queue@)[i] == v);
            }
        }
    }
    sorted_order
}

/// A list without repetitions of members of a finite set is no longer than
/// the set is large.
proof fn lemma_order_within(list: Seq<i32>, nodes: Set<i32>)
    requires
        list.no_duplicates(),
        nodes.finite(),
        forall|i: int| 0 <= i < list.len() ==> nodes.contains(#[trigger] list[i]),
    ensures
        list.len() <= nodes.len(),
{
    list.unique_seq_to_set();
    assert(list.to_set().subset_of(nodes)) by {
        assert forall|v: i32| list.to_set().contains(v) implies nodes.contains(v) by {
            let i = choose|i: int| 0 <= i < list.len() && list[i] == v;
        }
    }
    lemma_len_subset(list.to_set(), nodes);
}

/// The list of pages with degree zero stays right when a page that is not
/// in it reaches zero and joins it.
proof fn lemma_listed_push(before: Map<i32, usize>, after: Map<i32, usize>, listed: Seq<i32>, page: i32)
    requires
        listed.no_duplicates(),
        forall|i: int| 0 <= i < listed.len() ==> before.contains_key(#[trigger] listed[i]) && before[listed[i]] == 0,
        forall|v: i32| #[trigger] before.contains_key(v) && before[v] == 0 ==> listed.contains(v),
        !listed.contains(page),
        before.contains_key(page),
        after == before.insert(page, 0),
    ensures
        listed.push(page).no_duplicates(),
        forall|i: int|
            0 <= i < listed.push(page).len() ==> after.contains_key(#[trigger] listed.push(page)[i])
                && after[listed.push(page)[i]] == 0,
        forall|v: i32| #[trigger] after.contains_key(v) && after[v] == 0 ==> listed.push(page).contains(v),
{
    let more = listed.push(page);
    assert forall|a: int, b: int| 0 <= a < more.len() && 0 <= b < more.len() && a != b implies more[a]
        != more[b] by {
        if a < listed.len() {
            assert(listed.contains(listed[a]));
        }
        if b < listed.len() {
            assert(listed.contains(listed[b]));
        }
    }
    assert forall|i: int| 0 <= i < more.len() implies after.contains_key(#[trigger] more[i]) && after[more[i]]
        == 0 by {
        if i < listed.len() {
            assert(more[i] == listed[i]);
            assert(listed.contains(listed[i]));
        }
    }
    assert forall|v: i32| #[trigger] after.contains_key(v) && after[v] == 0 implies more.contains(v) by {
        if v == page {
            assert(more[listed.len() as int] == page);
        } else {
            assert(listed.contains(v));
            let i = choose|i: int| 0 <= i < listed.len() && listed[i] == v;
            assert(more[i] == v);
        }
    }
}

/// The list of pages with degree zero stays right when the degree of a page
/// that is not in it goes down and stays above zero.
proof fn lemma_listed_same(before: Map<i32, usize>, after: Map<i32, usize>, listed: Seq<i32>, page: i32)
    requires
        forall|i: int| 0 <= i < listed.len() ==> before.contains_key(#[trigger] listed[i]) && before[listed[i]] == 0,
        forall|v: i32| #[trigger] before.contains_key(v) && before[v] == 0 ==> listed.contains(v),
        !listed.contains(page),
        before.contains_key(page),
        after.dom() == before.dom(),
        after[page] > 0,
        forall|v: i32| v != page && before.contains_key(v) ==> #[trigger] after[v] == before[v],
    ensures
        forall|i: int| 0 <= i < listed.len() ==> after.contains_key(#[trigger] listed[i]) && after[listed[i]] == 0,
        forall|v: i32| #[trigger] after.contains_key(v) && after[v] == 0 ==> listed.contains(v),
{
    assert forall|i: int| 0 <= i < listed.len() implies after.contains_key(#[trigger] listed[i])
        && after[listed[i]] == 0 by {
        assert(listed.contains(listed[i]));
        assert(before.contains_key(listed[i]));
    }
    assert forall|v: i32| #[trigger] after.contains_key(v) && after[v] == 0 implies listed.contains(v) by {
        assert(before.contains_key(v));
        assert(after[v] == before[v]);
    }
}

} // verus!
