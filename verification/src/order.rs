//! Stable dependency order: nodes come after what they depend on, earliest first.
use vstd::prelude::*;

verus! {

/// For every node the nodes that have to come before it.
pub open spec fn lists(before: Seq<Vec<usize>>) -> Seq<Seq<usize>> {
    before.map_values(|list: Vec<usize>| list@)
}

/// Whether every node named in `before` is one of the nodes.
pub open spec fn in_range(before: Seq<Seq<usize>>) -> bool {
    forall|i: int, k: int|
        0 <= i < before.len() && 0 <= k < before[i].len() ==> #[trigger] before[i][k]
            < before.len()
}

/// Whether node `i` is not done and all that has to come before it is.
pub open spec fn ready(before: Seq<Seq<usize>>, done: Seq<usize>, i: int) -> bool {
    &&& 0 <= i < before.len()
    &&& !done.contains(i as usize)
    &&& forall|k: int| 0 <= k < before[i].len() ==> done.contains(#[trigger] before[i][k])
}

/// Whether each node of `order` was, when it was taken, the first of the nodes that were ready.
pub open spec fn takes_first_ready(before: Seq<Seq<usize>>, order: Seq<usize>) -> bool {
    forall|k: int|
        0 <= k < order.len() ==> {
            &&& ready(before, order.take(k), #[trigger] order[k] as int)
            &&& forall|j: int| 0 <= j < order[k] ==> !#[trigger] ready(before, order.take(k), j)
        }
}

/// The order that takes the first ready node again and again, until none is ready.
pub open spec fn is_stable_order(before: Seq<Seq<usize>>, order: Seq<usize>) -> bool {
    &&& takes_first_ready(before, order)
    &&& forall|i: int| !#[trigger] ready(before, order, i)
}

/// Whether `path` goes from node to a node that has to come before it, and ends where it began.
pub open spec fn is_cycle(before: Seq<Seq<usize>>, path: Seq<usize>) -> bool {
    &&& path.len() >= 2
    &&& path.first() == path.last()
    &&& forall|i: int|
        0 <= i < path.len() ==> 0 <= #[trigger] path[i] < before.len()
    &&& forall|i: int|
        0 <= i < path.len() - 1 ==> before[#[trigger] path[i] as int].contains(path[i + 1])
}

/// Whether some node has to come before itself.
pub open spec fn has_cycle(before: Seq<Seq<usize>>) -> bool {
    exists|path: Seq<usize>| is_cycle(before, path)
}

/// An order holds no node twice, and only nodes.
pub proof fn order_has_no_duplicates(before: Seq<Seq<usize>>, order: Seq<usize>)
    requires
        takes_first_ready(before, order),
    ensures
        order.no_duplicates(),
        forall|k: int| 0 <= k < order.len() ==> #[trigger] order[k] < before.len(),
        order.len() <= before.len(),
{
    assert forall|i: int, j: int| 0 <= i < j < order.len() implies order[i] != order[j] by {
        assert(ready(before, order.take(j), order[j] as int));
        assert(order.take(j)[i] == order[i]);
    }
    assert forall|k: int| 0 <= k < order.len() implies #[trigger] order[k] < before.len() by {
        assert(ready(before, order.take(k), order[k] as int));
    }
    distinct_nodes_fit(order, before.len());
}

/// Distinct numbers below `n` are at most `n`.
pub proof fn distinct_nodes_fit(nodes: Seq<usize>, n: nat)
    requires
        nodes.no_duplicates(),
        forall|k: int| 0 <= k < nodes.len() ==> #[trigger] nodes[k] < n,
    ensures
        nodes.len() <= n,
{
    let ints = nodes.map_values(|x: usize| x as int);
    assert(ints.no_duplicates());
    let range = vstd::set_lib::set_int_range(0, n as int);
    vstd::set_lib::lemma_int_range(0, n as int);
    ints.unique_seq_to_set();
    assert forall|x: int| ints.to_set().contains(x) implies range.contains(x) by {
        let k = choose|k: int| 0 <= k < ints.len() && ints[k] == x;
        assert(nodes[k] < n);
    }
    vstd::set_lib::lemma_len_subset(ints.to_set(), range);
}

/// There is only one stable order.
pub proof fn stable_order_is_unique(before: Seq<Seq<usize>>, a: Seq<usize>, b: Seq<usize>)
    requires
        is_stable_order(before, a),
        is_stable_order(before, b),
    ensures
        a == b,
{
    same_prefix(before, a, b, a.len());
    same_prefix(before, b, a, b.len());
    if a.len() < b.len() {
        assert(b.take(a.len() as int) =~= a);
        assert(ready(before, b.take(a.len() as int), b[a.len() as int] as int));
    } else if b.len() < a.len() {
        assert(a.take(b.len() as int) =~= b);
        assert(ready(before, a.take(b.len() as int), a[b.len() as int] as int));
    }
    assert(a =~= b);
}

proof fn same_prefix(before: Seq<Seq<usize>>, a: Seq<usize>, b: Seq<usize>, n: nat)
    requires
        is_stable_order(before, a),
        is_stable_order(before, b),
        n <= a.len(),
    ensures
        forall|k: int| 0 <= k < n && k < b.len() ==> a[k] == b[k],
    decreases n,
{
    if n > 0 {
        same_prefix(before, a, b, (n - 1) as nat);
        let k = n - 1;
        if k < b.len() {
            assert(a.take(k) =~= b.take(k));
            assert(ready(before, a.take(k), a[k] as int));
            assert(ready(before, b.take(k), b[k] as int));
        }
    }
}

/// In an order that holds every node, each node stands after all that has to come before it.
pub proof fn complete_order_respects_dependencies(
    before: Seq<Seq<usize>>,
    order: Seq<usize>,
    node: int,
    dependency: usize,
)
    requires
        is_stable_order(before, order),
        order.len() == before.len(),
        0 <= node < before.len(),
        before[node].contains(dependency),
    ensures
        exists|i: int, j: int|
            0 <= i < j < order.len() && #[trigger] order[i] == dependency && #[trigger] order[j]
                == node,
{
    complete_order_holds_every_node(before, order, node);
    let j = choose|j: int| 0 <= j < order.len() && order[j] == node;
    assert(ready(before, order.take(j), order[j] as int));
    let k = choose|k: int| 0 <= k < before[node].len() && before[node][k] == dependency;
    assert(order.take(j).contains(before[node][k]));
    let i = choose|i: int| 0 <= i < order.take(j).len() && order.take(j)[i] == dependency;
    assert(order[i] == dependency && order[j] == node);
}

/// An order as long as there are nodes holds every node.
pub proof fn complete_order_holds_every_node(
    before: Seq<Seq<usize>>,
    order: Seq<usize>,
    node: int,
)
    requires
        is_stable_order(before, order),
        order.len() == before.len(),
        0 <= node < before.len(),
    ensures
        exists|j: int| 0 <= j < order.len() && #[trigger] order[j] == node,
{
    order_has_no_duplicates(before, order);
    distinct_nodes_fit(order, usize::MAX as nat + 1);
    if forall|j: int| 0 <= j < order.len() ==> #[trigger] order[j] != node {
        let longer = order.push(node as usize);
        assert forall|i: int, j: int| 0 <= i < j < longer.len() implies longer[i] != longer[j] by {
            if j == order.len() {
                assert(order[i] != node);
            }
        }
        distinct_nodes_fit(longer, before.len());
    }
}

/// Where `node` stands in `order`.
spec fn place(order: Seq<usize>, node: usize) -> int {
    choose|j: int| 0 <= j < order.len() && order[j] == node
}

proof fn cycle_goes_back(before: Seq<Seq<usize>>, order: Seq<usize>, path: Seq<usize>, i: int)
    requires
        is_stable_order(before, order),
        order.len() == before.len(),
        is_cycle(before, path),
        0 <= i < path.len(),
    ensures
        0 <= place(order, path[i]) <= place(order, path[0]) - i,
    decreases i,
{
    order_has_no_duplicates(before, order);
    complete_order_holds_every_node(before, order, path[i] as int);
    if i > 0 {
        cycle_goes_back(before, order, path, i - 1);
        assert(before[path[i - 1] as int].contains(path[i - 1 + 1]));
        complete_order_respects_dependencies(before, order, path[i - 1] as int, path[i]);
        complete_order_holds_every_node(before, order, path[i - 1] as int);
    }
}

/// Where nodes depend on each other in a circle no order holds every node.
pub proof fn complete_order_has_no_cycle(before: Seq<Seq<usize>>, order: Seq<usize>)
    requires
        is_stable_order(before, order),
        order.len() == before.len(),
    ensures
        !has_cycle(before),
{
    if has_cycle(before) {
        let path = choose|path: Seq<usize>| is_cycle(before, path);
        cycle_goes_back(before, order, path, path.len() - 1);
    }
}

/// Whether node `d` has to come before node `i` and is not in `order`.
pub open spec fn blocks(before: Seq<Seq<usize>>, order: Seq<usize>, i: usize, d: usize) -> bool {
    before[i as int].contains(d) && !order.contains(d)
}

/// A node that a stable order leaves out is kept back by another node that it leaves out.
pub proof fn left_out_nodes_are_blocked(before: Seq<Seq<usize>>, order: Seq<usize>, i: usize)
    requires
        is_stable_order(before, order),
        0 <= i < before.len(),
        !order.contains(i),
    ensures
        exists|d: usize| #[trigger] blocks(before, order, i, d),
{
    assert(!ready(before, order, i as int));
    let k = choose|k: int|
        0 <= k < before[i as int].len() && !order.contains(#[trigger] before[i as int][k]);
    assert(blocks(before, order, i, before[i as int][k]));
}

/// A walk from `start` that goes from each node to one that keeps it back.
spec fn walk(before: Seq<Seq<usize>>, order: Seq<usize>, start: usize, steps: nat) -> Seq<usize>
    decreases steps,
{
    if steps == 0 {
        seq![start]
    } else {
        let so_far = walk(before, order, start, (steps - 1) as nat);
        so_far.push(choose|d: usize| blocks(before, order, so_far.last(), d))
    }
}

proof fn walk_stays_left_out(before: Seq<Seq<usize>>, order: Seq<usize>, start: usize, steps: nat)
    requires
        is_stable_order(before, order),
        in_range(before),
        start < before.len(),
        !order.contains(start),
    ensures
        walk(before, order, start, steps).len() == steps + 1,
        forall|i: int|
            0 <= i <= steps ==> 0 <= #[trigger] walk(before, order, start, steps)[i]
                < before.len() && !order.contains(walk(before, order, start, steps)[i]),
        forall|i: int|
            0 <= i < steps ==> before[#[trigger] walk(before, order, start, steps)[i] as int].contains(
                walk(before, order, start, steps)[i + 1],
            ),
    decreases steps,
{
    if steps > 0 {
        let so_far = walk(before, order, start, (steps - 1) as nat);
        walk_stays_left_out(before, order, start, (steps - 1) as nat);
        let last = so_far.last();
        left_out_nodes_are_blocked(before, order, last);
        let d = choose|d: usize| blocks(before, order, last, d);
        let k = choose|k: int| 0 <= k < before[last as int].len() && before[last as int][k] == d;
        assert(before[last as int][k] < before.len());
        let longer = walk(before, order, start, steps);
        assert(longer == so_far.push(d));
        assert forall|i: int| 0 <= i < steps implies before[#[trigger] longer[i] as int].contains(
            longer[i + 1],
        ) by {
            if i < steps - 1 {
                assert(longer[i] == so_far[i] && longer[i + 1] == so_far[i + 1]);
            }
        }
    }
}

/// A stable order that leaves nodes out shows that nodes depend on each other in a circle.
pub proof fn incomplete_order_has_a_cycle(before: Seq<Seq<usize>>, order: Seq<usize>)
    requires
        is_stable_order(before, order),
        in_range(before),
        before.len() <= usize::MAX,
        order.len() != before.len(),
    ensures
        has_cycle(before),
{
    order_has_no_duplicates(before, order);
    let n = before.len();
    let start = some_left_out_node(before, order);
    walk_stays_left_out(before, order, start, n);
    let steps = walk(before, order, start, n);
    if steps.no_duplicates() {
        assert forall|k: int| 0 <= k < steps.len() implies #[trigger] steps[k] < n by {
            assert(0 <= walk(before, order, start, n)[k] < before.len());
        }
        distinct_nodes_fit(steps, n);
    }
    let (i, j) = choose|i: int, j: int|
        0 <= i < j < steps.len() && #[trigger] steps[i] == #[trigger] steps[j];
    let path = steps.subrange(i, j + 1);
    assert forall|k: int| 0 <= k < path.len() - 1 implies before[#[trigger] path[k] as int].contains(
        path[k + 1],
    ) by {
        assert(path[k] == steps[i + k] && path[k + 1] == steps[i + k + 1]);
        assert(before[walk(before, order, start, n)[i + k] as int].contains(
            walk(before, order, start, n)[i + k + 1],
        ));
    }
    assert forall|k: int| 0 <= k < path.len() implies 0 <= #[trigger] path[k] < before.len() by {
        assert(path[k] == walk(before, order, start, n)[i + k]);
    }
    assert(is_cycle(before, path));
}

/// Some node that `order` leaves out.
pub proof fn some_left_out_node(before: Seq<Seq<usize>>, order: Seq<usize>) -> (node: usize)
    requires
        order.no_duplicates(),
        order.len() < before.len() <= usize::MAX,
    ensures
        node < before.len(),
        !order.contains(node),
{
    if forall|x: usize| x < before.len() ==> #[trigger] order.contains(x) {
        let range = vstd::set_lib::set_int_range(0, before.len() as int);
        vstd::set_lib::lemma_int_range(0, before.len() as int);
        let ints = order.map_values(|x: usize| x as int);
        ints.unique_seq_to_set();
        assert forall|x: int| range.contains(x) implies ints.to_set().contains(x) by {
            assert(order.contains(x as usize));
            let k = choose|k: int| 0 <= k < order.len() && order[k] == x as usize;
            assert(ints[k] == x);
        }
        vstd::set_lib::lemma_len_subset(range, ints.to_set());
    }
    choose|x: usize| x < before.len() && !#[trigger] order.contains(x)
}

/// Whether `list` holds `node`.
pub fn holds_node(list: &Vec<usize>, node: usize) -> (found: bool)
    ensures
        found == list@.contains(node),
{
    let mut i: usize = 0;
    while i < list.len()
        invariant
            i <= list.len(),
            forall|j: int| 0 <= j < i ==> list@[j] != node,
        decreases list.len() - i,
    {
        if list[i] == node {
            assert(list@[i as int] == node);
            return true;
        }
        i += 1;
    }
    false
}

fn is_ready(before: &Vec<Vec<usize>>, done: &Vec<usize>, i: usize) -> (yes: bool)
    requires
        i < before.len(),
    ensures
        yes == ready(lists(before@), done@, i as int),
{
    if holds_node(done, i) {
        return false;
    }
    let list = &before[i];
    assert(lists(before@)[i as int] == list@);
    let mut k: usize = 0;
    while k < list.len()
        invariant
            k <= list.len(),
            list@ == lists(before@)[i as int],
            forall|j: int| 0 <= j < k ==> done@.contains(#[trigger] list@[j]),
        decreases list.len() - k,
    {
        if !holds_node(done, list[k]) {
            assert(!done@.contains(lists(before@)[i as int][k as int]));
            return false;
        }
        k += 1;
    }
    true
}

/// Orders the nodes so that each comes after all that has to come before it, taking the first
/// node that is ready each time. Nodes that depend on each other in a circle are left out.
pub fn stable_order(before: &Vec<Vec<usize>>) -> (order: Vec<usize>)
    requires
        in_range(lists(before@)),
    ensures
        is_stable_order(lists(before@), order@),
        order.len() <= before.len(),
        order.len() == before.len() <==> !has_cycle(lists(before@)),
        order@.no_duplicates(),
        forall|k: int| 0 <= k < order.len() ==> #[trigger] order@[k] < before.len(),
{
    let ghost graph = lists(before@);
    let mut order: Vec<usize> = Vec::new();
    loop
        invariant
            graph == lists(before@),
            in_range(graph),
            takes_first_ready(graph, order@),
        ensures
            is_stable_order(graph, order@),
        decreases before.len() - order.len(),
    {
        let mut i: usize = 0;
        while i < before.len() && !is_ready(before, &order, i)
            invariant
                i <= before.len(),
                graph == lists(before@),
                forall|j: int| 0 <= j < i ==> !#[trigger] ready(graph, order@, j),
            decreases before.len() - i,
        {
            i += 1;
        }
        if i == before.len() {
            break;
        }
        let ghost so_far = order@;
        order.push(i);
        proof {
            assert forall|k: int| 0 <= k < order@.len() implies {
                &&& ready(graph, order@.take(k), #[trigger] order@[k] as int)
                &&& forall|j: int|
                    0 <= j < order@[k] ==> !#[trigger] ready(graph, order@.take(k), j)
            } by {
                if k < so_far.len() {
                    assert(order@.take(k) =~= so_far.take(k));
                    assert(order@[k] == so_far[k]);
                } else {
                    assert(order@.take(k) =~= so_far);
                }
            }
            order_has_no_duplicates(graph, order@);
        }
    }
    let n: usize = before.len();
    proof {
        assert(graph.len() == n);
        order_has_no_duplicates(graph, order@);
        if order@.len() == graph.len() {
            complete_order_has_no_cycle(graph, order@);
        } else {
            incomplete_order_has_a_cycle(graph, order@);
        }
    }
    order
}

/// The first node on the way from `node` that `done` does not hold.
pub open spec fn next_left_out(graph: Seq<Seq<usize>>, done: Seq<usize>, node: usize, next: usize) -> bool {
    exists|k: int|
        {
            &&& 0 <= k < graph[node as int].len()
            &&& #[trigger] graph[node as int][k] == next
            &&& !done.contains(next)
            &&& forall|j: int| 0 <= j < k ==> done.contains(#[trigger] graph[node as int][j])
        }
}

/// A walk that starts at the first node that `done` does not hold, goes on from each node to the
/// first of its dependencies that `done` does not hold, and ends where it first comes back to a
/// node it has met.
pub open spec fn is_cycle_trail(graph: Seq<Seq<usize>>, done: Seq<usize>, trail: Seq<usize>) -> bool {
    &&& trail.len() >= 2
    &&& forall|i: int| 0 <= i < trail.len() ==> #[trigger] trail[i] < graph.len()
    &&& !done.contains(trail[0])
    &&& forall|x: usize| x < trail[0] ==> #[trigger] done.contains(x)
    &&& forall|i: int|
        0 <= i < trail.len() - 1 ==> next_left_out(graph, done, #[trigger] trail[i], trail[i + 1])
    &&& trail.drop_last().no_duplicates()
    &&& trail.drop_last().contains(trail.last())
}

/// A walk through the nodes that `done` leaves out, up to the first node it comes back to.
pub fn cycle_trail(before: &Vec<Vec<usize>>, done: &Vec<usize>) -> (trail: Vec<usize>)
    requires
        in_range(lists(before@)),
        is_stable_order(lists(before@), done@),
        done.len() < before.len(),
        done@.no_duplicates(),
    ensures
        is_cycle_trail(lists(before@), done@, trail@),
        forall|j: int| 0 <= j < trail.len() ==> #[trigger] trail@[j] < before.len(),
{
    let ghost graph = lists(before@);
    let mut start: usize = 0;
    proof {
        assert(graph.len() == before@.len());
    }
    let n: usize = before.len();
    let ghost witness = some_left_out_node(graph, done@);
    while holds_node(done, start)
        invariant
            start <= witness < n,
            !done@.contains(witness),
            forall|x: usize| x < start ==> #[trigger] done@.contains(x),
        decreases n - start,
    {
        start += 1;
    }
    let mut trail: Vec<usize> = Vec::new();
    trail.push(start);
    let mut current: usize = start;
    loop
        invariant
            graph == lists(before@),
            n == before.len() == graph.len(),
            in_range(graph),
            is_stable_order(graph, done@),
            trail.len() > 0,
            trail@[0] == start,
            trail@.last() == current,
            trail@.no_duplicates(),
            forall|i: int|
                0 <= i < trail.len() ==> #[trigger] trail@[i] < n && !done@.contains(trail@[i]),
            forall|x: usize| x < start ==> #[trigger] done@.contains(x),
            forall|i: int|
                0 <= i < trail.len() - 1 ==> next_left_out(
                    graph,
                    done@,
                    #[trigger] trail@[i],
                    trail@[i + 1],
                ),
        decreases n - trail.len(),
    {
        let list = &before[current];
        assert(graph[current as int] == list@);
        proof {
            assert(!done@.contains(trail@[trail@.len() - 1]));
            left_out_nodes_are_blocked(graph, done@, current);
        }
        let ghost blocker = choose|d: usize| blocks(graph, done@, current, d);
        let ghost spot = choose|k: int| 0 <= k < list@.len() && list@[k] == blocker;
        let mut k: usize = 0;
        while holds_node(done, list[k])
            invariant
                k <= spot < list.len(),
                0 <= spot < list@.len(),
                list@[spot] == blocker,
                !done@.contains(blocker),
                forall|j: int| 0 <= j < k ==> done@.contains(#[trigger] list@[j]),
            decreases list.len() - k,
        {
            k += 1;
        }
        let next: usize = list[k];
        proof {
            assert(graph[current as int][k as int] == next);
            assert(next_left_out(graph, done@, current, next));
            assert(next < n);
        }
        let met: bool = holds_node(&trail, next);
        let ghost so_far = trail@;
        trail.push(next);
        proof {
            assert forall|i: int| 0 <= i < trail@.len() - 1 implies next_left_out(
                graph,
                done@,
                #[trigger] trail@[i],
                trail@[i + 1],
            ) by {
                if i < so_far.len() - 1 {
                    assert(trail@[i] == so_far[i] && trail@[i + 1] == so_far[i + 1]);
                }
            }
            assert(trail@.drop_last() =~= so_far);
        }
        if met {
            return trail;
        }
        proof {
            assert forall|i: int, j: int| 0 <= i < j < trail@.len() implies trail@[i] != trail@[j] by {
                if j == so_far.len() {
                    assert(so_far.contains(so_far[i]));
                }
            }
            distinct_nodes_fit(trail@, n as nat);
        }
        current = next;
    }
}

/// The circle at the end of a walk that comes back to a node: it begins and ends with that node,
/// and meets no other node twice.
pub open spec fn is_found_cycle(graph: Seq<Seq<usize>>, done: Seq<usize>, found: Seq<usize>) -> bool {
    &&& is_cycle(graph, found)
    &&& found.drop_last().no_duplicates()
    &&& exists|trail: Seq<usize>, from: int|
        {
            &&& #[trigger] is_cycle_trail(graph, done, trail)
            &&& 0 <= from < trail.len() - 1
            &&& found == #[trigger] trail.skip(from)
        }
}

/// The circle that a walk through the nodes that `done` leaves out ends in.
pub fn found_cycle(before: &Vec<Vec<usize>>, done: &Vec<usize>) -> (found: Vec<usize>)
    requires
        in_range(lists(before@)),
        is_stable_order(lists(before@), done@),
        done.len() < before.len(),
        done@.no_duplicates(),
    ensures
        is_found_cycle(lists(before@), done@, found@),
        forall|j: int| 0 <= j < found.len() ==> #[trigger] found@[j] < before.len(),
{
    let ghost graph = lists(before@);
    let trail = cycle_trail(before, done);
    let n: usize = trail.len();
    let last: usize = trail[n - 1];
    let ghost spot = choose|k: int|
        0 <= k < trail@.drop_last().len() && trail@.drop_last()[k] == last;
    let mut from: usize = 0;
    while trail[from] != last
        invariant
            n == trail.len(),
            from <= spot < n - 1,
            trail@[spot] == last,
        decreases spot - from,
    {
        from += 1;
    }
    let mut found: Vec<usize> = Vec::new();
    let mut i: usize = from;
    while i < n
        invariant
            from <= i <= n == trail.len(),
            found@ == trail@.subrange(from as int, i as int),
        decreases n - i,
    {
        found.push(trail[i]);
        i += 1;
    }
    proof {
        assert(found@ =~= trail@.skip(from as int));
        assert forall|j: int| 0 <= j < found.len() implies 0 <= #[trigger] found@[j] < graph.len() by {
            assert(found@[j] == trail@[from + j]);
        }
        assert forall|j: int| 0 <= j < found@.len() - 1 implies graph[
            #[trigger] found@[j] as int
        ].contains(found@[j + 1]) by {
            assert(found@[j] == trail@[from + j] && found@[j + 1] == trail@[from + j + 1]);
            assert(next_left_out(graph, done@, trail@[from + j], trail@[from + j + 1]));
        }
        assert forall|a: int, b: int|
            0 <= a < b < found@.drop_last().len() implies found@.drop_last()[a]
            != found@.drop_last()[b] by {
            assert(trail@.drop_last()[from + a] != trail@.drop_last()[from + b]);
        }
        assert(is_cycle_trail(graph, done@, trail@));
    }
    found
}

/// A node comes ahead of one that stands before it in the list only for a reason: something that
/// the other has to wait for comes in between.
pub proof fn overtaking_has_a_reason(
    before: Seq<Seq<usize>>,
    order: Seq<usize>,
    x: int,
    y: int,
)
    requires
        takes_first_ready(before, order),
        0 <= x < y < order.len(),
        order[y] < order[x],
    ensures
        exists|z: int| x <= z < y && before[order[y] as int].contains(#[trigger] order[z]),
{
    order_has_no_duplicates(before, order);
    let node = order[y] as int;
    assert(order[x] as int >= 0);
    assert(!ready(before, order.take(x), node));
    assert(ready(before, order.take(y), order[y] as int));
    assert(!order.take(x).contains(order[y])) by {
        if order.take(x).contains(order[y]) {
            let j = choose|j: int| 0 <= j < x && order.take(x)[j] == order[y];
            assert(order[j] == order[y]);
        }
    }
    let k = choose|k: int|
        0 <= k < before[node].len() && !order.take(x).contains(#[trigger] before[node][k]);
    assert(order.take(y).contains(before[node][k]));
    let z = choose|z: int| 0 <= z < order.take(y).len() && order.take(y)[z] == before[node][k];
    assert(order[z] == before[node][k]);
    if z < x {
        assert(order.take(x)[z] == before[node][k]);
    }
    assert(before[node].contains(order[z]));
}

/// A stable order holds no node of a circle.
pub proof fn circles_are_never_ordered(before: Seq<Seq<usize>>, order: Seq<usize>, path: Seq<usize>)
    requires
        is_stable_order(before, order),
        is_cycle(before, path),
    ensures
        forall|i: int| 0 <= i < path.len() ==> !order.contains(#[trigger] path[i]),
{
    assert forall|i: int| 0 <= i < path.len() implies !order.contains(#[trigger] path[i]) by {
        if order.contains(path[i]) {
            let at = choose|at: int| 0 <= at < order.len() && order[at] == path[i];
            circle_runs_out(before, order, path, i, at);
        }
    }
}

proof fn circle_runs_out(
    before: Seq<Seq<usize>>,
    order: Seq<usize>,
    path: Seq<usize>,
    i: int,
    at: int,
)
    requires
        is_stable_order(before, order),
        is_cycle(before, path),
        0 <= i < path.len(),
        0 <= at < order.len(),
    ensures
        order[at] != path[i],
    decreases at,
{
    if order[at] == path[i] {
        let here = if i == path.len() - 1 {
            0int
        } else {
            i
        };
        assert(path[here] == path[i]);
        assert(ready(before, order.take(at), order[at] as int));
        let next = path[here + 1];
        assert(before[path[here] as int].contains(next));
        let k = choose|k: int|
            0 <= k < before[path[here] as int].len() && before[path[here] as int][k] == next;
        assert(order.take(at).contains(before[path[here] as int][k]));
        let earlier = choose|z: int| 0 <= z < order.take(at).len() && order.take(at)[z] == next;
        circle_runs_out(before, order, path, here + 1, earlier);
    }
}

/// An order that was computed holds no node twice, and every node in it behind all that has to
/// come before it. It leaves nodes out exactly if some of them form a circle.
pub proof fn computed_orders_respect_what_comes_before(
    before: &Vec<Vec<usize>>,
    order: Vec<usize>,
    y: int,
    k: int,
)
    requires
        call_ensures(stable_order, (before,), order),
    ensures
        order@.no_duplicates(),
        0 <= y < order@.len() ==> order@[y] < before@.len(),
        0 <= y < order@.len() && 0 <= k < before@[order@[y] as int]@.len() ==> exists|x: int|
            0 <= x < y && #[trigger] order@[x] == before@[order@[y] as int]@[k],
        order@.len() <= before@.len(),
        order@.len() < before@.len() <==> has_cycle(lists(before@)),
{
    let graph = lists(before@);
    order_has_no_duplicates(graph, order@);
    if 0 <= y < order@.len() {
        let node = order@[y] as int;
        assert(ready(graph, order@.take(y), node));
        assert(graph[node] == before@[node]@);
        if 0 <= k < before@[node]@.len() {
            assert(order@.take(y).contains(graph[node][k]));
            let x = choose|x: int| 0 <= x < y && order@.take(y)[x] == graph[node][k];
            assert(order@[x] == before@[node]@[k]);
        }
    }
}

/// A circle that is found is one: it ends with the node that it begins with, goes from each node
/// to one that has to come before it, and meets no other node twice.
pub proof fn found_circles_close(
    graph: Seq<Seq<usize>>,
    done: Seq<usize>,
    found: Seq<usize>,
    i: int,
    j: int,
)
    requires
        is_found_cycle(graph, done, found),
    ensures
        found.len() >= 2,
        found[0] == found[found.len() - 1],
        0 <= i < found.len() ==> found[i] < graph.len(),
        0 <= i < found.len() - 1 ==> graph[found[i] as int].contains(found[i + 1]),
        0 <= i < j < found.len() - 1 ==> found[i] != found[j],
{
    if 0 <= i < j < found.len() - 1 {
        assert(found.drop_last()[i] != found.drop_last()[j]);
    }
}

} // verus!
