//! The containers below a container: what the search for them finds, level
//! by level, and that it finds the ends of the chains of children that start
//! at the container.

use crate::processor::container::ContainerView;
use crate::store::tables::{children_of, entries_in, ngram_rows_in, EntryRow, NgramRow};
use vstd::prelude::*;

verus! {

/// The containers directly below each container of a list, list item after
/// list item.
pub open spec fn level_below(containers: Seq<ContainerView>, level: Seq<Seq<char>>) -> Seq<
    Seq<char>,
>
    decreases level.len(),
{
    if level.len() == 0 {
        Seq::empty()
    } else {
        level_below(containers, level.drop_last()) + children_of(containers, level.last())
    }
}

/// The containers that lie at most `depth` levels below the containers of
/// `level`: the level directly below, then the one below that, and so on.
pub open spec fn levels_below(containers: Seq<ContainerView>, level: Seq<Seq<char>>, depth: nat) -> Seq<
    Seq<char>,
>
    decreases depth,
{
    if depth == 0 || level.len() == 0 {
        Seq::empty()
    } else {
        level_below(containers, level) + levels_below(
            containers,
            level_below(containers, level),
            (depth - 1) as nat,
        )
    }
}

/// All containers below `container_id`, level by level, as many levels down
/// as the table has rows. Among the containers of a forest no chain of
/// children is longer than that, so that every descendant is found; among
/// containers with a cycle the search still ends.
pub open spec fn descendants_of(containers: Seq<ContainerView>, container_id: Seq<char>) -> Seq<
    Seq<char>,
> {
    levels_below(containers, seq![container_id], containers.len())
}

/// The descendants of each container of a list, list item after list item.
pub open spec fn descendants_of_all(containers: Seq<ContainerView>, ids: Seq<Seq<char>>) -> Seq<
    Seq<char>,
>
    decreases ids.len(),
{
    if ids.len() == 0 {
        Seq::empty()
    } else {
        descendants_of_all(containers, ids.drop_last()) + descendants_of(containers, ids.last())
    }
}

/// A scope widened to all that lies below it: the containers of the list,
/// then the descendants of each.
pub open spec fn expanded(containers: Seq<ContainerView>, ids: Seq<Seq<char>>) -> Seq<Seq<char>> {
    ids + descendants_of_all(containers, ids)
}

/// How many entries were written in the containers of a list, each
/// container counted as often as it is listed.
pub open spec fn entries_in_all(rows: Seq<EntryRow>, ids: Seq<Seq<char>>) -> nat
    decreases ids.len(),
{
    if ids.len() == 0 {
        0
    } else {
        entries_in_all(rows, ids.drop_last()) + entries_in(rows, ids.last())
    }
}

/// How many n-gram rows belong to the containers of a list, each container
/// counted as often as it is listed.
pub open spec fn ngram_rows_in_all(rows: Seq<NgramRow>, ids: Seq<Seq<char>>) -> nat
    decreases ids.len(),
{
    if ids.len() == 0 {
        0
    } else {
        ngram_rows_in_all(rows, ids.drop_last()) + ngram_rows_in(rows, ids.last())
    }
}

/// The entries of the first containers of a list are at most those of all.
pub proof fn lemma_entries_in_all_grows(rows: Seq<EntryRow>, ids: Seq<Seq<char>>, i: int)
    requires
        0 <= i <= ids.len(),
    ensures
        entries_in_all(rows, ids.take(i)) <= entries_in_all(rows, ids),
    decreases ids.len() - i,
{
    if i == ids.len() {
        assert(ids.take(i) =~= ids);
    } else {
        lemma_entries_in_all_grows(rows, ids, i + 1);
        assert(ids.take(i + 1).drop_last() =~= ids.take(i));
    }
}

/// The n-gram rows of the first containers of a list are at most those of
/// all.
pub proof fn lemma_ngram_rows_in_all_grows(rows: Seq<NgramRow>, ids: Seq<Seq<char>>, i: int)
    requires
        0 <= i <= ids.len(),
    ensures
        ngram_rows_in_all(rows, ids.take(i)) <= ngram_rows_in_all(rows, ids),
    decreases ids.len() - i,
{
    if i == ids.len() {
        assert(ids.take(i) =~= ids);
    } else {
        lemma_ngram_rows_in_all_grows(rows, ids, i + 1);
        assert(ids.take(i + 1).drop_last() =~= ids.take(i));
    }
}

/// A container without children has nothing below it: widened, it is the
/// scope that holds the container alone.
pub proof fn lemma_leaf_expands_to_itself(containers: Seq<ContainerView>, container_id: Seq<char>)
    requires
        children_of(containers, container_id).len() == 0,
    ensures
        descendants_of(containers, container_id) == Seq::<Seq<char>>::empty(),
        expanded(containers, seq![container_id]) == seq![container_id],
{
    let level = seq![container_id];
    let none = Seq::<Seq<char>>::empty();
    assert(level.drop_last() =~= none);
    assert(level.last() == container_id);
    assert(level_below(containers, none) == none);
    assert(level_below(containers, level) =~= children_of(containers, container_id));
    assert(level_below(containers, level) =~= none);
    assert(levels_below(containers, none, (containers.len() - 1) as nat) == none);
    assert(descendants_of(containers, container_id) =~= none);
    assert(descendants_of_all(containers, none) == none);
    assert(descendants_of_all(containers, level) =~= none);
    assert(expanded(containers, level) =~= level);
}

/// Whether `path` is a chain of rows below `start`: the first row is a child
/// of `start`, and each further row is a child of the row before it.
pub open spec fn is_chain_below(
    containers: Seq<ContainerView>,
    start: Seq<char>,
    path: Seq<int>,
) -> bool {
    &&& path.len() > 0
    &&& forall|j: int| 0 <= j < path.len() ==> 0 <= #[trigger] path[j] < containers.len()
    &&& containers[path[0]].container_parent_id == start
    &&& forall|j: int|
        0 < j < path.len() ==> containers[#[trigger] path[j]].container_parent_id
            == containers[path[j - 1]].container_id
}

/// Whether the containers form a forest: no chain of children comes back to
/// a row that it has passed.
pub open spec fn is_forest(containers: Seq<ContainerView>) -> bool {
    forall|start: Seq<char>, path: Seq<int>| #[trigger]
        is_chain_below(containers, start, path) ==> path.no_duplicates()
}

/// The level that lies `n` levels below a level.
pub open spec fn nth_level(containers: Seq<ContainerView>, level: Seq<Seq<char>>, n: nat) -> Seq<
    Seq<char>,
>
    decreases n,
{
    if n == 0 {
        level
    } else {
        nth_level(containers, level_below(containers, level), (n - 1) as nat)
    }
}

/// Each child of a container is the id of a row whose parent it is.
proof fn lemma_child_is_row(containers: Seq<ContainerView>, parent: Seq<char>, child: Seq<char>)
    requires
        children_of(containers, parent).contains(child),
    ensures
        exists|i: int|
            0 <= i < containers.len() && (#[trigger] containers[i]).container_id == child
                && containers[i].container_parent_id == parent,
    decreases containers.len(),
{
    if containers.len() > 0 {
        let init = containers.drop_last();
        let last = containers.last();
        if last.container_parent_id == parent && last.container_id == child {
            assert(containers[containers.len() - 1] == last);
        } else {
            let found = children_of(containers, parent);
            let at = choose|at: int| 0 <= at < found.len() && found[at] == child;
            if last.container_parent_id == parent {
                assert(found == children_of(init, parent).push(last.container_id));
                assert(at < found.len() - 1);
                assert(children_of(init, parent)[at] == child);
            }
            assert(children_of(init, parent).contains(child));
            lemma_child_is_row(init, parent, child);
            let i = choose|i: int|
                0 <= i < init.len() && (#[trigger] init[i]).container_id == child
                    && init[i].container_parent_id == parent;
            assert(containers[i] == init[i]);
        }
    }
}

/// The id of each row is a child of the row's parent.
proof fn lemma_row_is_child(containers: Seq<ContainerView>, i: int)
    requires
        0 <= i < containers.len(),
    ensures
        children_of(containers, containers[i].container_parent_id).contains(
            containers[i].container_id,
        ),
    decreases containers.len(),
{
    let parent = containers[i].container_parent_id;
    let init = containers.drop_last();
    let found = children_of(containers, parent);
    if i == containers.len() - 1 {
        assert(found[found.len() - 1] == containers[i].container_id);
    } else {
        lemma_row_is_child(init, i);
        assert(init[i] == containers[i]);
        let before = children_of(init, parent);
        let at = choose|at: int| 0 <= at < before.len() && before[at] == containers[i].container_id;
        assert(found[at] == containers[i].container_id);
    }
}

/// Each container of the level below a level is a child of a container of
/// the level.
proof fn lemma_below_has_parent(
    containers: Seq<ContainerView>,
    level: Seq<Seq<char>>,
    child: Seq<char>,
)
    requires
        level_below(containers, level).contains(child),
    ensures
        exists|p: int|
            0 <= p < level.len() && children_of(containers, #[trigger] level[p]).contains(child),
    decreases level.len(),
{
    if level.len() > 0 {
        let init = level.drop_last();
        let before = level_below(containers, init);
        let here = children_of(containers, level.last());
        let all = level_below(containers, level);
        let at = choose|at: int| 0 <= at < all.len() && all[at] == child;
        if at < before.len() {
            assert(before[at] == child);
            lemma_below_has_parent(containers, init, child);
            let p = choose|p: int|
                0 <= p < init.len() && children_of(containers, #[trigger] init[p]).contains(child);
            assert(level[p] == init[p]);
        } else {
            assert(here[at - before.len()] == child);
            assert(level[level.len() - 1] == level.last());
        }
    }
}

/// Each child of a container of a level is in the level below.
proof fn lemma_child_is_below(
    containers: Seq<ContainerView>,
    level: Seq<Seq<char>>,
    p: int,
    child: Seq<char>,
)
    requires
        0 <= p < level.len(),
        children_of(containers, level[p]).contains(child),
    ensures
        level_below(containers, level).contains(child),
    decreases level.len(),
{
    let init = level.drop_last();
    let before = level_below(containers, init);
    let here = children_of(containers, level.last());
    let all = level_below(containers, level);
    if p == level.len() - 1 {
        let at = choose|at: int| 0 <= at < here.len() && here[at] == child;
        assert(all[before.len() + at] == child);
    } else {
        assert(init[p] == level[p]);
        lemma_child_is_below(containers, init, p, child);
        let at = choose|at: int| 0 <= at < before.len() && before[at] == child;
        assert(all[at] == child);
    }
}

/// Each container that lies `n` levels below a level is the end of a chain
/// of `n` rows below a container of the level.
proof fn lemma_level_has_chain(
    containers: Seq<ContainerView>,
    level: Seq<Seq<char>>,
    n: nat,
    found: Seq<char>,
) -> (chain: (int, Seq<int>))
    requires
        n >= 1,
        nth_level(containers, level, n).contains(found),
    ensures
        0 <= chain.0 < level.len(),
        is_chain_below(containers, level[chain.0], chain.1),
        chain.1.len() == n,
        containers[chain.1.last()].container_id == found,
    decreases n,
{
    let below = level_below(containers, level);
    if n == 1 {
        assert(nth_level(containers, below, 0) == below);
        lemma_below_has_parent(containers, level, found);
        let p = choose|p: int|
            0 <= p < level.len() && children_of(containers, #[trigger] level[p]).contains(found);
        lemma_child_is_row(containers, level[p], found);
        let i = choose|i: int|
            0 <= i < containers.len() && (#[trigger] containers[i]).container_id == found
                && containers[i].container_parent_id == level[p];
        (p, seq![i])
    } else {
        let rest = lemma_level_has_chain(containers, below, (n - 1) as nat, found);
        let middle = below[rest.0];
        assert(below.contains(middle));
        lemma_below_has_parent(containers, level, middle);
        let p = choose|p: int|
            0 <= p < level.len() && children_of(containers, #[trigger] level[p]).contains(middle);
        lemma_child_is_row(containers, level[p], middle);
        let i = choose|i: int|
            0 <= i < containers.len() && (#[trigger] containers[i]).container_id == middle
                && containers[i].container_parent_id == level[p];
        let path = seq![i] + rest.1;
        assert forall|j: int| 0 <= j < path.len() implies 0 <= #[trigger] path[j]
            < containers.len() by {
            if j > 0 {
                assert(path[j] == rest.1[j - 1]);
            }
        }
        assert forall|j: int| 0 < j < path.len() implies containers[#[trigger] path[j]].container_parent_id
            == containers[path[j - 1]].container_id by {
            assert(path[j] == rest.1[j - 1]);
            if j > 1 {
                assert(path[j - 1] == rest.1[j - 2]);
            }
        }
        assert(path.last() == rest.1.last());
        (p, path)
    }
}

/// The end of each chain of `n` rows below a container of a level lies `n`
/// levels below the level.
proof fn lemma_chain_is_in_level(
    containers: Seq<ContainerView>,
    level: Seq<Seq<char>>,
    p: int,
    path: Seq<int>,
)
    requires
        0 <= p < level.len(),
        is_chain_below(containers, level[p], path),
    ensures
        nth_level(containers, level, path.len()).contains(containers[path.last()].container_id),
    decreases path.len(),
{
    let below = level_below(containers, level);
    let first = path[0];
    lemma_row_is_child(containers, first);
    lemma_child_is_below(containers, level, p, containers[first].container_id);
    if path.len() == 1 {
        assert(nth_level(containers, below, 0) == below);
    } else {
        let rest = path.skip(1);
        let q = choose|q: int| 0 <= q < below.len() && below[q] == containers[first].container_id;
        assert(is_chain_below(containers, below[q], rest)) by {
            assert forall|j: int| 0 <= j < rest.len() implies 0 <= #[trigger] rest[j]
                < containers.len() by {
                assert(rest[j] == path[j + 1]);
            }
            assert(rest[0] == path[1]);
            assert forall|j: int| 0 < j < rest.len() implies containers[#[trigger] rest[j]].container_parent_id
                == containers[rest[j - 1]].container_id by {
                assert(rest[j] == path[j + 1]);
                assert(rest[j - 1] == path[j]);
            }
        }
        lemma_chain_is_in_level(containers, below, q, rest);
        assert(rest.last() == path.last());
    }
}

/// Nothing lies below no container.
proof fn lemma_nothing_below_nothing(containers: Seq<ContainerView>, n: nat)
    ensures
        nth_level(containers, Seq::empty(), n) == Seq::<Seq<char>>::empty(),
    decreases n,
{
    if n > 0 {
        assert(level_below(containers, Seq::empty()) == Seq::<Seq<char>>::empty());
        lemma_nothing_below_nothing(containers, (n - 1) as nat);
    }
}

/// One more level of depth adds the level that lies there.
proof fn lemma_one_level_deeper(containers: Seq<ContainerView>, level: Seq<Seq<char>>, depth: nat)
    ensures
        levels_below(containers, level, depth + 1) == levels_below(containers, level, depth)
            + nth_level(containers, level, depth + 1),
    decreases depth,
{
    let below = level_below(containers, level);
    let none = Seq::<Seq<char>>::empty();
    if level.len() == 0 {
        lemma_nothing_below_nothing(containers, depth + 1);
        assert(none + none =~= none);
    } else if depth == 0 {
        assert(levels_below(containers, below, 0) == none);
        assert(nth_level(containers, below, 0) == below);
        assert(below + none =~= none + below);
    } else {
        lemma_one_level_deeper(containers, below, (depth - 1) as nat);
        assert(below + (levels_below(containers, below, (depth - 1) as nat) + nth_level(
            containers,
            below,
            depth,
        )) =~= (below + levels_below(containers, below, (depth - 1) as nat)) + nth_level(
            containers,
            below,
            depth,
        ));
    }
}

/// What lies at most `depth` levels below a level is what lies 1 to `depth`
/// levels below it.
proof fn lemma_levels_hold_each_level(
    containers: Seq<ContainerView>,
    level: Seq<Seq<char>>,
    depth: nat,
    found: Seq<char>,
)
    ensures
        levels_below(containers, level, depth).contains(found) <==> exists|n: nat|
            1 <= n <= depth && #[trigger] nth_level(containers, level, n).contains(found),
    decreases depth,
{
    if depth > 0 {
        let before = levels_below(containers, level, (depth - 1) as nat);
        let last = nth_level(containers, level, depth);
        let all = levels_below(containers, level, depth);
        lemma_one_level_deeper(containers, level, (depth - 1) as nat);
        lemma_levels_hold_each_level(containers, level, (depth - 1) as nat, found);
        assert(all == before + last);
        if all.contains(found) {
            let at = choose|at: int| 0 <= at < all.len() && all[at] == found;
            if at < before.len() {
                assert(before[at] == found);
                assert(before.contains(found));
                let n = choose|n: nat|
                    1 <= n <= depth - 1 && #[trigger] nth_level(containers, level, n).contains(
                        found,
                    );
                assert(1 <= n <= depth && nth_level(containers, level, n).contains(found));
            } else {
                assert(last[at - before.len()] == found);
                assert(last.contains(found));
            }
        }
        if exists|n: nat|
            1 <= n <= depth && #[trigger] nth_level(containers, level, n).contains(found) {
            let n = choose|n: nat|
                1 <= n <= depth && #[trigger] nth_level(containers, level, n).contains(found);
            if n == depth {
                let at = choose|at: int| 0 <= at < last.len() && last[at] == found;
                assert(all[before.len() + at] == found);
            } else {
                assert(1 <= n <= depth - 1);
                assert(before.contains(found));
                let at = choose|at: int| 0 <= at < before.len() && before[at] == found;
                assert(all[at] == found);
            }
        }
    }
}

/// A chain that passes no row twice has at most as many rows as the table.
proof fn lemma_chain_is_short(containers: Seq<ContainerView>, start: Seq<char>, path: Seq<int>)
    requires
        is_chain_below(containers, start, path),
        path.no_duplicates(),
    ensures
        path.len() <= containers.len(),
{
    let rows = vstd::set_lib::set_int_range(0, containers.len() as int);
    path.unique_seq_to_set();
    vstd::set_lib::lemma_int_range(0, containers.len() as int);
    assert(path.to_set().subset_of(rows)) by {
        assert forall|i: int| path.to_set().contains(i) implies rows.contains(i) by {
            let j = choose|j: int| 0 <= j < path.len() && path[j] == i;
            assert(0 <= path[j] < containers.len());
        }
    }
    vstd::set_lib::lemma_len_subset(path.to_set(), rows);
}

/// Whatever the search finds below a container is the end of a chain of
/// children that starts at the container.
pub proof fn lemma_descendants_are_below(
    containers: Seq<ContainerView>,
    container_id: Seq<char>,
    found: Seq<char>,
)
    requires
        descendants_of(containers, container_id).contains(found),
    ensures
        exists|path: Seq<int>| #[trigger]
            is_chain_below(containers, container_id, path) && containers[path.last()].container_id
                == found,
{
    let level = seq![container_id];
    lemma_levels_hold_each_level(containers, level, containers.len(), found);
    let n = choose|n: nat|
        1 <= n <= containers.len() && #[trigger] nth_level(containers, level, n).contains(found);
    let chain = lemma_level_has_chain(containers, level, n, found);
    assert(level[chain.0] == container_id);
    assert(is_chain_below(containers, container_id, chain.1));
}

/// Among the containers of a forest the search finds every descendant: the
/// end of every chain of children that starts at the container.
pub proof fn lemma_forest_descendants_are_found(
    containers: Seq<ContainerView>,
    container_id: Seq<char>,
    path: Seq<int>,
)
    requires
        is_forest(containers),
        is_chain_below(containers, container_id, path),
    ensures
        descendants_of(containers, container_id).contains(containers[path.last()].container_id),
{
    let level = seq![container_id];
    let found = containers[path.last()].container_id;
    assert(path.no_duplicates());
    lemma_chain_is_short(containers, container_id, path);
    assert(level[0] == container_id);
    lemma_chain_is_in_level(containers, level, 0, path);
    lemma_levels_hold_each_level(containers, level, containers.len(), found);
    assert(1 <= path.len() <= containers.len() && nth_level(
        containers,
        level,
        path.len(),
    ).contains(found));
}

/// Among the containers of a forest a deeper search finds nothing more.
pub proof fn lemma_forest_depth_suffices(
    containers: Seq<ContainerView>,
    container_id: Seq<char>,
    depth: nat,
)
    requires
        is_forest(containers),
        depth >= containers.len(),
    ensures
        levels_below(containers, seq![container_id], depth) == descendants_of(
            containers,
            container_id,
        ),
    decreases depth,
{
    if depth > containers.len() {
        let level = seq![container_id];
        lemma_forest_depth_suffices(containers, container_id, (depth - 1) as nat);
        lemma_one_level_deeper(containers, level, (depth - 1) as nat);
        let last = nth_level(containers, level, depth);
        if last.len() > 0 {
            assert(last.contains(last[0]));
            let chain = lemma_level_has_chain(containers, level, depth, last[0]);
            assert(level[chain.0] == container_id);
            assert(is_chain_below(containers, container_id, chain.1));
            assert(chain.1.no_duplicates());
            lemma_chain_is_short(containers, container_id, chain.1);
        }
        assert(descendants_of(containers, container_id) + last =~= descendants_of(
            containers,
            container_id,
        ));
    }
}

} // verus!
