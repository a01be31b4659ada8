//! Three-level page tables.
//!
//! A table is one page of 512 entries. An entry links to the next table, ends
//! the walk with a page, or maps nothing. A page table owns the pages of its
//! own tables; the upper half of the root may link to tables of the kernel.

use vstd::prelude::*;

use super::address::{
    table_index, PageSize, PhysAddr, PhysPageNum, VirtAddr, VirtPageNum, PPN_LIMIT, TABLE_ENTRIES,
    VPN_LIMIT,
};
use super::frame_allocator::{keeps_users, lemma_users_both, FrameTracker};
use super::phys::{
    blank_table, keeps_held, lemma_held_both, lemma_held_self, PhysMemory, Tables,
};
use super::pte::{PTEFlags, PageTableEntry};

verus! {

broadcast use {lemma_held_both, lemma_held_self};

/// First entry of the root that belongs to the kernel.
pub const KERNEL_ROOT_START: usize = 256;

/// A translation: the entry that maps a page, and the size of what it maps.
pub type Mapping = Option<(PageTableEntry, PageSize)>;

/// The page size of a leaf at a level.
pub open spec fn size_at(level: int) -> PageSize {
    if level == 0 {
        PageSize::Page1G
    } else if level == 1 {
        PageSize::Page2M
    } else {
        PageSize::Page4K
    }
}

/// At `level` the entry links to another table.
pub open spec fn links(entry: PageTableEntry, level: int) -> bool {
    entry.flags.v && !entry.is_leaf(level)
}

/// The table that entry `i` of the root links to.
pub open spec fn child(t: Tables, root: u64, i: int) -> Option<u64> {
    let entry = t[root][i];
    if links(entry, 0) {
        Some(entry.page.0)
    } else {
        None
    }
}

/// The table that entry `j` of the table below entry `i` of the root links to.
pub open spec fn grandchild(t: Tables, root: u64, i: int, j: int) -> Option<u64> {
    match child(t, root, i) {
        None => None,
        Some(p) => {
            let entry = t[p][j];
            if links(entry, 1) {
                Some(entry.page.0)
            } else {
                None
            }
        },
    }
}

/// The page holds a table.
pub open spec fn is_table(t: Tables, p: u64) -> bool {
    t.contains_key(p) && t[p].len() == 512
}

/// The links from `root` form a tree: no table is reached in two ways.
pub open spec fn is_tree(t: Tables, root: u64) -> bool {
    &&& is_table(t, root)
    &&& forall|i: int|
        0 <= i < 512 ==> ((#[trigger] child(t, root, i)) matches Some(p) ==> is_table(t, p) && p
            != root)
    &&& forall|i: int, k: int|
        0 <= i < 512 && 0 <= k < 512 && i != k && #[trigger] child(t, root, i) is Some
            ==> child(t, root, i) != #[trigger] child(t, root, k)
    &&& forall|i: int, j: int|
        0 <= i < 512 && 0 <= j < 512 ==> ((#[trigger] grandchild(t, root, i, j)) matches Some(p)
            ==> is_table(t, p) && p != root)
    &&& forall|i: int, j: int, k: int|
        0 <= i < 512 && 0 <= j < 512 && 0 <= k < 512 && #[trigger] grandchild(t, root, i, j) is Some
            ==> grandchild(t, root, i, j) != #[trigger] child(t, root, k)
    &&& forall|i: int, j: int, k: int, l: int|
        0 <= i < 512 && 0 <= j < 512 && 0 <= k < 512 && 0 <= l < 512 && (i != k || j != l)
            && #[trigger] grandchild(t, root, i, j) is Some ==> grandchild(t, root, i, j)
            != #[trigger] grandchild(t, root, k, l)
}

/// The walks from `root` use the table in page `p`.
pub open spec fn reaches(t: Tables, root: u64, p: u64) -> bool {
    ||| p == root
    ||| exists|i: int| 0 <= i < 512 && #[trigger] child(t, root, i) == Some(p)
    ||| exists|i: int, j: int|
        0 <= i < 512 && 0 <= j < 512 && #[trigger] grandchild(t, root, i, j) == Some(p)
}

/// From `t` to `n` only the tables of `root` changed, and those that it has new were no tables before.
pub open spec fn keeps_others(t: Tables, n: Tables, root: u64) -> bool {
    &&& forall|p: u64|
        #![trigger n.contains_key(p)]
        #![trigger n[p]]
        t.contains_key(p) ==> n.contains_key(p) && (!reaches(t, root, p) ==> n[p] == t[p])
    &&& forall|p: u64| #[trigger]
        reaches(n, root, p) ==> reaches(t, root, p) || !t.contains_key(p)
}

/// No table is used by the walks from both roots.
pub open spec fn disjoint(t: Tables, a: u64, b: u64) -> bool {
    forall|p: u64| #[trigger] reaches(t, a, p) ==> !reaches(t, b, p)
}

/// The table that the walk to `page` visits at `level`.
pub open spec fn visited(t: Tables, root: u64, page: int, level: int) -> Option<u64> {
    if level == 0 {
        Some(root)
    } else if level == 1 {
        child(t, root, table_index(page, 0))
    } else {
        grandchild(t, root, table_index(page, 0), table_index(page, 1))
    }
}

/// What the tables below `root` say of a page.
pub open spec fn walk(t: Tables, root: u64, page: int) -> Mapping {
    let e0 = t[root][table_index(page, 0)];
    if e0.is_leaf(0) {
        Some((e0, PageSize::Page1G))
    } else if !e0.flags.v {
        None
    } else {
        let e1 = t[e0.page.0][table_index(page, 1)];
        if e1.is_leaf(1) {
            Some((e1, PageSize::Page2M))
        } else if !e1.flags.v {
            None
        } else {
            let e2 = t[e1.page.0][table_index(page, 2)];
            if e2.flags.v {
                Some((e2, PageSize::Page4K))
            } else {
                None
            }
        }
    }
}

/// Pages `a` and `b` use the same entry at `level`.
pub open spec fn same_block(a: int, b: int, level: int) -> bool {
    a / size_at(level).pages() == b / size_at(level).pages()
}

/// The page number is one that the tables can translate.
pub open spec fn is_page(page: int) -> bool {
    0 <= page < VPN_LIMIT
}

/// A page's block is told by its entries down to the level of the block.
proof fn lemma_same_block(a: int, b: int)
    requires
        is_page(a),
        is_page(b),
    ensures
        same_block(a, b, 0) <==> table_index(a, 0) == table_index(b, 0),
        same_block(a, b, 1) <==> table_index(a, 0) == table_index(b, 0) && table_index(a, 1)
            == table_index(b, 1),
        same_block(a, b, 2) <==> table_index(a, 0) == table_index(b, 0) && table_index(a, 1)
            == table_index(b, 1) && table_index(a, 2) == table_index(b, 2),
        forall|l: int| 0 <= l < 3 ==> 0 <= #[trigger] table_index(a, l) < 512,
{
    assert(a / 512 / 512 == a / 262144);
    assert(b / 512 / 512 == b / 262144);
}

/// The tables after entry `index` of table `p` was written.
pub open spec fn written(t: Tables, p: u64, index: int, entry: PageTableEntry) -> Tables {
    t.insert(p, t[p].update(index, entry))
}

/// Writing an entry that links nowhere, where none did, changes the
/// translation of the pages that use the entry, and of no others.
#[verifier::spinoff_prover]
#[verifier::rlimit(60)]
proof fn lemma_write_leaf(t: Tables, root: u64, page: int, level: int, entry: PageTableEntry)
    requires
        is_tree(t, root),
        is_page(page),
        0 <= level < 3,
        visited(t, root, page, level) is Some,
        level < 2 ==> !links(entry, level),
        level < 2 ==> !links(
            t[visited(t, root, page, level)->Some_0][table_index(page, level)],
            level,
        ),
    ensures
        ({
            let p = visited(t, root, page, level)->Some_0;
            let n = written(t, p, table_index(page, level), entry);
            &&& is_tree(n, root)
            &&& forall|q: int|
                is_page(q) ==> #[trigger] walk(n, root, q) == if same_block(q, page, level) {
                    if entry.is_leaf(level) {
                        Some((entry, size_at(level)))
                    } else {
                        None
                    }
                } else {
                    walk(t, root, q)
                }
            &&& forall|q: int|
                is_page(q) ==> #[trigger] visited(n, root, q, level) == visited(t, root, q, level)
            &&& keeps_others(t, n, root)
        }),
{
    let p = visited(t, root, page, level)->Some_0;
    let index = table_index(page, level);
    let n = written(t, p, index, entry);
    lemma_same_block(page, page);
    assert forall|i: int| 0 <= i < 512 implies #[trigger] child(n, root, i) == child(
        t,
        root,
        i,
    ) by {
        if level == 1 {
            assert(child(t, root, table_index(page, 0)) == Some(p));
        } else if level == 2 {
            assert(grandchild(t, root, table_index(page, 0), table_index(page, 1)) == Some(p));
        }
    }
    assert forall|i: int, j: int| 0 <= i < 512 && 0 <= j < 512 implies #[trigger] grandchild(
        n,
        root,
        i,
        j,
    ) == grandchild(t, root, i, j) by {
        assert(child(n, root, i) == child(t, root, i));
        if level == 1 {
            assert(child(t, root, table_index(page, 0)) == Some(p));
        } else if level == 2 {
            assert(grandchild(t, root, table_index(page, 0), table_index(page, 1)) == Some(p));
            if let Some(c) = child(t, root, i) {
                assert(c != p);
            }
        }
    }
    assert forall|q: int| is_page(q) implies #[trigger] walk(n, root, q) == if same_block(
        q,
        page,
        level,
    ) {
        if entry.is_leaf(level) {
            Some((entry, size_at(level)))
        } else {
            None
        }
    } else {
        walk(t, root, q)
    } by {
        lemma_same_block(q, page);
        lemma_same_block(q, q);
        let i = table_index(q, 0);
        let j = table_index(q, 1);
        assert(child(n, root, i) == child(t, root, i));
        assert(grandchild(n, root, i, j) == grandchild(t, root, i, j));
        assert(child(t, root, table_index(page, 0)) == child(n, root, table_index(page, 0)));
        assert(grandchild(t, root, table_index(page, 0), table_index(page, 1)) == grandchild(
            n,
            root,
            table_index(page, 0),
            table_index(page, 1),
        ));
    }
    assert forall|q: int| is_page(q) implies #[trigger] visited(n, root, q, level) == visited(
        t,
        root,
        q,
        level,
    ) by {
        lemma_same_block(q, q);
        assert(child(n, root, table_index(q, 0)) == child(t, root, table_index(q, 0)));
        assert(grandchild(n, root, table_index(q, 0), table_index(q, 1)) == grandchild(
            t,
            root,
            table_index(q, 0),
            table_index(q, 1),
        ));
    }
    lemma_visited_reached(t, root, page, level);
    assert forall|x: u64| #[trigger] reaches(n, root, x) implies reaches(t, root, x) by {
        lemma_reached_again(t, n, root, x);
    }
}

/// A table that a walk visits is used by the root.
proof fn lemma_visited_reached(t: Tables, root: u64, page: int, level: int)
    requires
        is_page(page),
        0 <= level < 3,
        visited(t, root, page, level) is Some,
    ensures
        reaches(t, root, visited(t, root, page, level)->Some_0),
{
    lemma_same_block(page, page);
    let p = visited(t, root, page, level)->Some_0;
    if level == 1 {
        assert(child(t, root, table_index(page, 0)) == Some(p));
    } else if level == 2 {
        assert(grandchild(t, root, table_index(page, 0), table_index(page, 1)) == Some(p));
    }
}

/// Where the links are the same, the same tables are used.
proof fn lemma_reached_again(t: Tables, n: Tables, root: u64, x: u64)
    requires
        reaches(n, root, x),
        forall|i: int| 0 <= i < 512 ==> #[trigger] child(n, root, i) == child(t, root, i),
        forall|i: int, j: int|
            0 <= i < 512 && 0 <= j < 512 ==> #[trigger] grandchild(n, root, i, j) == grandchild(
                t,
                root,
                i,
                j,
            ),
    ensures
        reaches(t, root, x),
{
    if x != root {
        if exists|i: int| 0 <= i < 512 && #[trigger] child(n, root, i) == Some(x) {
            let i = choose|i: int| 0 <= i < 512 && #[trigger] child(n, root, i) == Some(x);
            assert(child(t, root, i) == Some(x));
        } else {
            let (i, j) = choose|i: int, j: int|
                0 <= i < 512 && 0 <= j < 512 && #[trigger] grandchild(n, root, i, j) == Some(x);
            assert(grandchild(t, root, i, j) == Some(x));
        }
    }
}

/// Linking a blank table in where nothing was mapped changes no translation.
#[verifier::spinoff_prover]
#[verifier::rlimit(60)]
proof fn lemma_write_link(t: Tables, root: u64, page: int, level: int, q: u64, entry: PageTableEntry)
    requires
        is_tree(t, root),
        is_page(page),
        0 <= level < 2,
        visited(t, root, page, level) is Some,
        !t[visited(t, root, page, level)->Some_0][table_index(page, level)].flags.v,
        !t[visited(t, root, page, level)->Some_0][table_index(page, level)].is_leaf(level),
        !t.contains_key(q),
        links(entry, level),
        entry.page.0 == q,
    ensures
        ({
            let p = visited(t, root, page, level)->Some_0;
            let n = written(t.insert(q, blank_table()), p, table_index(page, level), entry);
            &&& is_tree(n, root)
            &&& forall|v: int| is_page(v) ==> #[trigger] walk(n, root, v) == walk(t, root, v)
            &&& visited(n, root, page, level + 1) == Some(q)
            &&& level == 0 ==> grandchild(n, root, table_index(page, 0), table_index(page, 1))
                is None
            &&& keeps_others(t, n, root)
        }),
{
    let p = visited(t, root, page, level)->Some_0;
    let index = table_index(page, level);
    let n = written(t.insert(q, blank_table()), p, index, entry);
    lemma_same_block(page, page);
    let pi = table_index(page, 0);
    let pj = table_index(page, 1);
    assert forall|i: int| 0 <= i < 512 implies #[trigger] child(n, root, i) == if level == 0 && i
        == pi {
        Some(q)
    } else {
        child(t, root, i)
    } by {
        if level == 1 {
            assert(child(t, root, pi) == Some(p));
        }
    }
    assert forall|i: int, j: int| 0 <= i < 512 && 0 <= j < 512 implies #[trigger] grandchild(
        n,
        root,
        i,
        j,
    ) == if level == 1 && i == pi && j == pj {
        Some(q)
    } else {
        grandchild(t, root, i, j)
    } by {
        assert(child(n, root, i) == if level == 0 && i == pi {
            Some(q)
        } else {
            child(t, root, i)
        });
        if let Some(c) = child(t, root, i) {
            assert(is_table(t, c));
        }
        if level == 1 {
            assert(child(t, root, pi) == Some(p));
        }
    }
    assert forall|i: int, j: int| 0 <= i < 512 && 0 <= j < 512 implies ((#[trigger] grandchild(
        n,
        root,
        i,
        j,
    )) matches Some(x) ==> is_table(n, x) && x != root) by {
        if let Some(x) = grandchild(t, root, i, j) {
            assert(is_table(t, x));
        }
    }
    assert forall|i: int| 0 <= i < 512 implies ((#[trigger] child(n, root, i)) matches Some(x)
        ==> is_table(n, x) && x != root) by {
        if let Some(x) = child(t, root, i) {
            assert(is_table(t, x));
        }
    }
    assert forall|v: int| is_page(v) implies #[trigger] walk(n, root, v) == walk(t, root, v) by {
        lemma_same_block(v, page);
        lemma_same_block(v, v);
        let i = table_index(v, 0);
        let j = table_index(v, 1);
        assert(child(n, root, i) == if level == 0 && i == pi {
            Some(q)
        } else {
            child(t, root, i)
        });
        assert(grandchild(n, root, i, j) == if level == 1 && i == pi && j == pj {
            Some(q)
        } else {
            grandchild(t, root, i, j)
        });
        if let Some(c) = child(t, root, i) {
            assert(is_table(t, c));
        }
        if let Some(c) = grandchild(t, root, i, j) {
            assert(is_table(t, c));
        }
        if level == 1 {
            assert(child(t, root, pi) == Some(p));
        }
    }
    lemma_visited_reached(t, root, page, level);
    assert forall|x: u64| #[trigger] reaches(n, root, x) implies reaches(t, root, x) || x == q by {
        if x != root {
            if exists|i: int| 0 <= i < 512 && #[trigger] child(n, root, i) == Some(x) {
                let i = choose|i: int| 0 <= i < 512 && #[trigger] child(n, root, i) == Some(x);
                assert(child(t, root, i) == Some(x) || x == q);
            } else {
                let (i, j) = choose|i: int, j: int|
                    0 <= i < 512 && 0 <= j < 512 && #[trigger] grandchild(n, root, i, j) == Some(x);
                assert(grandchild(t, root, i, j) == Some(x) || x == q);
            }
        }
    }
}

/// Two changes of the tables of one root are one.
pub broadcast proof fn lemma_keeps_both(t: Tables, m: Tables, n: Tables, root: u64)
    requires
        #[trigger] keeps_others(t, m, root),
        #[trigger] keeps_others(m, n, root),
    ensures
        keeps_others(t, n, root),
{
    assert forall|p: u64| t.contains_key(p) implies #[trigger] n.contains_key(p) && (!reaches(
        t,
        root,
        p,
    ) ==> n[p] == t[p]) by {
        assert(m.contains_key(p));
        if !reaches(t, root, p) {
            assert(!reaches(m, root, p));
        }
        assert(n.contains_key(p));
    }
    assert forall|p: u64| #[trigger] reaches(n, root, p) implies reaches(t, root, p)
        || !t.contains_key(p) by {
        if t.contains_key(p) && !reaches(t, root, p) {
            assert(m.contains_key(p));
            assert(reaches(m, root, p));
        }
    }
}

/// Tables that are the same say the same.
pub proof fn lemma_same_tables(t: Tables, n: Tables, other: u64)
    requires
        is_tree(t, other),
        forall|p: u64|
            reaches(t, other, p) ==> #[trigger] n.contains_key(p) && n[p] == t[p],
    ensures
        is_tree(n, other),
        forall|q: int| is_page(q) ==> #[trigger] walk(n, other, q) == walk(t, other, q),
        forall|p: u64| #[trigger] reaches(n, other, p) ==> reaches(t, other, p),
{
    assert(reaches(t, other, other));
    assert(n.contains_key(other));
    assert forall|i: int| 0 <= i < 512 implies #[trigger] child(n, other, i) == child(
        t,
        other,
        i,
    ) by {}
    assert forall|i: int, j: int| 0 <= i < 512 && 0 <= j < 512 implies #[trigger] grandchild(
        n,
        other,
        i,
        j,
    ) == grandchild(t, other, i, j) by {
        assert(child(n, other, i) == child(t, other, i));
        if let Some(c) = child(t, other, i) {
            assert(reaches(t, other, c));
            assert(n.contains_key(c));
        }
    }
    assert forall|i: int| 0 <= i < 512 implies ((#[trigger] child(n, other, i)) matches Some(x)
        ==> is_table(n, x) && x != other) by {
        if let Some(c) = child(t, other, i) {
            assert(reaches(t, other, c));
            assert(is_table(t, c));
            assert(n.contains_key(c));
        }
    }
    assert forall|i: int, j: int| 0 <= i < 512 && 0 <= j < 512 implies ((#[trigger] grandchild(
        n,
        other,
        i,
        j,
    )) matches Some(x) ==> is_table(n, x) && x != other) by {
        if let Some(c) = grandchild(t, other, i, j) {
            assert(reaches(t, other, c));
            assert(is_table(t, c));
            assert(n.contains_key(c));
        }
    }
    assert forall|q: int| is_page(q) implies #[trigger] walk(n, other, q) == walk(
        t,
        other,
        q,
    ) by {
        lemma_same_block(q, q);
        let i = table_index(q, 0);
        let j = table_index(q, 1);
        assert(child(n, other, i) == child(t, other, i));
        assert(grandchild(n, other, i, j) == grandchild(t, other, i, j));
        if let Some(c) = child(t, other, i) {
            assert(reaches(t, other, c));
            assert(n.contains_key(c));
        }
        if let Some(c) = grandchild(t, other, i, j) {
            assert(reaches(t, other, c));
            assert(n.contains_key(c));
        }
    }
    assert forall|p: u64| #[trigger] reaches(n, other, p) implies reaches(t, other, p) by {
        lemma_reached_again(t, n, other, p);
    }
}

/// Tables that did not change keep what they say: a change of the tables of
/// one root leaves every translation of another root, whose tables are apart, as it was.
pub proof fn law_others_translate_alike(t: Tables, n: Tables, root: u64, other: u64)
    requires
        is_tree(t, other),
        disjoint(t, root, other),
        keeps_others(t, n, root),
    ensures
        is_tree(n, other),
        forall|q: int| is_page(q) ==> #[trigger] walk(n, other, q) == walk(t, other, q),
        disjoint(n, root, other),
        forall|p: u64| #[trigger] reaches(n, other, p) ==> reaches(t, other, p),
{
    assert forall|p: u64| reaches(t, other, p) implies #[trigger] n.contains_key(p) && n[p]
        == t[p] by {
        if reaches(t, root, p) {
            assert(!reaches(t, other, p));
        }
        lemma_reached_is_table(t, other, p);
        assert(n.contains_key(p));
    }
    lemma_same_tables(t, n, other);
    assert forall|p: u64| #[trigger] reaches(n, root, p) implies !reaches(n, other, p) by {
        if reaches(n, other, p) {
            assert(reaches(t, other, p));
            lemma_reached_is_table(t, other, p);
            assert(reaches(t, root, p));
        }
    }
}

/// A new blank table leaves the tables of a root as they are, and reaches nothing but itself.
pub proof fn lemma_table_added(t: Tables, added: u64, root: u64)
    requires
        is_tree(t, root),
        !t.contains_key(added),
    ensures
        ({
            let n = t.insert(added, blank_table());
            &&& is_tree(n, root)
            &&& forall|q: int| is_page(q) ==> #[trigger] walk(n, root, q) == walk(t, root, q)
            &&& keeps_others(t, n, root)
            &&& disjoint(n, root, added)
            &&& forall|p: u64| #[trigger] reaches(n, added, p) ==> p == added
        }),
{
    let n = t.insert(added, blank_table());
    assert forall|i: int| 0 <= i < 512 implies #[trigger] child(n, root, i) == child(
        t,
        root,
        i,
    ) by {}
    assert forall|i: int, j: int| 0 <= i < 512 && 0 <= j < 512 implies #[trigger] grandchild(
        n,
        root,
        i,
        j,
    ) == grandchild(t, root, i, j) by {
        assert(child(n, root, i) == child(t, root, i));
        if let Some(c) = child(t, root, i) {
            assert(is_table(t, c));
        }
    }
    assert forall|i: int| 0 <= i < 512 implies ((#[trigger] child(n, root, i)) matches Some(x)
        ==> is_table(n, x) && x != root) by {
        if let Some(c) = child(t, root, i) {
            assert(is_table(t, c));
        }
    }
    assert forall|i: int, j: int| 0 <= i < 512 && 0 <= j < 512 implies ((#[trigger] grandchild(
        n,
        root,
        i,
        j,
    )) matches Some(x) ==> is_table(n, x) && x != root) by {
        if let Some(c) = grandchild(t, root, i, j) {
            assert(is_table(t, c));
        }
    }
    assert forall|q: int| is_page(q) implies #[trigger] walk(n, root, q) == walk(t, root, q) by {
        lemma_same_block(q, q);
        let i = table_index(q, 0);
        let j = table_index(q, 1);
        assert(child(n, root, i) == child(t, root, i));
        assert(grandchild(n, root, i, j) == grandchild(t, root, i, j));
        if let Some(c) = child(t, root, i) {
            assert(is_table(t, c));
        }
        if let Some(c) = grandchild(t, root, i, j) {
            assert(is_table(t, c));
        }
    }
    assert forall|p: u64| #[trigger] reaches(n, root, p) implies reaches(t, root, p) by {
        lemma_reached_again(t, n, root, p);
    }
    assert forall|i: int| 0 <= i < 512 implies #[trigger] child(n, added, i) is None by {}
    assert forall|i: int, j: int| 0 <= i < 512 && 0 <= j < 512 implies #[trigger] grandchild(
        n,
        added,
        i,
        j,
    ) is None by {
        assert(child(n, added, i) is None);
    }
    assert forall|p: u64| #[trigger] reaches(n, root, p) implies !reaches(n, added, p) by {
        assert(reaches(t, root, p));
        lemma_reached_is_table(t, root, p);
    }
}

/// What the walks from the root of a tree use are tables.
pub proof fn lemma_reached_is_table(t: Tables, root: u64, p: u64)
    requires
        is_tree(t, root),
        reaches(t, root, p),
    ensures
        is_table(t, p),
{
    if p != root {
        if exists|i: int| 0 <= i < 512 && #[trigger] child(t, root, i) == Some(p) {
            let i = choose|i: int| 0 <= i < 512 && #[trigger] child(t, root, i) == Some(p);
            assert(child(t, root, i) == Some(p));
        } else {
            let (i, j) = choose|i: int, j: int|
                0 <= i < 512 && 0 <= j < 512 && #[trigger] grandchild(t, root, i, j) == Some(p);
            assert(grandchild(t, root, i, j) == Some(p));
        }
    }
}

/// A page of the block of `page`, of the middle size, is mapped.
pub open spec fn block_used(t: Tables, root: u64, page: int) -> bool {
    exists|q: int| is_page(q) && same_block(q, page, 1) && (#[trigger] walk(t, root, q)) is Some
}

/// No table is idle: where the entry of a block is in use, a page of the block is mapped.
pub open spec fn compact(t: Tables, root: u64) -> bool {
    forall|p: int|
        is_page(p) && #[trigger] occupied(t, root, p, 1) ==> block_used(t, root, p)
}

/// A new link changes the use of the entries of no block but that of the page.
proof fn lemma_link_occupies(
    t: Tables,
    root: u64,
    page: int,
    level: int,
    q: u64,
    entry: PageTableEntry,
)
    requires
        is_tree(t, root),
        is_page(page),
        0 <= level < 2,
        visited(t, root, page, level) is Some,
        !t[visited(t, root, page, level)->Some_0][table_index(page, level)].flags.v,
        !t.contains_key(q),
        links(entry, level),
        entry.page.0 == q,
    ensures
        ({
            let p = visited(t, root, page, level)->Some_0;
            let n = written(t.insert(q, blank_table()), p, table_index(page, level), entry);
            forall|v: int|
                is_page(v) && !same_block(v, page, 1) ==> #[trigger] occupied(n, root, v, 1)
                    == occupied(t, root, v, 1)
        }),
{
    let p = visited(t, root, page, level)->Some_0;
    let index = table_index(page, level);
    let n = written(t.insert(q, blank_table()), p, index, entry);
    lemma_same_block(page, page);
    assert forall|v: int| is_page(v) && !same_block(v, page, 1) implies #[trigger] occupied(
        n,
        root,
        v,
        1,
    ) == occupied(t, root, v, 1) by {
        lemma_same_block(v, page);
        let i = table_index(v, 0);
        if let Some(c) = child(t, root, i) {
            assert(is_table(t, c) && c != root);
        }
    }
}

/// A new leaf changes the use of the entries of no block but that of the page.
proof fn lemma_leaf_occupies(t: Tables, root: u64, page: int, level: int, entry: PageTableEntry)
    requires
        is_tree(t, root),
        is_page(page),
        0 <= level < 3,
        visited(t, root, page, level) is Some,
        level < 2 ==> !links(entry, level),
        level < 2 ==> !links(
            t[visited(t, root, page, level)->Some_0][table_index(page, level)],
            level,
        ),
    ensures
        ({
            let p = visited(t, root, page, level)->Some_0;
            let n = written(t, p, table_index(page, level), entry);
            forall|v: int|
                is_page(v) && !same_block(v, page, 1) ==> #[trigger] occupied(n, root, v, 1)
                    == occupied(t, root, v, 1)
        }),
{
    let p = visited(t, root, page, level)->Some_0;
    let index = table_index(page, level);
    let n = written(t, p, index, entry);
    lemma_same_block(page, page);
    let pi = table_index(page, 0);
    let pj = table_index(page, 1);
    assert forall|v: int| is_page(v) && !same_block(v, page, 1) implies #[trigger] occupied(
        n,
        root,
        v,
        1,
    ) == occupied(t, root, v, 1) by {
        lemma_same_block(v, page);
        let i = table_index(v, 0);
        if let Some(c) = child(t, root, i) {
            assert(is_table(t, c) && c != root);
            if level == 2 {
                assert(grandchild(t, root, pi, pj) != child(t, root, i));
            }
        }
    }
}

/// Why a page could not be mapped.
#[derive(Clone, Copy, Debug, PartialEq, Eq, Structural)]
pub enum MapError {
    /// A table was missing and no frame was left for it.
    OutOfFrames,
    /// A larger page maps the page.
    Covered,
    /// The entry is in use.
    Occupied,
}

/// A larger page than that of `level` maps `page`.
pub open spec fn covered(t: Tables, root: u64, page: int, level: int) -> bool {
    ||| level >= 1 && t[root][table_index(page, 0)].is_leaf(0)
    ||| level >= 2 && child(t, root, table_index(page, 0)) is Some && t[child(
        t,
        root,
        table_index(page, 0),
    )->Some_0][table_index(page, 1)].is_leaf(1)
}

/// Tables that are missing on the way to the entry of `page` at `level`.
pub open spec fn missing(t: Tables, root: u64, page: int, level: int) -> int {
    if level == 0 {
        0
    } else if child(t, root, table_index(page, 0)) is None {
        level
    } else if level == 1 {
        0
    } else if grandchild(t, root, table_index(page, 0), table_index(page, 1)) is None {
        1
    } else {
        0
    }
}

/// The entry of `page` at `level` is valid.
pub open spec fn occupied(t: Tables, root: u64, page: int, level: int) -> bool {
    visited(t, root, page, level) is Some && t[visited(t, root, page, level)->Some_0][table_index(
        page,
        level,
    )].flags.v
}

/// A page table.
pub struct PageTable {
    root_ppn: PhysPageNum,
    frames: Vec<FrameTracker>,
}

impl PageTable {
    /// The page of the root.
    pub closed spec fn root(&self) -> u64 {
        self.root_ppn.0
    }

    /// The pages of the table's own tables.
    pub closed spec fn owned(&self) -> Seq<FrameTracker> {
        self.frames@
    }

    /// The table's links form a tree in memory.
    pub open spec fn wf(&self, memory: &PhysMemory) -> bool {
        &&& memory.wf()
        &&& is_tree(memory.tables(), self.root())
        &&& self.root() < PPN_LIMIT
    }

    /// What the table says of a page.
    pub open spec fn at(&self, memory: &PhysMemory, page: int) -> Mapping {
        walk(memory.tables(), self.root(), page)
    }

    /// The translations of all pages are the same.
    pub open spec fn same_pages(
        &self,
        memory: &PhysMemory,
        before: &PageTable,
        memory_before: &PhysMemory,
    ) -> bool {
        forall|q: int|
            is_page(q) ==> #[trigger] self.at(memory, q) == before.at(memory_before, q)
    }

    /// Makes a page table that maps nothing; `None` without a frame for the root.
    pub fn new(memory: &mut PhysMemory) -> (table: Option<Self>)
        requires
            old(memory).wf(),
        ensures
            final(memory).wf(),
            match old(memory).frames().free.take(PageSize::Page4K) {
                None => table is None && final(memory).tables() == old(memory).tables() && final(memory).frames() == old(memory).frames(),
                Some((start, rest)) => {
                    &&& table is Some
                    &&& table->Some_0.wf(final(memory))
                    &&& table->Some_0.root() == start
                    &&& forall|q: int|
                        is_page(q) ==> #[trigger] table->Some_0.at(final(memory), q) is None
                    &&& compact(final(memory).tables(), start as u64)
                    &&& table->Some_0.owned() == seq![
                        FrameTracker {
                            ppn: PhysPageNum(start as u64),
                            page_size: PageSize::Page4K,
                        },
                    ]
                    &&& final(memory).tables() == old(memory).tables().insert(
                        start as u64,
                        blank_table(),
                    )
                    &&& !old(memory).tables().contains_key(start as u64)
                    &&& final(memory).frames().free == rest
                    &&& final(memory).frames().users == old(memory).frames().users.insert(
                        start as u64,
                        1,
                    )
                },
            },
            keeps_held(old(memory), final(memory)),
    {
        match memory.new_table() {
            None => None,
            Some(frame) => {
                let mut frames: Vec<FrameTracker> = Vec::new();
                frames.push(frame);
                let table = PageTable { root_ppn: frame.ppn, frames };
                proof {
                    let t = memory.tables();
                    let root = frame.ppn.0;
                    assert(t[root] == blank_table());
                    assert forall|i: int| 0 <= i < 512 implies #[trigger] child(t, root, i)
                        is None by {}
                    assert forall|i: int, j: int| 0 <= i < 512 && 0 <= j < 512 implies
                        #[trigger] grandchild(t, root, i, j) is None by {
                        assert(child(t, root, i) is None);
                    }
                    assert forall|q: int| is_page(q) implies #[trigger] table.at(memory, q)
                        is None by {
                        lemma_same_block(q, q);
                    }
                    assert forall|q: int| is_page(q) implies !#[trigger] occupied(t, root, q, 1) by {
                        lemma_same_block(q, q);
                        assert(child(t, root, table_index(q, 0)) is None);
                    }
                    assert(table.frames@ =~= seq![frame]);
                }
                Some(table)
            },
        }
    }

    /// Goes from an entry of the table at `level` to the table below, which is made where it is missing.
    fn descend(
        &mut self,
        memory: &mut PhysMemory,
        page: VirtPageNum,
        at: PhysPageNum,
        index: usize,
        level: usize,
    ) -> (next: Result<PhysPageNum, MapError>)
        requires
            old(self).wf(old(memory)),
            is_page(page.0 as int),
            level < 2,
            visited(old(memory).tables(), old(self).root(), page.0 as int, level as int) == Some(
                at.0,
            ),
            index == table_index(page.0 as int, level as int),
        ensures
            final(self).wf(final(memory)),
            final(self).root() == old(self).root(),
            keeps_others(old(memory).tables(), final(memory).tables(), old(self).root()),
            keeps_held(old(memory), final(memory)),
            keeps_users(old(memory).frames(), final(memory).frames()),
            final(self).same_pages(final(memory), old(self), old(memory)),
            forall|q: int|
                is_page(q) && !same_block(q, page.0 as int, 1) ==> #[trigger] occupied(
                    final(memory).tables(),
                    old(self).root(),
                    q,
                    1,
                ) == occupied(old(memory).tables(), old(self).root(), q, 1),
            ({
                let t = old(memory).tables();
                let n = final(memory).tables();
                let root = old(self).root();
                let entry = t[at.0][index as int];
                match next {
                    Err(e) => {
                        &&& n == t
                        &&& final(memory).frames() == old(memory).frames()
                        &&& final(self).owned() == old(self).owned()
                        &&& e == if entry.is_leaf(level as int) {
                            MapError::Covered
                        } else {
                            MapError::OutOfFrames
                        }
                        &&& !entry.is_leaf(level as int) ==> !entry.flags.v && old(memory).frames().free.count() == 0
                    },
                    Ok(p) => {
                        &&& !entry.is_leaf(level as int)
                        &&& visited(n, root, page.0 as int, level + 1) == Some(p.0)
                        &&& entry.flags.v ==> n == t && final(memory).frames() == old(memory).frames() && final(self).owned() == old(self).owned()
                        &&& !entry.flags.v ==> final(memory).frames().free.count() == old(memory).frames().free.count() - 1 && (level == 0 ==> grandchild(
                            n,
                            root,
                            table_index(page.0 as int, 0),
                            table_index(page.0 as int, 1),
                        ) is None) && final(self).owned() == old(self).owned().push(
                            FrameTracker { ppn: p, page_size: PageSize::Page4K },
                        ) && n[p.0] == blank_table()
                    },
                }
            }),
    {
        let ghost t = memory.tables();
        let ghost root = self.root();
        proof {
            lemma_same_block(page.0 as int, page.0 as int);
            memory.lemma_wf();
        }
        let entry = memory.read(at, index);
        let leaf: bool = entry.readable() || entry.writable() || entry.executable();
        if leaf {
            return Err(MapError::Covered);
        }
        if entry.is_valid() {
            return Ok(entry.ppn());
        }
        let ghost free = memory.frames().free;
        match memory.new_table() {
            None => Err(MapError::OutOfFrames),
            Some(frame) => {
                let mut flags = PTEFlags::empty();
                flags.v = true;
                let link = PageTableEntry::new(frame.ppn, flags);
                let ghost mid = memory.tables();
                memory.write(at, index, link);
                self.frames.push(frame);
                proof {
                    lemma_write_link(t, root, page.0 as int, level as int, frame.ppn.0, link);
                    lemma_link_occupies(t, root, page.0 as int, level as int, frame.ppn.0, link);
                    super::frame_allocator::law_take_conserves(free, PageSize::Page4K, 0);
                    assert forall|p: u64|
                        #![trigger memory.frames().count(p)]
                        (old(memory).frames().free.times_free(p as int) == 0
                            ==> memory.frames().count(p) == old(memory).frames().count(p)
                            && memory.frames().free.times_free(p as int) == 0) && (
                        memory.frames().count(p) == old(memory).frames().count(p)
                            || memory.frames().count(p) == 1) by {
                        super::frame_allocator::law_take_conserves(
                            free,
                            PageSize::Page4K,
                            p as int,
                        );
                    }
                    assert(memory.tables() =~= written(
                        t.insert(frame.ppn.0, blank_table()),
                        at.0,
                        index as int,
                        link,
                    ));
                    assert forall|q: int| is_page(q) implies #[trigger] self.at(memory, q) == old(self).at(old(memory), q) by {
                        assert(walk(memory.tables(), root, q) == walk(t, root, q));
                    }
                }
                Ok(frame.ppn)
            },
        }
    }

    /// Finds the entry of `page` at the level of `page_size`, making the tables on the way.
    fn find_pte_create(
        &mut self,
        memory: &mut PhysMemory,
        page: VirtPageNum,
        page_size: PageSize,
    ) -> (slot: Result<(PhysPageNum, usize), MapError>)
        requires
            old(self).wf(old(memory)),
            is_page(page.0 as int),
        ensures
            final(self).wf(final(memory)),
            final(self).root() == old(self).root(),
            keeps_others(old(memory).tables(), final(memory).tables(), old(self).root()),
            keeps_held(old(memory), final(memory)),
            keeps_users(old(memory).frames(), final(memory).frames()),
            final(self).same_pages(final(memory), old(self), old(memory)),
            forall|q: int|
                is_page(q) && !same_block(q, page.0 as int, 1) ==> #[trigger] occupied(
                    final(memory).tables(),
                    old(self).root(),
                    q,
                    1,
                ) == occupied(old(memory).tables(), old(self).root(), q, 1),
            ({
                let t = old(memory).tables();
                let n = final(memory).tables();
                let root = old(self).root();
                let level = page_size.level();
                let need = missing(t, root, page.0 as int, level);
                let count = old(memory).frames().free.count();
                match slot {
                    Err(MapError::Covered) => covered(t, root, page.0 as int, level) && n == t
                        && final(memory).frames() == old(memory).frames(),
                    Err(MapError::OutOfFrames) => !covered(t, root, page.0 as int, level) && need
                        > count && final(memory).frames().free.count() == 0,
                    Err(MapError::Occupied) => false,
                    Ok((p, index)) => {
                        &&& !covered(t, root, page.0 as int, level)
                        &&& need <= count
                        &&& final(memory).frames().free.count() == count - need
                        &&& visited(n, root, page.0 as int, level) == Some(p.0)
                        &&& index == table_index(page.0 as int, level)
                        &&& n[p.0][index as int].flags.v == occupied(
                            t,
                            root,
                            page.0 as int,
                            level,
                        )
                        &&& need == 0 ==> n == t && final(memory).frames() == old(memory).frames() && final(self).owned() == old(self).owned()
                        &&& need > 0 ==> n[p.0] == blank_table()
                        &&& final(self).owned().len() == old(self).owned().len() + need
                        &&& final(self).owned().take(old(self).owned().len() as int) == old(self).owned()
                    },
                }
            }),
    {
        let idx = page.indexes();
        let level: usize = page_size.walk_level();
        let mut at: PhysPageNum = self.root_ppn;
        let ghost t = memory.tables();
        let ghost root = self.root();
        proof {
            lemma_same_block(page.0 as int, page.0 as int);
            memory.lemma_wf();
            assert(old(self).owned().take(old(self).owned().len() as int) =~= old(self).owned());
        }
        if level >= 1 {
            match self.descend(memory, page, at, idx[0], 0) {
                Err(e) => {
                    return Err(e);
                },
                Ok(next) => {
                    at = next;
                },
            }
            proof {
                assert(self.owned().take(old(self).owned().len() as int) =~= old(self).owned());
                memory.lemma_wf();
            }
        }
        if level >= 2 {
            let ghost mid = memory.tables();
            let ghost frames = memory.frames();
            match self.descend(memory, page, at, idx[1], 1) {
                Err(e) => {
                    proof {
                        lemma_users_both(old(memory).frames(), frames, memory.frames());
                    }
                    return Err(e);
                },
                Ok(next) => {
                    at = next;
                },
            }
            proof {
                lemma_keeps_both(t, mid, memory.tables(), root);
                lemma_users_both(old(memory).frames(), frames, memory.frames());
                assert(self.owned().take(old(self).owned().len() as int) =~= old(self).owned());
            }
        }
        proof {
            memory.lemma_wf();
        }
        Ok((at, idx[level]))
    }

    /// Finds the entry that ends the walk to a page.
    fn find_slot(&self, memory: &PhysMemory, page: VirtPageNum) -> (slot: Option<
        (PhysPageNum, usize, PageSize),
    >)
        requires
            self.wf(memory),
            is_page(page.0 as int),
        ensures
            match slot {
                None => self.at(memory, page.0 as int) is None,
                Some((p, index, size)) => {
                    let level = size.level();
                    &&& visited(memory.tables(), self.root(), page.0 as int, level) == Some(p.0)
                    &&& index == table_index(page.0 as int, level)
                    &&& self.at(memory, page.0 as int) == Some(
                        (memory.tables()[p.0][index as int], size),
                    )
                    &&& memory.tables()[p.0][index as int].is_leaf(level)
                    &&& memory.tables().contains_key(p.0)
                },
            },
    {
        let idx = page.indexes();
        proof {
            lemma_same_block(page.0 as int, page.0 as int);
            let t = memory.tables();
            let i = table_index(page.0 as int, 0);
            let j = table_index(page.0 as int, 1);
        }
        let root = self.root_ppn;
        let e0 = memory.read(root, idx[0]);
        if e0.readable() || e0.writable() || e0.executable() {
            return Some((root, idx[0], PageSize::Page1G));
        }
        if !e0.is_valid() {
            return None;
        }
        let mid = e0.ppn();
        let e1 = memory.read(mid, idx[1]);
        if e1.readable() || e1.writable() || e1.executable() {
            return Some((mid, idx[1], PageSize::Page2M));
        }
        if !e1.is_valid() {
            return None;
        }
        let low = e1.ppn();
        let e2 = memory.read(low, idx[2]);
        if e2.is_valid() {
            Some((low, idx[2], PageSize::Page4K))
        } else {
            None
        }
    }

    /// Finds the entry that maps a page, and the size of what it maps.
    pub fn find_pte(&self, memory: &PhysMemory, page: VirtPageNum) -> (mapping: Mapping)
        requires
            self.wf(memory),
            is_page(page.0 as int),
        ensures
            mapping == self.at(memory, page.0 as int),
    {
        match self.find_slot(memory, page) {
            None => None,
            Some((p, index, size)) => Some((memory.read(p, index), size)),
        }
    }

    /// Maps a page, or says why not.
    ///
    /// An error leaves every translation as it was.
    pub fn map(
        &mut self,
        memory: &mut PhysMemory,
        page: VirtPageNum,
        ppn: PhysPageNum,
        flags: PTEFlags,
        page_size: PageSize,
    ) -> (done: Result<(), MapError>)
        requires
            old(self).wf(old(memory)),
            is_page(page.0 as int),
            page_size != PageSize::Page4K ==> flags.r || flags.w || flags.x,
        ensures
            page_mapped(old(self), old(memory), final(self), final(memory), page, ppn, flags, page_size, done),
    {
        match self.find_pte_create(memory, page, page_size) {
            Err(e) => Err(e),
            Ok((p, index)) => {
                proof {
                    memory.lemma_wf();
                    lemma_same_block(page.0 as int, page.0 as int);
                    let i = table_index(page.0 as int, 0);
                    let j = table_index(page.0 as int, 1);
                }
                if memory.read(p, index).is_valid() {
                    return Err(MapError::Occupied);
                }
                let ghost created = *memory;
                let ghost mid = memory.tables();
                let entry = PageTableEntry::new(ppn, flags.install());
                memory.write(p, index, entry);
                proof {
                    lemma_write_leaf(mid, self.root(), page.0 as int, page_size.level(), entry);
                    lemma_leaf_occupies(mid, self.root(), page.0 as int, page_size.level(), entry);
                    lemma_keeps_both(old(memory).tables(), mid, memory.tables(), self.root());
                    assert forall|q: int| is_page(q) implies #[trigger] self.at(memory, q)
                        == if same_block(q, page.0 as int, page_size.level()) {
                        Some((entry, page_size))
                    } else {
                        old(self).at(old(memory), q)
                    } by {
                        assert(walk(memory.tables(), self.root(), q) == if same_block(
                            q,
                            page.0 as int,
                            page_size.level(),
                        ) {
                            Some((entry, page_size))
                        } else {
                            walk(mid, self.root(), q)
                        });
                        assert(self.at(&created, q) == old(self).at(old(memory), q));
                    }
                    let t = old(memory).tables();
                    let n = memory.tables();
                    let root = self.root();
                    if compact(t, root) {
                        assert forall|v: int| is_page(v) && #[trigger] occupied(n, root, v, 1)
                            implies block_used(n, root, v) by {
                            if same_block(v, page.0 as int, 1) {
                                assert(self.at(memory, page.0 as int) == walk(
                                    n,
                                    root,
                                    page.0 as int,
                                ));
                            } else {
                                assert(occupied(mid, root, v, 1));
                                assert(occupied(t, root, v, 1));
                                assert(block_used(t, root, v));
                                let q = choose|q: int|
                                    is_page(q) && same_block(q, v, 1) && (#[trigger] walk(
                                        t,
                                        root,
                                        q,
                                    )) is Some;
                                assert(old(self).at(old(memory), q) is Some);
                                assert(self.at(memory, q) == walk(n, root, q));
                            }
                        }
                    }
                }
                Ok(())
            },
        }
    }

    /// Writes the entry that maps `page`.
    fn overwrite(&mut self, memory: &mut PhysMemory, page: VirtPageNum, entry: PageTableEntry)
        requires
            old(self).wf(old(memory)),
            is_page(page.0 as int),
            old(self).at(old(memory), page.0 as int) is Some,
            old(self).at(old(memory), page.0 as int)->Some_0.1 != PageSize::Page4K ==> !links(
                entry,
                old(self).at(old(memory), page.0 as int)->Some_0.1.level(),
            ),
        ensures
            final(self).wf(final(memory)),
            final(self).root() == old(self).root(),
            keeps_others(old(memory).tables(), final(memory).tables(), old(self).root()),
            keeps_held(old(memory), final(memory)),
            final(self).owned() == old(self).owned(),
            final(memory).frames() == old(memory).frames(),
            ({
                let size = old(self).at(old(memory), page.0 as int)->Some_0.1;
                forall|q: int|
                    is_page(q) ==> #[trigger] final(self).at(final(memory), q) == if same_block(
                        q,
                        page.0 as int,
                        size.level(),
                    ) {
                        if entry.is_leaf(size.level()) {
                            Some((entry, size))
                        } else {
                            None
                        }
                    } else {
                        old(self).at(old(memory), q)
                    }
            }),
    {
        if let Some((p, index, size)) = self.find_slot(memory, page) {
            let ghost t = memory.tables();
            proof {
                lemma_same_block(page.0 as int, page.0 as int);
            }
            memory.write(p, index, entry);
            proof {
                lemma_write_leaf(t, self.root(), page.0 as int, size.level(), entry);
                assert forall|q: int| is_page(q) implies #[trigger] self.at(memory, q)
                    == if same_block(q, page.0 as int, size.level()) {
                    if entry.is_leaf(size.level()) {
                        Some((entry, size))
                    } else {
                        None
                    }
                } else {
                    old(self).at(old(memory), q)
                } by {
                }
            }
        }
    }

    /// Takes a mapped page out of the table, with all that its entry maps.
    pub fn unmap(&mut self, memory: &mut PhysMemory, page: VirtPageNum)
        requires
            old(self).wf(old(memory)),
            is_page(page.0 as int),
            old(self).at(old(memory), page.0 as int) is Some,
        ensures
            final(self).wf(final(memory)),
            final(self).root() == old(self).root(),
            keeps_others(old(memory).tables(), final(memory).tables(), old(self).root()),
            keeps_held(old(memory), final(memory)),
            final(self).owned() == old(self).owned(),
            final(memory).frames() == old(memory).frames(),
            ({
                let size = old(self).at(old(memory), page.0 as int)->Some_0.1;
                forall|q: int|
                    is_page(q) ==> #[trigger] final(self).at(final(memory), q) == if same_block(
                        q,
                        page.0 as int,
                        size.level(),
                    ) {
                        None
                    } else {
                        old(self).at(old(memory), q)
                    }
            }),
    {
        self.overwrite(memory, page, PageTableEntry::empty());
    }

    /// Points the entry that maps a page to another frame with new flags.
    pub fn set_entry(
        &mut self,
        memory: &mut PhysMemory,
        page: VirtPageNum,
        ppn: PhysPageNum,
        flags: PTEFlags,
    )
        requires
            old(self).wf(old(memory)),
            is_page(page.0 as int),
            old(self).at(old(memory), page.0 as int) is Some,
            old(self).at(old(memory), page.0 as int)->Some_0.1 != PageSize::Page4K ==> flags.r
                || flags.w || flags.x,
        ensures
            final(self).wf(final(memory)),
            final(self).root() == old(self).root(),
            keeps_others(old(memory).tables(), final(memory).tables(), old(self).root()),
            keeps_held(old(memory), final(memory)),
            final(self).owned() == old(self).owned(),
            final(memory).frames() == old(memory).frames(),
            ({
                let size = old(self).at(old(memory), page.0 as int)->Some_0.1;
                forall|q: int|
                    is_page(q) ==> #[trigger] final(self).at(final(memory), q) == if same_block(
                        q,
                        page.0 as int,
                        size.level(),
                    ) {
                        Some((PageTableEntry { page: ppn, flags: flags.installed() }, size))
                    } else {
                        old(self).at(old(memory), q)
                    }
            }),
    {
        let entry = PageTableEntry::new(ppn, flags.install());
        self.overwrite(memory, page, entry);
    }

    /// Gives the entry that maps a page new flags.
    pub fn set_flags(&mut self, memory: &mut PhysMemory, page: VirtPageNum, flags: PTEFlags)
        requires
            old(self).wf(old(memory)),
            is_page(page.0 as int),
            old(self).at(old(memory), page.0 as int) is Some,
            old(self).at(old(memory), page.0 as int)->Some_0.1 != PageSize::Page4K ==> flags.r
                || flags.w || flags.x,
        ensures
            final(self).wf(final(memory)),
            final(self).root() == old(self).root(),
            keeps_others(old(memory).tables(), final(memory).tables(), old(self).root()),
            keeps_held(old(memory), final(memory)),
            final(self).owned() == old(self).owned(),
            final(memory).frames() == old(memory).frames(),
            ({
                let (entry, size) = old(self).at(old(memory), page.0 as int)->Some_0;
                forall|q: int|
                    is_page(q) ==> #[trigger] final(self).at(final(memory), q) == if same_block(
                        q,
                        page.0 as int,
                        size.level(),
                    ) {
                        Some((PageTableEntry { flags: flags.installed(), ..entry }, size))
                    } else {
                        old(self).at(old(memory), q)
                    }
            }),
    {
        if let Some((entry, size)) = self.find_pte(memory, page) {
            self.set_entry(memory, page, entry.ppn(), flags);
        }
    }

    /// Marks the entry that maps a page as written to.
    pub fn set_dirty(&mut self, memory: &mut PhysMemory, page: VirtPageNum)
        requires
            old(self).wf(old(memory)),
            is_page(page.0 as int),
            old(self).at(old(memory), page.0 as int) is Some,
        ensures
            final(self).wf(final(memory)),
            final(self).root() == old(self).root(),
            keeps_others(old(memory).tables(), final(memory).tables(), old(self).root()),
            keeps_held(old(memory), final(memory)),
            final(self).owned() == old(self).owned(),
            final(memory).frames() == old(memory).frames(),
            ({
                let (entry, size) = old(self).at(old(memory), page.0 as int)->Some_0;
                forall|q: int|
                    is_page(q) ==> #[trigger] final(self).at(final(memory), q) == if same_block(
                        q,
                        page.0 as int,
                        size.level(),
                    ) {
                        Some(
                            (
                                PageTableEntry {
                                    flags: PTEFlags { d: true, ..entry.flags },
                                    ..entry
                                },
                                size,
                            ),
                        )
                    } else {
                        old(self).at(old(memory), q)
                    }
            }),
    {
        if let Some((entry, size)) = self.find_pte(memory, page) {
            let mut dirty = entry;
            dirty.flags.d = true;
            proof {
                lemma_entry_is_leaf(memory.tables(), self.root(), page.0 as int);
            }
            self.overwrite(memory, page, dirty);
        }
    }

    /// Moves the mapping of `src` to `dst` and tells whether it did.
    ///
    /// The source is mapped with the given page size and valid, the target is
    /// not mapped, and there are frames for missing tables; else nothing moves.
    pub fn move_entry(
        &mut self,
        memory: &mut PhysMemory,
        src: VirtPageNum,
        dst: VirtPageNum,
        page_size: PageSize,
    ) -> (moved: bool)
        requires
            old(self).wf(old(memory)),
            is_page(src.0 as int),
            is_page(dst.0 as int),
        ensures
            final(self).wf(final(memory)),
            final(self).root() == old(self).root(),
            keeps_others(old(memory).tables(), final(memory).tables(), old(self).root()),
            keeps_held(old(memory), final(memory)),
            ({
                let t = old(memory).tables();
                let root = old(self).root();
                let level = page_size.level();
                let from = old(self).at(old(memory), src.0 as int);
                let to = old(self).at(old(memory), dst.0 as int);
                &&& moved == (src == dst || (from is Some && from->Some_0.0.flags.v
                    && from->Some_0.1 == page_size && to is None && !covered(
                    t,
                    root,
                    dst.0 as int,
                    level,
                ) && missing(t, root, dst.0 as int, level) <= old(memory).frames().free.count()
                    && !occupied(t, root, dst.0 as int, level)))
                &&& !moved || src == dst ==> final(self).same_pages(
                    final(memory),
                    old(self),
                    old(memory),
                )
                &&& moved && src != dst ==> forall|q: int|
                    is_page(q) ==> #[trigger] final(self).at(final(memory), q) == if same_block(
                        q,
                        dst.0 as int,
                        level,
                    ) {
                        from
                    } else if same_block(q, src.0 as int, level) {
                        None
                    } else {
                        old(self).at(old(memory), q)
                    }
            }),
    {
        if src == dst {
            return true;
        }
        let (entry, size) = match self.find_pte(memory, src) {
            None => {
                return false;
            },
            Some(found) => found,
        };
        if !entry.is_valid() || size != page_size {
            return false;
        }
        if self.find_pte(memory, dst).is_some() {
            return false;
        }
        match self.find_pte_create(memory, dst, page_size) {
            Err(_) => false,
            Ok((p, index)) => {
                let ghost table = *self;
                let ghost created = *memory;
                let ghost mid = memory.tables();
                proof {
                    memory.lemma_wf();
                    lemma_same_block(dst.0 as int, dst.0 as int);
                    lemma_same_block(dst.0 as int, src.0 as int);
                    let i = table_index(dst.0 as int, 0);
                    let j = table_index(dst.0 as int, 1);
                    assert(self.at(memory, src.0 as int) == old(self).at(
                        old(memory),
                        src.0 as int,
                    ));
                    assert(self.at(memory, dst.0 as int) == old(self).at(
                        old(memory),
                        dst.0 as int,
                    ));
                }
                if memory.read(p, index).is_valid() {
                    return false;
                }
                memory.write(p, index, entry);
                proof {
                    lemma_write_leaf(mid, self.root(), dst.0 as int, page_size.level(), entry);
                    lemma_keeps_both(old(memory).tables(), mid, memory.tables(), self.root());
                }
                let ghost placed = *memory;
                assert(self.at(memory, src.0 as int) is Some);
                self.overwrite(memory, src, PageTableEntry::empty());
                proof {
                    lemma_keeps_both(
                        old(memory).tables(),
                        placed.tables(),
                        memory.tables(),
                        self.root(),
                    );
                    assert forall|q: int| is_page(q) implies #[trigger] self.at(memory, q)
                        == if same_block(q, dst.0 as int, page_size.level()) {
                        Some((entry, page_size))
                    } else if same_block(q, src.0 as int, page_size.level()) {
                        None
                    } else {
                        old(self).at(old(memory), q)
                    } by {
                        assert(table.at(&created, q) == old(self).at(old(memory), q));
                        assert(table.at(&placed, q) == walk(placed.tables(), self.root(), q));
                        lemma_same_block(q, dst.0 as int);
                        lemma_same_block(q, src.0 as int);
                    }
                }
                true
            },
        }
    }
}

/// No table that the lower half of `user` reaches is one that the upper half of
/// `kernel` reaches, and neither root is a table of the other.
pub open spec fn apart(t: Tables, user: u64, kernel: u64) -> bool {
    &&& user != kernel
    &&& forall|k: int|
        0 <= k < 512 && #[trigger] child(t, kernel, k) is Some ==> child(t, kernel, k) != Some(user)
    &&& forall|k: int, l: int|
        0 <= k < 512 && 0 <= l < 512 && #[trigger] grandchild(t, kernel, k, l) is Some
            ==> grandchild(t, kernel, k, l) != Some(user)
    &&& forall|i: int, k: int|
        0 <= i < 256 && 256 <= k < 512 && #[trigger] child(t, user, i) is Some ==> child(t, user, i)
            != #[trigger] child(t, kernel, k)
    &&& forall|i: int, k: int, l: int|
        0 <= i < 256 && 256 <= k < 512 && 0 <= l < 512 && #[trigger] child(t, user, i) is Some
            ==> child(t, user, i) != #[trigger] grandchild(t, kernel, k, l)
    &&& forall|i: int, j: int, k: int|
        0 <= i < 256 && 0 <= j < 512 && 256 <= k < 512 && #[trigger] grandchild(t, user, i, j)
            is Some ==> grandchild(t, user, i, j) != #[trigger] child(t, kernel, k)
    &&& forall|i: int, j: int, k: int, l: int|
        0 <= i < 256 && 0 <= j < 512 && 256 <= k < 512 && 0 <= l < 512 && #[trigger] grandchild(
            t,
            user,
            i,
            j,
        ) is Some ==> grandchild(t, user, i, j) != #[trigger] grandchild(t, kernel, k, l)
}

/// The root of `user` with the upper half of the root of `kernel`.
pub open spec fn with_kernel_half(t: Tables, user: u64, kernel: u64) -> Tables {
    t.insert(
        user,
        Seq::new(
            512,
            |i: int|
                if i < 256 {
                    t[user][i]
                } else {
                    t[kernel][i]
                },
        ),
    )
}

/// Sharing the kernel half keeps both tables trees and gives the user's table
/// the kernel's translations there.
#[verifier::spinoff_prover]
#[verifier::rlimit(60)]
proof fn lemma_kernel_half(t: Tables, user: u64, kernel: u64)
    requires
        is_tree(t, user),
        is_tree(t, kernel),
        apart(t, user, kernel),
    ensures
        is_tree(with_kernel_half(t, user, kernel), user),
        is_tree(with_kernel_half(t, user, kernel), kernel),
        forall|q: int|
            is_page(q) ==> #[trigger] walk(with_kernel_half(t, user, kernel), user, q) == if q
                < VPN_LIMIT / 2 {
                walk(t, user, q)
            } else {
                walk(t, kernel, q)
            },
        forall|q: int|
            is_page(q) ==> #[trigger] walk(with_kernel_half(t, user, kernel), kernel, q) == walk(
                t,
                kernel,
                q,
            ),
{
    let n = with_kernel_half(t, user, kernel);
    assert forall|i: int| 0 <= i < 512 implies #[trigger] child(n, kernel, i) == child(
        t,
        kernel,
        i,
    ) by {}
    assert forall|i: int, j: int| 0 <= i < 512 && 0 <= j < 512 implies #[trigger] grandchild(
        n,
        kernel,
        i,
        j,
    ) == grandchild(t, kernel, i, j) by {
        assert(child(n, kernel, i) == child(t, kernel, i));
    }
    assert forall|i: int| 0 <= i < 512 implies #[trigger] child(n, user, i) == if i < 256 {
        child(t, user, i)
    } else {
        child(t, kernel, i)
    } by {}
    assert forall|i: int, j: int| 0 <= i < 512 && 0 <= j < 512 implies #[trigger] grandchild(
        n,
        user,
        i,
        j,
    ) == if i < 256 {
        grandchild(t, user, i, j)
    } else {
        grandchild(t, kernel, i, j)
    } by {
        assert(child(n, user, i) == if i < 256 {
            child(t, user, i)
        } else {
            child(t, kernel, i)
        });
    }
    assert forall|q: int| is_page(q) implies #[trigger] walk(n, user, q) == if q < VPN_LIMIT / 2 {
        walk(t, user, q)
    } else {
        walk(t, kernel, q)
    } by {
        lemma_same_block(q, q);
        let i = table_index(q, 0);
        let j = table_index(q, 1);
        assert(i < 256 <==> q < VPN_LIMIT / 2);
        assert(child(n, user, i) == if i < 256 {
            child(t, user, i)
        } else {
            child(t, kernel, i)
        });
        assert(grandchild(n, user, i, j) == if i < 256 {
            grandchild(t, user, i, j)
        } else {
            grandchild(t, kernel, i, j)
        });
    }
    assert forall|q: int| is_page(q) implies #[trigger] walk(n, kernel, q) == walk(
        t,
        kernel,
        q,
    ) by {
        lemma_same_block(q, q);
        let i = table_index(q, 0);
        let j = table_index(q, 1);
        assert(child(n, kernel, i) == child(t, kernel, i));
        assert(grandchild(n, kernel, i, j) == grandchild(t, kernel, i, j));
    }
}

/// Where a page is not mapped, nothing but missing frames keeps it from being mapped.
pub proof fn lemma_unmapped_is_free(table: PageTable, memory: &PhysMemory, v: int)
    requires
        table.wf(memory),
        is_page(v),
    ensures
        table.at(memory, v) is None ==> !covered(
            memory.tables(),
            table.root(),
            v,
            2,
        ) && !occupied(memory.tables(), table.root(), v, 2),
        table.at(memory, v) is Some ==> covered(
            memory.tables(),
            table.root(),
            v,
            2,
        ) || occupied(memory.tables(), table.root(), v, 2),
        missing(memory.tables(), table.root(), v, 2) <= 2,
{
}

/// A block of the middle size of which no page is mapped can be mapped.
pub proof fn lemma_unused_block_is_free(table: PageTable, memory: &PhysMemory, v: int)
    requires
        table.wf(memory),
        compact(memory.tables(), table.root()),
        is_page(v),
        forall|q: int| is_page(q) && same_block(q, v, 1) ==> #[trigger] table.at(memory, q) is None,
    ensures
        !covered(memory.tables(), table.root(), v, 1),
        !occupied(memory.tables(), table.root(), v, 1),
        missing(memory.tables(), table.root(), v, 1) <= 1,
{
    assert(table.at(memory, v) is None);
    if occupied(memory.tables(), table.root(), v, 1) {
        assert(block_used(memory.tables(), table.root(), v));
        let q = choose|q: int|
            is_page(q) && same_block(q, v, 1) && (#[trigger] walk(
                memory.tables(),
                table.root(),
                q,
            )) is Some;
        assert(table.at(memory, q) is None);
    }
}

/// Pages of one block are mapped alike.
pub proof fn lemma_block_alike(table: PageTable, memory: &PhysMemory, page: int, other: int)
    requires
        is_page(page),
        is_page(other),
        table.at(memory, page) is Some,
        same_block(page, other, table.at(memory, page)->Some_0.1.level()),
    ensures
        table.at(memory, other) == table.at(memory, page),
{
    lemma_same_block(page, other);
}

/// What ends a walk is a leaf of its level, and a valid entry at the last.
proof fn lemma_entry_is_leaf(t: Tables, root: u64, page: int)
    ensures
        walk(t, root, page) matches Some((entry, size)) ==> entry.is_leaf(size.level()),
{
}

/// Two tables that share the kernel half agree on every page of it, also after
/// the kernel changed its tables below the root.
pub proof fn law_kernel_half_agrees(t: Tables, user: u64, kernel: u64, page: int)
    requires
        is_page(page),
        page >= VPN_LIMIT / 2,
        forall|i: int| 256 <= i < 512 ==> #[trigger] t[user][i] == t[kernel][i],
    ensures
        walk(t, user, page) == walk(t, kernel, page),
{
    lemma_same_block(page, page);
    assert(table_index(page, 0) >= 256);
    assert(t[user][table_index(page, 0)] == t[kernel][table_index(page, 0)]);
}

impl PageTable {
    /// Makes a page table with the tables of another, none of which it owns.
    pub fn alias_of(other: &PageTable) -> (table: Self)
        ensures
            table.root() == other.root(),
            table.owned() == Seq::<FrameTracker>::empty(),
    {
        let frames: Vec<FrameTracker> = Vec::new();
        assert(frames@ =~= Seq::<FrameTracker>::empty());
        PageTable { root_ppn: other.root_ppn, frames }
    }

    /// Links the upper half of the root to the kernel's tables.
    pub fn share_kernel_half(&mut self, memory: &mut PhysMemory, kernel: &PageTable)
        requires
            old(self).wf(old(memory)),
            kernel.wf(old(memory)),
            apart(old(memory).tables(), old(self).root(), kernel.root()),
        ensures
            final(self).wf(final(memory)),
            kernel.wf(final(memory)),
            final(self).root() == old(self).root(),
            final(self).owned() == old(self).owned(),
            final(memory).frames() == old(memory).frames(),
            forall|i: int|
                256 <= i < 512 ==> #[trigger] final(memory).tables()[final(self).root()][i] == final(memory).tables()[kernel.root()][i],
            forall|q: int|
                is_page(q) ==> #[trigger] final(self).at(final(memory), q) == if q < VPN_LIMIT / 2 {
                    old(self).at(old(memory), q)
                } else {
                    kernel.at(old(memory), q)
                },
            kernel.same_pages(final(memory), kernel, old(memory)),
            keeps_held(old(memory), final(memory)),
    {
        let ghost t = memory.tables();
        let ghost user = self.root();
        proof {
            memory.lemma_wf();
        }
        let mut i: usize = KERNEL_ROOT_START;
        proof {
            let row = Seq::new(
                512,
                |k: int|
                    if 256 <= k < i {
                        t[kernel.root()][k]
                    } else {
                        t[user][k]
                    },
            );
            assert(row =~= t[user]);
            assert(t.insert(user, row) =~= t);
        }
        while i < TABLE_ENTRIES
            invariant
                256 <= i <= TABLE_ENTRIES,
                *self == *old(self),
                memory.wf(),
                memory.frames() == old(memory).frames(),
                keeps_held(old(memory), memory),
                t == old(memory).tables(),
                user == self.root(),
                user != kernel.root(),
                is_table(t, user),
                is_table(t, kernel.root()),
                memory.tables() == t.insert(
                    user,
                    Seq::new(
                        512,
                        |k: int|
                            if 256 <= k < i {
                                t[kernel.root()][k]
                            } else {
                                t[user][k]
                            },
                    ),
                ),
            decreases TABLE_ENTRIES - i,
        {
            let entry = memory.read(kernel.root_ppn, i);
            let ghost before = memory.tables();
            memory.write(self.root_ppn, i, entry);
            proof {
                assert(memory.tables() =~= t.insert(
                    user,
                    Seq::new(
                        512,
                        |k: int|
                            if 256 <= k < i + 1 {
                                t[kernel.root()][k]
                            } else {
                                t[user][k]
                            },
                    ),
                )) by {
                    assert(memory.tables()[user] =~= Seq::new(
                        512,
                        |k: int|
                            if 256 <= k < i + 1 {
                                t[kernel.root()][k]
                            } else {
                                t[user][k]
                            },
                    ));
                }
            }
            i = i + 1;
        }
        proof {
            assert(memory.tables() =~= with_kernel_half(t, user, kernel.root())) by {
                assert(memory.tables()[user] =~= with_kernel_half(t, user, kernel.root())[user]);
            }
            lemma_kernel_half(t, user, kernel.root());
            assert forall|q: int| is_page(q) implies #[trigger] self.at(memory, q) == if q
                < VPN_LIMIT / 2 {
                old(self).at(old(memory), q)
            } else {
                kernel.at(old(memory), q)
            } by {
            }
            assert forall|q: int| is_page(q) implies #[trigger] kernel.at(memory, q) == kernel.at(
                old(memory),
                q,
            ) by {
            }
        }
    }

    /// Returns the entry that maps a page.
    pub fn translate(&self, memory: &PhysMemory, page: VirtPageNum) -> (entry: Option<
        PageTableEntry,
    >)
        requires
            self.wf(memory),
            is_page(page.0 as int),
        ensures
            entry == match self.at(memory, page.0 as int) {
                None => None,
                Some((e, size)) => Some(e),
            },
    {
        match self.find_pte(memory, page) {
            None => None,
            Some((entry, size)) => Some(entry),
        }
    }

    /// Returns the entry that maps a page, and the size of what it maps.
    pub fn translate_and_get_size(&self, memory: &PhysMemory, page: VirtPageNum) -> (mapping:
        Mapping)
        requires
            self.wf(memory),
            is_page(page.0 as int),
        ensures
            mapping == self.at(memory, page.0 as int),
    {
        self.find_pte(memory, page)
    }

    /// Returns the entry of a page at the level of a page size, making the tables on the way.
    pub fn translate_create(
        &mut self,
        memory: &mut PhysMemory,
        page: VirtPageNum,
        page_size: PageSize,
    ) -> (entry: Result<PageTableEntry, MapError>)
        requires
            old(self).wf(old(memory)),
            is_page(page.0 as int),
        ensures
            final(self).wf(final(memory)),
            final(self).root() == old(self).root(),
            keeps_others(old(memory).tables(), final(memory).tables(), old(self).root()),
            keeps_held(old(memory), final(memory)),
            final(self).same_pages(final(memory), old(self), old(memory)),
            ({
                let t = old(memory).tables();
                let root = old(self).root();
                let level = page_size.level();
                let need = missing(t, root, page.0 as int, level);
                match entry {
                    Err(e) => e == if covered(t, root, page.0 as int, level) {
                        MapError::Covered
                    } else {
                        MapError::OutOfFrames
                    } && (!covered(t, root, page.0 as int, level) ==> need > old(memory).frames().free.count()),
                    Ok(e) => {
                        &&& !covered(t, root, page.0 as int, level)
                        &&& need <= old(memory).frames().free.count()
                        &&& need > 0 ==> e == PageTableEntry::blank()
                        &&& need == 0 ==> e == t[visited(
                            t,
                            root,
                            page.0 as int,
                            level,
                        )->Some_0][table_index(page.0 as int, level)]
                    },
                }
            }),
    {
        match self.find_pte_create(memory, page, page_size) {
            Err(e) => Err(e),
            Ok((p, index)) => {
                proof {
                    memory.lemma_wf();
                    lemma_same_block(page.0 as int, page.0 as int);
                    let t = memory.tables();
                    let i = table_index(page.0 as int, 0);
                    let j = table_index(page.0 as int, 1);
                }
                Ok(memory.read(p, index))
            },
        }
    }

    /// Returns the physical address of a virtual one.
    pub fn translate_va(&self, memory: &PhysMemory, va: VirtAddr) -> (pa: Option<PhysAddr>)
        requires
            self.wf(memory),
            va.0 < super::address::VA_LIMIT,
            self.at(memory, va.0 as int / 4096) matches Some((entry, size)) ==> entry.page.0
                < PPN_LIMIT && entry.page.0 as int % size.pages() == 0,
        ensures
            match self.at(memory, va.0 as int / 4096) {
                None => pa is None,
                Some((entry, size)) => pa == Some(
                    PhysAddr((entry.page.0 * 4096 + va.0 as int % size.bytes()) as u64),
                ) && pa->Some_0.0 < super::address::PA_LIMIT,
            },
    {
        match self.find_pte(memory, va.std_floor()) {
            None => None,
            Some((entry, size)) => {
                proof {
                    super::address::lemma_page_shift(entry.page.0);
                    assert(entry.page.0 as int % size.pages() == 0);
                    assert(entry.page.0 * 4096 + size.bytes() <= PPN_LIMIT * 4096) by {
                        match size {
                            PageSize::Page4K => {},
                            PageSize::Page2M => {},
                            PageSize::Page1G => {},
                        }
                    }
                }
                let start = PhysAddr::from(entry.ppn());
                let offset: u64 = va.actual_page_offset(size);
                Some(PhysAddr::from(start.0 + offset))
            },
        }
    }

    /// Returns what the processor loads to use the table with an address-space number.
    pub fn token(&self, asid: u64) -> (token: u64)
        requires
            self.root() < PPN_LIMIT,
        ensures
            token == 0x8000_0000_0000_0000 + (asid % 0x1_0000) * PPN_LIMIT + self.root(),
    {
        0x8000_0000_0000_0000 + (asid % 0x1_0000) * PPN_LIMIT + self.root_ppn.0
    }

    /// Returns what a processor loads that is told the address-space number apart: where the
    /// root is.
    pub fn root_token(&self) -> (token: u64)
        requires
            self.root() < PPN_LIMIT,
        ensures
            token == self.root() * 4096,
    {
        self.root_ppn.0 * 4096
    }

    /// Takes the pages of the table's own tables out of it.
    pub fn take_frames(&mut self) -> (frames: Vec<FrameTracker>)
        ensures
            frames@ == old(self).owned(),
            final(self).owned() == Seq::<FrameTracker>::empty(),
            final(self).root() == old(self).root(),
    {
        let mut frames: Vec<FrameTracker> = Vec::new();
        std::mem::swap(&mut self.frames, &mut frames);
        frames
    }
}

/// The token tells the address-space number and the root apart from all others.
pub proof fn law_token_identifies(asid_a: u64, root_a: u64, asid_b: u64, root_b: u64)
    requires
        asid_a < 0x1_0000,
        asid_b < 0x1_0000,
        root_a < PPN_LIMIT,
        root_b < PPN_LIMIT,
        asid_a * PPN_LIMIT + root_a == asid_b * PPN_LIMIT + root_b,
    ensures
        asid_a == asid_b,
        root_a == root_b,
{
}

/// How a page table is after a page was to be mapped.
pub open spec fn page_mapped(
    before: &PageTable,
    memory: &PhysMemory,
    after: &PageTable,
    memory_after: &PhysMemory,
    page: VirtPageNum,
    ppn: PhysPageNum,
    flags: PTEFlags,
    page_size: PageSize,
    done: Result<(), MapError>,
) -> bool {
    &&& after.wf(memory_after)
    &&& after.root() == before.root()
    &&& keeps_others(memory.tables(), memory_after.tables(), before.root())
    &&& keeps_held(memory, memory_after)
    &&& keeps_users(memory.frames(), memory_after.frames())
    &&& {
        let t = memory.tables();
        let root = before.root();
        let level = page_size.level();
        let need = missing(t, root, page.0 as int, level);
        let count = memory.frames().free.count();
        &&& done == if covered(t, root, page.0 as int, level) {
            Err::<(), MapError>(MapError::Covered)
        } else if need > count {
            Err(MapError::OutOfFrames)
        } else if occupied(t, root, page.0 as int, level) {
            Err(MapError::Occupied)
        } else {
            Ok(())
        }
        &&& done is Err ==> after.same_pages(memory_after, before, memory)
        &&& done is Ok ==> {
            &&& memory_after.frames().free.count() == count - need
            &&& compact(t, root) ==> compact(memory_after.tables(), root)
            &&& forall|q: int|
                is_page(q) ==> #[trigger] after.at(memory_after, q) == if same_block(
                    q,
                    page.0 as int,
                    level,
                ) {
                    Some((PageTableEntry { page: ppn, flags: flags.installed() }, page_size))
                } else {
                    before.at(memory, q)
                }
        }
    }
}

/// What was mapped is found, and what was unmapped is found no more.
pub proof fn law_map_then_unmap(
    before: spec_fn(int) -> Mapping,
    mapped: spec_fn(int) -> Mapping,
    unmapped: spec_fn(int) -> Mapping,
    page: int,
    entry: PageTableEntry,
    size: PageSize,
)
    requires
        is_page(page),
        forall|q: int|
            is_page(q) ==> #[trigger] mapped(q) == if same_block(q, page, size.level()) {
                Some((entry, size))
            } else {
                before(q)
            },
        forall|q: int|
            is_page(q) ==> #[trigger] unmapped(q) == if same_block(q, page, size.level()) {
                None
            } else {
                mapped(q)
            },
        forall|q: int|
            is_page(q) && same_block(q, page, size.level()) ==> #[trigger] before(q) is None,
    ensures
        mapped(page) == Some((entry, size)),
        forall|q: int| is_page(q) ==> #[trigger] unmapped(q) == before(q),
{
    assert forall|q: int| is_page(q) implies #[trigger] unmapped(q) == before(q) by {
        assert(mapped(q) == if same_block(q, page, size.level()) {
            Some((entry, size))
        } else {
            before(q)
        });
    }
}

} // verus!
