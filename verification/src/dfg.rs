use vstd::prelude::*;

verus! {

/// One node of a data-flow graph in its flat form: an operation name and
/// the indices of its operands.  In a well-formed graph every child index
/// points at an earlier node.
pub struct DfgNode {
    pub op: String,
    pub children: Vec<u32>,
}

/// Two flat nodes carry the same data.
pub open spec fn node_like(a: DfgNode, b: DfgNode) -> bool {
    a.op@ == b.op@ && a.children@ == b.children@
}

/// Index `i` is a root: no node of the graph uses it as a child.
pub open spec fn is_root(nodes: Seq<DfgNode>, i: int) -> bool {
    forall|j: int, k: int|
        0 <= j < nodes.len() && 0 <= k < nodes[j].children.len()
            ==> (#[trigger] nodes[j].children[k]) != i
}

/// `i` occurs as a child among the first `upto` nodes.
pub open spec fn hit_before(nodes: Seq<DfgNode>, i: int, upto: int) -> bool {
    exists|j: int, k: int|
        0 <= j < upto && 0 <= k < nodes[j].children.len() && (#[trigger] nodes[j].children[k]) == i
}

/// `i` occurs among the first `upto` children of node `j`.
pub open spec fn hit_in(nodes: Seq<DfgNode>, i: int, j: int, upto: int) -> bool {
    exists|k: int| 0 <= k < upto && (#[trigger] nodes[j].children[k]) == i
}

/// The distinguished operation name that marks the synthetic single root.
pub open spec fn is_marker(n: DfgNode) -> bool {
    n.op@ == "__root"@
}

/// How many synthetic root markers the graph holds.
pub open spec fn marker_count(nodes: Seq<DfgNode>) -> int
    decreases nodes.len(),
{
    if nodes.len() == 0 {
        0
    } else {
        marker_count(nodes.drop_last()) + if is_marker(nodes.last()) {
            1int
        } else {
            0int
        }
    }
}

/// Why a graph cannot be stripped of its synthetic root.
#[derive(Clone, Copy, PartialEq, Eq, Structural, Debug)]
pub enum DfgError {
    MissingRoot,
    MultipleRoots,
}

/// The named rewrite rulesets the optimizer knows.
#[derive(Clone, Copy, PartialEq, Eq, Structural, Debug)]
pub enum RulesetKind {
    Int,
    Fp,
    Boolean,
    Stochastic,
}

/// String equality by content.
pub fn streq(a: &str, b: &str) -> (r: bool)
    ensures
        r == (a@ == b@),
{
    let sa = a.to_owned();
    let sb = b.to_owned();
    sa == sb
}

/// The ruleset a mode name selects: exactly the four known names map to a
/// ruleset, and an unknown name maps to nothing.
pub fn ruleset_kind(name: &str) -> (r: Option<RulesetKind>)
    ensures
        name@ == "int"@ ==> r == Some(RulesetKind::Int),
        name@ == "fp"@ ==> r == Some(RulesetKind::Fp),
        name@ == "boolean"@ ==> r == Some(RulesetKind::Boolean),
        name@ == "stochastic"@ ==> r == Some(RulesetKind::Stochastic),
        r is None <==> (name@ != "int"@ && name@ != "fp"@ && name@ != "boolean"@ && name@
            != "stochastic"@),
{
    proof {
        reveal_strlit("int");
        reveal_strlit("fp");
        reveal_strlit("boolean");
        reveal_strlit("stochastic");
        assert("int"@.len() == 3 && "fp"@.len() == 2 && "boolean"@.len() == 7 && "stochastic"@.len()
            == 10);
        assert("int"@ != "fp"@ && "int"@ != "boolean"@ && "int"@ != "stochastic"@);
        assert("fp"@ != "boolean"@ && "fp"@ != "stochastic"@);
        assert("boolean"@ != "stochastic"@);
    }
    if streq(name, "int") {
        Some(RulesetKind::Int)
    } else if streq(name, "fp") {
        Some(RulesetKind::Fp)
    } else if streq(name, "boolean") {
        Some(RulesetKind::Boolean)
    } else if streq(name, "stochastic") {
        Some(RulesetKind::Stochastic)
    } else {
        None
    }
}

/// The roots of a flat graph: every index no node uses as a child, in
/// increasing order.  A child index out of range designates no node and is
/// ignored.
pub fn roots_of(nodes: &Vec<DfgNode>) -> (r: Vec<u32>)
    requires
        nodes.len() <= u32::MAX,
    ensures
        forall|p: int, q: int| 0 <= p < q < r.len() ==> r[p] < r[q],
        forall|p: int|
            0 <= p < r.len() ==> (#[trigger] r[p]) < nodes.len() && is_root(nodes@, r[p] as int),
        forall|i: int| 0 <= i < nodes.len() && is_root(nodes@, i) ==> r@.contains(i as u32),
{
    let n = nodes.len();
    let mut flags: Vec<bool> = Vec::new();
    let mut i: usize = 0;
    while i < n
        invariant
            i <= n,
            flags.len() == i,
            forall|p: int| 0 <= p < i ==> flags[p],
        decreases n - i,
    {
        flags.push(true);
        i = i + 1;
    }
    let mut j: usize = 0;
    while j < n
        invariant
            j <= n,
            n == nodes.len() <= u32::MAX,
            flags.len() == n,
            forall|p: int| 0 <= p < n ==> #[trigger] flags[p] == !hit_before(nodes@, p, j as int),
        decreases n - j,
    {
        let m = nodes[j].children.len();
        let mut k: usize = 0;
        while k < m
            invariant
                k <= m,
                j < n,
                m == nodes[j as int].children.len(),
                n == nodes.len() <= u32::MAX,
                flags.len() == n,
                forall|p: int|
                    0 <= p < n ==> #[trigger] flags[p] == !(hit_before(nodes@, p, j as int)
                        || hit_in(nodes@, p, j as int, k as int)),
            decreases m - k,
        {
            let c = nodes[j].children[k];
            if (c as usize) < n {
                flags.set(c as usize, false);
            }
            k = k + 1;
            proof {
                assert forall|p: int| 0 <= p < n implies #[trigger] flags[p] == !(hit_before(
                    nodes@,
                    p,
                    j as int,
                ) || hit_in(nodes@, p, j as int, k as int)) by {
                    if p == c as int {
                        assert(hit_in(nodes@, p, j as int, k as int));
                    } else {
                        assert(hit_in(nodes@, p, j as int, k as int) == hit_in(
                            nodes@,
                            p,
                            j as int,
                            k as int - 1,
                        ));
                    }
                }
            }
        }
        j = j + 1;
        proof {
            assert forall|p: int| 0 <= p < n implies #[trigger] flags[p] == !hit_before(
                nodes@,
                p,
                j as int,
            ) by {
                if hit_before(nodes@, p, j as int) {
                    let (aj, ak) = choose|aj: int, ak: int|
                        0 <= aj < j && 0 <= ak < nodes@[aj].children.len() && (
                        #[trigger] nodes@[aj].children[ak]) == p;
                    if aj < j - 1 {
                        assert(hit_before(nodes@, p, j as int - 1));
                    } else {
                        assert(hit_in(nodes@, p, j as int - 1, nodes@[aj].children.len() as int));
                    }
                } else {
                    assert(!hit_before(nodes@, p, j as int - 1));
                    assert(!hit_in(nodes@, p, j as int - 1, nodes@[j - 1].children.len() as int));
                }
            }
        }
    }
    let mut roots: Vec<u32> = Vec::new();
    let mut i2: usize = 0;
    while i2 < n
        invariant
            i2 <= n,
            n == nodes.len() <= u32::MAX,
            flags.len() == n,
            forall|p: int| 0 <= p < n ==> #[trigger] flags[p] == !hit_before(nodes@, p, n as int),
            forall|p: int, q: int| 0 <= p < q < roots.len() ==> roots[p] < roots[q],
            forall|p: int|
                0 <= p < roots.len() ==> (#[trigger] roots[p]) < i2 && is_root(
                    nodes@,
                    roots[p] as int,
                ),
            forall|i3: int| 0 <= i3 < i2 && is_root(nodes@, i3) ==> roots@.contains(i3 as u32),
        decreases n - i2,
    {
        proof {
            assert(hit_before(nodes@, i2 as int, n as int) == !is_root(nodes@, i2 as int));
        }
        let ghost roots0 = roots@;
        if flags[i2] {
            roots.push(i2 as u32);
        }
        i2 = i2 + 1;
        proof {
            assert forall|i3: int| 0 <= i3 < i2 && is_root(nodes@, i3) implies roots@.contains(
                i3 as u32,
            ) by {
                if i3 == i2 - 1 {
                    assert(roots@.last() == i3 as u32);
                } else {
                    assert(roots0.contains(i3 as u32));
                    let w = choose|w: int| 0 <= w < roots0.len() && roots0[w] == i3 as u32;
                    assert(roots@[w] == i3 as u32);
                }
            }
        }
    }
    roots
}

/// Strip the synthetic single root from a flat graph.  The graph must hold
/// exactly one marker node; with none the graph was never rooted, with two
/// or more it is malformed.  Child indices are kept as they are: in a
/// rooted graph the marker is the last node and nothing refers to it.
pub fn strip_single_root(nodes: &Vec<DfgNode>) -> (r: Result<Vec<DfgNode>, DfgError>)
    ensures
        r is Ok <==> marker_count(nodes@) == 1,
        r == Err::<Vec<DfgNode>, DfgError>(DfgError::MissingRoot) <==> marker_count(nodes@) == 0,
        r == Err::<Vec<DfgNode>, DfgError>(DfgError::MultipleRoots) <==> marker_count(nodes@) >= 2,
        r is Ok ==> r.unwrap().len() == nodes.len() - 1,
        r is Ok ==> exists|m: int|
            {
                &&& 0 <= m < nodes.len()
                &&& is_marker(#[trigger] nodes@[m])
                &&& forall|i: int| 0 <= i < m ==> node_like(#[trigger] r.unwrap()@[i], nodes@[i])
                &&& forall|i: int|
                    m <= i < nodes.len() - 1 ==> node_like(#[trigger] r.unwrap()@[i], nodes@[i + 1])
            },
{
    let n = nodes.len();
    let mut count: usize = 0;
    let mut marker_at: usize = 0;
    let mut i: usize = 0;
    while i < n
        invariant
            i <= n,
            n == nodes.len(),
            count as int == marker_count(nodes@.take(i as int)),
            count <= i,
            count >= 1 ==> marker_at < i && is_marker(nodes@[marker_at as int]),
        decreases n - i,
    {
        proof {
            reveal_strlit("__root");
            assert(nodes@.take(i as int + 1).drop_last() =~= nodes@.take(i as int));
        }
        if streq(nodes[i].op.as_str(), "__root") {
            if count == 0 {
                marker_at = i;
            }
            count = count + 1;
        }
        i = i + 1;
    }
    proof {
        assert(nodes@.take(n as int) =~= nodes@);
    }
    if count == 0 {
        return Err(DfgError::MissingRoot);
    }
    if count >= 2 {
        return Err(DfgError::MultipleRoots);
    }
    let mut out: Vec<DfgNode> = Vec::new();
    let mut i2: usize = 0;
    while i2 < n
        invariant
            i2 <= n,
            n == nodes.len(),
            marker_at < n,
            is_marker(nodes@[marker_at as int]),
            out.len() == if i2 <= marker_at {
                i2 as int
            } else {
                i2 - 1
            },
            forall|k: int|
                0 <= k < out.len() && k < marker_at ==> node_like(
                    #[trigger] out@[k],
                    nodes@[k],
                ),
            forall|k: int|
                marker_at <= k < out.len() ==> node_like(#[trigger] out@[k], nodes@[k + 1]),
        decreases n - i2,
    {
        if i2 != marker_at {
            let src = &nodes[i2];
            let mut kids: Vec<u32> = Vec::new();
            let m = src.children.len();
            let mut k: usize = 0;
            while k < m
                invariant
                    k <= m,
                    i2 < n,
                    n == nodes.len(),
                    m == nodes@[i2 as int].children.len(),
                    kids@ == nodes@[i2 as int].children@.take(k as int),
                decreases m - k,
            {
                kids.push(nodes[i2].children[k]);
                k = k + 1;
                proof {
                    assert(kids@ =~= nodes@[i2 as int].children@.take(k as int));
                }
            }
            proof {
                assert(kids@ =~= nodes@[i2 as int].children@);
            }
            let node = DfgNode { op: src.op.clone(), children: kids };
            out.push(node);
        }
        i2 = i2 + 1;
    }
    Ok(out)
}

/// Append the synthetic single-root marker: the result is the input's
/// nodes, data-identical, followed by one marker node whose children are
/// exactly the graph's roots in increasing order.  `strip_single_root`
/// undoes it on a graph that held no marker.
pub fn with_root_marker(nodes: &Vec<DfgNode>) -> (r: Vec<DfgNode>)
    requires
        nodes.len() <= u32::MAX,
    ensures
        r.len() == nodes.len() + 1,
        forall|i: int| 0 <= i < nodes.len() ==> node_like(#[trigger] r@[i], nodes@[i]),
        is_marker(r@[nodes.len() as int]),
        ({
            let kids = r@[nodes.len() as int].children@;
            &&& forall|p: int, q: int| 0 <= p < q < kids.len() ==> kids[p] < kids[q]
            &&& forall|p: int|
                0 <= p < kids.len() ==> (#[trigger] kids[p]) < nodes.len() && is_root(
                    nodes@,
                    kids[p] as int,
                )
            &&& forall|i: int| 0 <= i < nodes.len() && is_root(nodes@, i) ==> kids.contains(i as u32)
        }),
{
    let roots = roots_of(nodes);
    let mut out: Vec<DfgNode> = Vec::new();
    let n = nodes.len();
    let mut i: usize = 0;
    while i < n
        invariant
            i <= n,
            n == nodes.len(),
            out.len() == i,
            forall|k: int| 0 <= k < i ==> node_like(#[trigger] out@[k], nodes@[k]),
        decreases n - i,
    {
        let src = &nodes[i];
        let mut kids: Vec<u32> = Vec::new();
        let m = src.children.len();
        let mut k: usize = 0;
        while k < m
            invariant
                k <= m,
                i < n,
                n == nodes.len(),
                m == nodes@[i as int].children.len(),
                kids@ == nodes@[i as int].children@.take(k as int),
            decreases m - k,
        {
            kids.push(nodes[i].children[k]);
            k = k + 1;
            proof {
                assert(kids@ =~= nodes@[i as int].children@.take(k as int));
            }
        }
        proof {
            assert(kids@ =~= nodes@[i as int].children@);
        }
        out.push(DfgNode { op: src.op.clone(), children: kids });
        i = i + 1;
    }
    let marker = DfgNode { op: "__root".to_owned(), children: roots };
    out.push(marker);
    out
}

} // verus!
