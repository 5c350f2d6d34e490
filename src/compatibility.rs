//! Laws of layout compatibility, proved over the checker's specification.
use vstd::prelude::*;

use crate::lib_header::{AbiHeader, headers_compatible};
use crate::tagging::lemma_tag_reflexive;
use crate::type_layout::{
    Field, Issue, LayoutData, LayoutGraph, TypeLayout, VariantSet, PathStep, child, compatible,
    data_issues, field_issues, fields_issues, fields_wf, follow, group_issues, header_issues,
    layout_wf, min_nat, node_issues, reached_ok, shape_of, variant_issues, variant_set_issues,
    variants_issues, issue_if,
};

verus! {

/// Two field lists agree in everything but the fields' names.
pub open spec fn fields_alike(xs: Seq<Field>, ys: Seq<Field>) -> bool {
    &&& xs.len() == ys.len()
    &&& forall|k: int| 0 <= k < xs.len() ==> {
        &&& (#[trigger] xs[k]).layout == ys[k].layout
        &&& xs[k].layout_only == ys[k].layout_only
        &&& xs[k].lifetimes@ == ys[k].lifetimes@
    }
}

/// Two layouts agree in everything but their own name and their fields' names.
pub open spec fn layouts_alike(x: TypeLayout, y: TypeLayout) -> bool {
    &&& x.size == y.size
    &&& x.alignment == y.alignment
    &&& x.generic_params@ == y.generic_params@
    &&& x.tag == y.tag
    &&& match x.data {
        LayoutData::Primitive(a) => y.data matches LayoutData::Primitive(b) && a == b,
        LayoutData::Record(xs) => y.data matches LayoutData::Record(ys) && fields_alike(xs@, ys@),
        LayoutData::Variants(a) => y.data matches LayoutData::Variants(b) && {
            &&& a.repr == b.repr
            &&& a.nonexhaustive == b.nonexhaustive
            &&& a.variants@.len() == b.variants@.len()
            &&& forall|v: int| 0 <= v < a.variants@.len() ==> {
                &&& (#[trigger] a.variants@[v]).name@ == b.variants@[v].name@
                &&& a.variants@[v].discriminant == b.variants@[v].discriminant
                &&& fields_alike(a.variants@[v].fields@, b.variants@[v].fields@)
            }
        },
        LayoutData::Opaque => y.data is Opaque,
    }
}

/// Two graphs whose nodes agree one for one in everything but names.
pub open spec fn graphs_alike(g1: LayoutGraph, g2: LayoutGraph) -> bool {
    &&& g1.nodes@.len() == g2.nodes@.len()
    &&& forall|i: int| 0 <= i < g1.nodes@.len() ==> layouts_alike(#[trigger] g1.nodes@[i], g2.nodes@[i])
}

/// The nodes of the two graphs agree one for one in size and alignment.
pub open spec fn dims_agree(g1: LayoutGraph, g2: LayoutGraph) -> bool {
    &&& g1.nodes@.len() == g2.nodes@.len()
    &&& forall|i: int| 0 <= i < g1.nodes@.len() ==> (#[trigger] g1.nodes@[i]).size == g2.nodes@[i].size
        && g1.nodes@[i].alignment == g2.nodes@[i].alignment
}

proof fn lemma_alike_child(g1: LayoutGraph, g2: LayoutGraph, a: int, step: PathStep)
    requires
        g1.wf(),
        graphs_alike(g1, g2),
        0 <= a < g1.nodes@.len(),
    ensures
        child(g1, g2, a, a, step) matches Some(c) ==> c.0 == c.1 && 0 <= c.0 < g1.nodes@.len(),
{
    assert(layouts_alike(g1.nodes@[a], g2.nodes@[a]));
    assert(layout_wf(g1.nodes@[a], g1.nodes@.len()));
}

proof fn lemma_alike_follow(g1: LayoutGraph, g2: LayoutGraph, e: int, path: Seq<PathStep>)
    requires
        g1.wf(),
        graphs_alike(g1, g2),
        0 <= e < g1.nodes@.len(),
    ensures
        follow(g1, g2, e, e, path) matches Some(p) ==> p.0 == p.1 && 0 <= p.0 < g1.nodes@.len(),
    decreases path.len(),
{
    if path.len() > 0 {
        lemma_alike_follow(g1, g2, e, path.drop_last());
        if follow(g1, g2, e, e, path.drop_last()) is Some {
            let p = follow(g1, g2, e, e, path.drop_last())->0;
            lemma_alike_child(g1, g2, p.0, path.last());
        }
    }
}

proof fn lemma_alike_fields(
    g1: LayoutGraph,
    g2: LayoutGraph,
    variant: Option<usize>,
    xs: Seq<Field>,
    ys: Seq<Field>,
    n: nat,
)
    requires
        dims_agree(g1, g2),
        fields_wf(xs, g1.nodes@.len()),
        fields_alike(xs, ys),
        n <= xs.len(),
    ensures
        fields_issues(g1, g2, variant, xs, ys, n).len() == 0,
    decreases n,
{
    if n > 0 {
        lemma_alike_fields(g1, g2, variant, xs, ys, (n - 1) as nat);
        let x = xs[n - 1];
        assert(x.layout < g1.nodes@.len());
        assert(g1.nodes@[x.layout as int].size == g2.nodes@[x.layout as int].size);
        assert(field_issues(g1, g2, variant, n - 1, xs[n - 1], ys[n - 1]).len() == 0);
    }
}

proof fn lemma_alike_variants(g1: LayoutGraph, g2: LayoutGraph, a: VariantSet, b: VariantSet, n: nat)
    requires
        dims_agree(g1, g2),
        forall|j: int| 0 <= j < a.variants@.len() ==> fields_wf((#[trigger] a.variants@[j]).fields@, g1.nodes@.len()),
        a.variants@.len() <= b.variants@.len(),
        forall|v: int| 0 <= v < a.variants@.len() ==> {
            &&& (#[trigger] a.variants@[v]).name@ == b.variants@[v].name@
            &&& a.variants@[v].discriminant == b.variants@[v].discriminant
            &&& fields_alike(a.variants@[v].fields@, b.variants@[v].fields@)
        },
        n <= a.variants@.len(),
    ensures
        variants_issues(g1, g2, a.variants@, b.variants@, n).len() == 0,
    decreases n,
{
    if n > 0 {
        lemma_alike_variants(g1, g2, a, b, (n - 1) as nat);
        let x = a.variants@[n - 1];
        let y = b.variants@[n - 1];
        assert(fields_wf(x.fields@, g1.nodes@.len()));
        lemma_alike_fields(g1, g2, Some((n - 1) as usize), x.fields@, y.fields@, x.fields@.len());
        assert(min_nat(x.fields@.len(), y.fields@.len()) == x.fields@.len());
        assert(group_issues(g1, g2, Some((n - 1) as usize), x.fields@, y.fields@).len() == 0);
        assert(variant_issues(g1, g2, n - 1, x, y).len() == 0);
    }
}

proof fn lemma_alike_no_issues(g1: LayoutGraph, g2: LayoutGraph, a: int)
    requires
        g1.wf(),
        graphs_alike(g1, g2),
        0 <= a < g1.nodes@.len(),
    ensures
        node_issues(g1, g2, a, a).len() == 0,
{
    let x = g1.nodes@[a];
    let y = g2.nodes@[a];
    assert(layouts_alike(x, y));
    assert forall|i: int| 0 <= i < g1.nodes@.len() implies (#[trigger] g1.nodes@[i]).size == g2.nodes@[i].size
        && g1.nodes@[i].alignment == g2.nodes@[i].alignment by {
        assert(layouts_alike(g1.nodes@[i], g2.nodes@[i]));
    }
    assert(layout_wf(x, g1.nodes@.len()));
    if x.tag is Some {
        lemma_tag_reflexive(x.tag->0);
    }
    assert(header_issues(x, y).len() == 0);
    match x.data {
        LayoutData::Record(xs) => {
            let ys = y.data->Record_0;
            lemma_alike_fields(g1, g2, None, xs@, ys@, xs@.len());
            assert(group_issues(g1, g2, None, xs@, ys@).len() == 0);
        },
        LayoutData::Variants(s) => {
            let t = y.data->Variants_0;
            lemma_alike_variants(g1, g2, s, t, s.variants@.len());
            assert(variant_set_issues(g1, g2, s, t).len() == 0);
        },
        _ => {},
    }
    assert(data_issues(g1, g2, x, y).len() == 0);
}

/// Names are advisory: a graph checked against a copy of itself in which
/// layouts and fields are named differently, but nothing else differs, is
/// compatible at every node.
pub proof fn lemma_names_are_advisory(g1: LayoutGraph, g2: LayoutGraph, e: int)
    requires
        g1.wf(),
        graphs_alike(g1, g2),
        0 <= e < g1.nodes@.len(),
    ensures
        compatible(g1, g2, e, e),
{
    assert forall|path: Seq<PathStep>| #[trigger] reached_ok(g1, g2, follow(g1, g2, e, e, path)) by {
        lemma_alike_follow(g1, g2, e, path);
        if follow(g1, g2, e, e, path) is Some {
            let p = follow(g1, g2, e, e, path)->0;
            lemma_alike_no_issues(g1, g2, p.0);
        }
    }
}

/// No pair of layouts reached from the roots by at most `depth` steps has an
/// issue: the verdict on the unrolling of both graphs to that depth.
pub open spec fn ok_within(ge: LayoutGraph, gf: LayoutGraph, e: int, f: int, depth: nat) -> bool {
    forall|path: Seq<PathStep>| path.len() <= depth ==> #[trigger] reached_ok(ge, gf, follow(ge, gf, e, f, path))
}

/// Cycles change nothing: two layouts are compatible exactly when their
/// unrollings agree to every finite depth, so an incompatibility always shows
/// at the depth of its first divergence.
pub proof fn lemma_unrolling_verdict(ge: LayoutGraph, gf: LayoutGraph, e: int, f: int)
    ensures
        compatible(ge, gf, e, f) <==> forall|depth: nat| #[trigger] ok_within(ge, gf, e, f, depth),
        !compatible(ge, gf, e, f) ==> exists|path: Seq<PathStep>| !ok_within(ge, gf, e, f, path.len())
            && #[trigger] follow(ge, gf, e, f, path) is Some,
{
    if forall|depth: nat| #[trigger] ok_within(ge, gf, e, f, depth) {
        assert forall|path: Seq<PathStep>| #[trigger] reached_ok(ge, gf, follow(ge, gf, e, f, path)) by {
            assert(ok_within(ge, gf, e, f, path.len()));
        }
    }
    if !compatible(ge, gf, e, f) {
        let path = choose|path: Seq<PathStep>| !#[trigger] reached_ok(ge, gf, follow(ge, gf, e, f, path));
        assert(!ok_within(ge, gf, e, f, path.len()));
        assert(follow(ge, gf, e, f, path) is Some);
    }
}

/// `xs` and `ys` agree but for names, and `h` sends the layout of each field
/// of `xs` to that of the matching field of `ys`.
pub open spec fn fields_map(xs: Seq<Field>, ys: Seq<Field>, h: Seq<int>) -> bool {
    &&& xs.len() == ys.len()
    &&& forall|k: int| 0 <= k < xs.len() ==> {
        &&& (#[trigger] xs[k]).layout < h.len()
        &&& h[xs[k].layout as int] == ys[k].layout
        &&& xs[k].layout_only == ys[k].layout_only
        &&& xs[k].lifetimes@ == ys[k].lifetimes@
    }
}

/// `x` is `y` with its fields' layouts renamed through `h`.
pub open spec fn layout_maps(x: TypeLayout, y: TypeLayout, h: Seq<int>) -> bool {
    &&& x.size == y.size
    &&& x.alignment == y.alignment
    &&& x.generic_params@ == y.generic_params@
    &&& x.tag == y.tag
    &&& match x.data {
        LayoutData::Primitive(a) => y.data matches LayoutData::Primitive(b) && a == b,
        LayoutData::Record(xs) => y.data matches LayoutData::Record(ys) && fields_map(xs@, ys@, h),
        LayoutData::Variants(a) => y.data matches LayoutData::Variants(b) && {
            &&& a.repr == b.repr
            &&& a.nonexhaustive == b.nonexhaustive
            &&& a.variants@.len() == b.variants@.len()
            &&& forall|v: int| 0 <= v < a.variants@.len() ==> {
                &&& (#[trigger] a.variants@[v]).name@ == b.variants@[v].name@
                &&& a.variants@[v].discriminant == b.variants@[v].discriminant
                &&& fields_map(a.variants@[v].fields@, b.variants@[v].fields@, h)
            }
        },
        LayoutData::Opaque => y.data is Opaque,
    }
}

/// `h` maps every node of `u` to a node of `g` that describes the same
/// layout, fields going to fields: `u` and `g` unroll to the same trees.
pub open spec fn graph_maps(u: LayoutGraph, g: LayoutGraph, h: Seq<int>) -> bool {
    &&& h.len() == u.nodes@.len()
    &&& forall|i: int| 0 <= i < u.nodes@.len() ==> 0 <= #[trigger] h[i] < g.nodes@.len()
    &&& forall|i: int| 0 <= i < u.nodes@.len() ==> layout_maps(#[trigger] u.nodes@[i], g.nodes@[h[i]], h)
}

/// What `child` gives in `g` for what it gives in `u`.
pub open spec fn mapped(h: Seq<int>, p: Option<(int, int)>) -> Option<(int, int)> {
    match p {
        Some(q) => Some((h[q.0], q.1)),
        None => None,
    }
}

proof fn lemma_map_child(u: LayoutGraph, g: LayoutGraph, gf: LayoutGraph, h: Seq<int>, a: int, b: int, step: PathStep)
    requires
        graph_maps(u, g, h),
        0 <= a < u.nodes@.len(),
    ensures
        child(g, gf, h[a], b, step) == mapped(h, child(u, gf, a, b, step)),
        child(u, gf, a, b, step) matches Some(c) ==> 0 <= c.0 < u.nodes@.len(),
{
    assert(layout_maps(u.nodes@[a], g.nodes@[h[a]], h));
}

proof fn lemma_map_follow(u: LayoutGraph, g: LayoutGraph, gf: LayoutGraph, h: Seq<int>, e: int, f: int, path: Seq<PathStep>)
    requires
        graph_maps(u, g, h),
        0 <= e < u.nodes@.len(),
    ensures
        follow(g, gf, h[e], f, path) == mapped(h, follow(u, gf, e, f, path)),
        follow(u, gf, e, f, path) matches Some(p) ==> 0 <= p.0 < u.nodes@.len(),
    decreases path.len(),
{
    if path.len() > 0 {
        lemma_map_follow(u, g, gf, h, e, f, path.drop_last());
        if follow(u, gf, e, f, path.drop_last()) is Some {
            let p = follow(u, gf, e, f, path.drop_last())->0;
            lemma_map_child(u, g, gf, h, p.0, p.1, path.last());
        }
    }
}

proof fn lemma_map_fields(
    u: LayoutGraph,
    g: LayoutGraph,
    gf: LayoutGraph,
    h: Seq<int>,
    variant: Option<usize>,
    xs: Seq<Field>,
    ys: Seq<Field>,
    zs: Seq<Field>,
    n: nat,
)
    requires
        graph_maps(u, g, h),
        fields_map(xs, ys, h),
        n <= xs.len(),
        n <= zs.len(),
    ensures
        fields_issues(u, gf, variant, xs, zs, n) == fields_issues(g, gf, variant, ys, zs, n),
    decreases n,
{
    if n > 0 {
        lemma_map_fields(u, g, gf, h, variant, xs, ys, zs, (n - 1) as nat);
        let x = xs[n - 1];
        assert(x.layout < h.len());
        assert(layout_maps(u.nodes@[x.layout as int], g.nodes@[h[x.layout as int]], h));
        assert(field_issues(u, gf, variant, n - 1, xs[n - 1], zs[n - 1]) == field_issues(
            g,
            gf,
            variant,
            n - 1,
            ys[n - 1],
            zs[n - 1],
        ));
    }
}

proof fn lemma_map_variants(
    u: LayoutGraph,
    g: LayoutGraph,
    gf: LayoutGraph,
    h: Seq<int>,
    a: VariantSet,
    b: VariantSet,
    c: VariantSet,
    n: nat,
)
    requires
        graph_maps(u, g, h),
        a.variants@.len() == b.variants@.len(),
        forall|v: int| 0 <= v < a.variants@.len() ==> {
            &&& (#[trigger] a.variants@[v]).name@ == b.variants@[v].name@
            &&& a.variants@[v].discriminant == b.variants@[v].discriminant
            &&& fields_map(a.variants@[v].fields@, b.variants@[v].fields@, h)
        },
        n <= a.variants@.len(),
        n <= c.variants@.len(),
    ensures
        variants_issues(u, gf, a.variants@, c.variants@, n) == variants_issues(g, gf, b.variants@, c.variants@, n),
    decreases n,
{
    if n > 0 {
        lemma_map_variants(u, g, gf, h, a, b, c, (n - 1) as nat);
        let x = a.variants@[n - 1];
        let y = b.variants@[n - 1];
        let z = c.variants@[n - 1];
        assert(fields_map(x.fields@, y.fields@, h));
        lemma_map_fields(u, g, gf, h, Some((n - 1) as usize), x.fields@, y.fields@, z.fields@,
            min_nat(x.fields@.len(), z.fields@.len()));
        assert(group_issues(u, gf, Some((n - 1) as usize), x.fields@, z.fields@) == group_issues(
            g,
            gf,
            Some((n - 1) as usize),
            y.fields@,
            z.fields@,
        ));
        assert(variant_issues(u, gf, n - 1, x, z) == variant_issues(g, gf, n - 1, y, z));
    }
}

proof fn lemma_map_issues(u: LayoutGraph, g: LayoutGraph, gf: LayoutGraph, h: Seq<int>, a: int, b: int)
    requires
        graph_maps(u, g, h),
        0 <= a < u.nodes@.len(),
    ensures
        node_issues(u, gf, a, b) == node_issues(g, gf, h[a], b),
{
    let x = u.nodes@[a];
    let y = g.nodes@[h[a]];
    let z = gf.nodes@[b];
    assert(layout_maps(x, y, h));
    assert(header_issues(x, z) == header_issues(y, z));
    match x.data {
        LayoutData::Record(xs) => {
            let ys = y.data->Record_0;
            if z.data is Record {
                let zs = z.data->Record_0;
                lemma_map_fields(u, g, gf, h, None, xs@, ys@, zs@, min_nat(xs@.len(), zs@.len()));
            }
        },
        LayoutData::Variants(s) => {
            let t = y.data->Variants_0;
            if z.data is Variants {
                let w = z.data->Variants_0;
                lemma_map_variants(u, g, gf, h, s, t, w, min_nat(s.variants@.len(), w.variants@.len()));
            }
        },
        _ => {},
    }
    assert(data_issues(u, gf, x, z) == data_issues(g, gf, y, z));
}

/// Cycles are checked as their unrollings: when `h` maps the nodes of `u`
/// onto nodes of `g` that describe the same layouts (so that `u` and `g`
/// unroll to the same trees, however each folds its cycles), the verdict
/// against any found layout is the same from node `e` of `u` as from node
/// `h[e]` of `g`.
pub proof fn lemma_same_unrolling_same_verdict(u: LayoutGraph, g: LayoutGraph, h: Seq<int>, gf: LayoutGraph, e: int, f: int)
    requires
        graph_maps(u, g, h),
        0 <= e < u.nodes@.len(),
    ensures
        compatible(u, gf, e, f) <==> compatible(g, gf, h[e], f),
{
    assert forall|path: Seq<PathStep>| #[trigger] reached_ok(u, gf, follow(u, gf, e, f, path))
        == reached_ok(g, gf, follow(g, gf, h[e], f, path)) by {
        lemma_map_follow(u, g, gf, h, e, f, path);
        if follow(u, gf, e, f, path) is Some {
            let p = follow(u, gf, e, f, path)->0;
            lemma_map_issues(u, g, gf, h, p.0, p.1);
        }
    }
    if compatible(u, gf, e, f) {
        assert forall|path: Seq<PathStep>| #[trigger] reached_ok(g, gf, follow(g, gf, h[e], f, path)) by {
            assert(reached_ok(u, gf, follow(u, gf, e, f, path)));
        }
    }
    if compatible(g, gf, h[e], f) {
        assert forall|path: Seq<PathStep>| #[trigger] reached_ok(u, gf, follow(u, gf, e, f, path)) by {
            assert(reached_ok(g, gf, follow(g, gf, h[e], f, path)));
        }
    }
}

/// What `child` gives in `g` for what it gives in `v`, on the found side.
pub open spec fn mapped_found(h: Seq<int>, p: Option<(int, int)>) -> Option<(int, int)> {
    match p {
        Some(q) => Some((q.0, h[q.1])),
        None => None,
    }
}

proof fn lemma_map_found_child(ge: LayoutGraph, v: LayoutGraph, g: LayoutGraph, h: Seq<int>, a: int, b: int, step: PathStep)
    requires
        graph_maps(v, g, h),
        0 <= b < v.nodes@.len(),
    ensures
        child(ge, g, a, h[b], step) == mapped_found(h, child(ge, v, a, b, step)),
        child(ge, v, a, b, step) matches Some(c) ==> 0 <= c.1 < v.nodes@.len(),
{
    assert(layout_maps(v.nodes@[b], g.nodes@[h[b]], h));
}

proof fn lemma_map_found_follow(ge: LayoutGraph, v: LayoutGraph, g: LayoutGraph, h: Seq<int>, e: int, f: int, path: Seq<PathStep>)
    requires
        graph_maps(v, g, h),
        0 <= f < v.nodes@.len(),
    ensures
        follow(ge, g, e, h[f], path) == mapped_found(h, follow(ge, v, e, f, path)),
        follow(ge, v, e, f, path) matches Some(p) ==> 0 <= p.1 < v.nodes@.len(),
    decreases path.len(),
{
    if path.len() > 0 {
        lemma_map_found_follow(ge, v, g, h, e, f, path.drop_last());
        if follow(ge, v, e, f, path.drop_last()) is Some {
            let p = follow(ge, v, e, f, path.drop_last())->0;
            lemma_map_found_child(ge, v, g, h, p.0, p.1, path.last());
        }
    }
}

proof fn lemma_map_found_fields(
    ge: LayoutGraph,
    v: LayoutGraph,
    g: LayoutGraph,
    h: Seq<int>,
    variant: Option<usize>,
    xs: Seq<Field>,
    ys: Seq<Field>,
    zs: Seq<Field>,
    n: nat,
)
    requires
        graph_maps(v, g, h),
        fields_map(ys, zs, h),
        n <= xs.len(),
        n <= ys.len(),
    ensures
        fields_issues(ge, v, variant, xs, ys, n) == fields_issues(ge, g, variant, xs, zs, n),
    decreases n,
{
    if n > 0 {
        lemma_map_found_fields(ge, v, g, h, variant, xs, ys, zs, (n - 1) as nat);
        let y = ys[n - 1];
        assert(y.layout < h.len());
        assert(layout_maps(v.nodes@[y.layout as int], g.nodes@[h[y.layout as int]], h));
        assert(field_issues(ge, v, variant, n - 1, xs[n - 1], ys[n - 1]) == field_issues(
            ge,
            g,
            variant,
            n - 1,
            xs[n - 1],
            zs[n - 1],
        ));
    }
}

proof fn lemma_map_found_variants(
    ge: LayoutGraph,
    v: LayoutGraph,
    g: LayoutGraph,
    h: Seq<int>,
    a: VariantSet,
    b: VariantSet,
    c: VariantSet,
    n: nat,
)
    requires
        graph_maps(v, g, h),
        b.variants@.len() == c.variants@.len(),
        forall|k: int| 0 <= k < b.variants@.len() ==> {
            &&& (#[trigger] b.variants@[k]).name@ == c.variants@[k].name@
            &&& b.variants@[k].discriminant == c.variants@[k].discriminant
            &&& fields_map(b.variants@[k].fields@, c.variants@[k].fields@, h)
        },
        n <= a.variants@.len(),
        n <= b.variants@.len(),
    ensures
        variants_issues(ge, v, a.variants@, b.variants@, n) == variants_issues(ge, g, a.variants@, c.variants@, n),
    decreases n,
{
    if n > 0 {
        lemma_map_found_variants(ge, v, g, h, a, b, c, (n - 1) as nat);
        let x = a.variants@[n - 1];
        let y = b.variants@[n - 1];
        let z = c.variants@[n - 1];
        assert(fields_map(y.fields@, z.fields@, h));
        lemma_map_found_fields(ge, v, g, h, Some((n - 1) as usize), x.fields@, y.fields@, z.fields@,
            min_nat(x.fields@.len(), y.fields@.len()));
        assert(group_issues(ge, v, Some((n - 1) as usize), x.fields@, y.fields@) == group_issues(
            ge,
            g,
            Some((n - 1) as usize),
            x.fields@,
            z.fields@,
        ));
        assert(variant_issues(ge, v, n - 1, x, y) == variant_issues(ge, g, n - 1, x, z));
    }
}

proof fn lemma_map_found_issues(ge: LayoutGraph, v: LayoutGraph, g: LayoutGraph, h: Seq<int>, a: int, b: int)
    requires
        graph_maps(v, g, h),
        0 <= b < v.nodes@.len(),
    ensures
        node_issues(ge, v, a, b) == node_issues(ge, g, a, h[b]),
{
    let x = ge.nodes@[a];
    let y = v.nodes@[b];
    let z = g.nodes@[h[b]];
    assert(layout_maps(y, z, h));
    assert(header_issues(x, y) == header_issues(x, z));
    match y.data {
        LayoutData::Record(ys) => {
            let zs = z.data->Record_0;
            if x.data is Record {
                let xs = x.data->Record_0;
                lemma_map_found_fields(ge, v, g, h, None, xs@, ys@, zs@, min_nat(xs@.len(), ys@.len()));
            }
        },
        LayoutData::Variants(t) => {
            let w = z.data->Variants_0;
            if x.data is Variants {
                let s0 = x.data->Variants_0;
                lemma_map_found_variants(ge, v, g, h, s0, t, w, min_nat(s0.variants@.len(), t.variants@.len()));
            }
        },
        _ => {},
    }
    assert(data_issues(ge, v, x, y) == data_issues(ge, g, x, z));
}

/// The same on the found side: when `h` maps the nodes of `v` onto nodes
/// of `g` that describe the same layouts, the verdict for any expected
/// layout is the same against node `f` of `v` as against node `h[f]` of `g`.
pub proof fn lemma_same_found_unrolling_same_verdict(
    ge: LayoutGraph,
    e: int,
    v: LayoutGraph,
    g: LayoutGraph,
    h: Seq<int>,
    f: int,
)
    requires
        graph_maps(v, g, h),
        0 <= f < v.nodes@.len(),
    ensures
        compatible(ge, v, e, f) <==> compatible(ge, g, e, h[f]),
{
    assert forall|path: Seq<PathStep>| #[trigger] reached_ok(ge, v, follow(ge, v, e, f, path))
        == reached_ok(ge, g, follow(ge, g, e, h[f], path)) by {
        lemma_map_found_follow(ge, v, g, h, e, f, path);
        if follow(ge, v, e, f, path) is Some {
            let p = follow(ge, v, e, f, path)->0;
            lemma_map_found_issues(ge, v, g, h, p.0, p.1);
        }
    }
    if compatible(ge, v, e, f) {
        assert forall|path: Seq<PathStep>| #[trigger] reached_ok(ge, g, follow(ge, g, e, h[f], path)) by {
            assert(reached_ok(ge, v, follow(ge, v, e, f, path)));
        }
    }
    if compatible(ge, g, e, h[f]) {
        assert forall|path: Seq<PathStep>| #[trigger] reached_ok(ge, v, follow(ge, v, e, f, path)) by {
            assert(reached_ok(ge, g, follow(ge, g, e, h[f], path)));
        }
    }
}

/// `y` is `x`, but for names, or `x` is a non-exhaustive variant set and `y`
/// has the same size, alignment and variants, followed by more variants.
pub open spec fn layouts_extend(x: TypeLayout, y: TypeLayout) -> bool {
    &&& x.size == y.size
    &&& x.alignment == y.alignment
    &&& x.generic_params@ == y.generic_params@
    &&& x.tag == y.tag
    &&& match x.data {
        LayoutData::Primitive(a) => y.data matches LayoutData::Primitive(b) && a == b,
        LayoutData::Record(xs) => y.data matches LayoutData::Record(ys) && fields_alike(xs@, ys@),
        LayoutData::Variants(a) => y.data matches LayoutData::Variants(b) && {
            &&& a.repr == b.repr
            &&& a.nonexhaustive == b.nonexhaustive
            &&& (a.variants@.len() == b.variants@.len() || (a.nonexhaustive
                && a.variants@.len() <= b.variants@.len()))
            &&& forall|v: int| 0 <= v < a.variants@.len() ==> {
                &&& (#[trigger] a.variants@[v]).name@ == b.variants@[v].name@
                &&& a.variants@[v].discriminant == b.variants@[v].discriminant
                &&& fields_alike(a.variants@[v].fields@, b.variants@[v].fields@)
            }
        },
        LayoutData::Opaque => y.data is Opaque,
    }
}

/// `g2` is `g1` where non-exhaustive variant sets may have gained variants
/// after their own, and names may differ.
pub open spec fn graphs_extend(g1: LayoutGraph, g2: LayoutGraph) -> bool {
    &&& g1.nodes@.len() == g2.nodes@.len()
    &&& forall|i: int| 0 <= i < g1.nodes@.len() ==> layouts_extend(#[trigger] g1.nodes@[i], g2.nodes@[i])
}

proof fn lemma_extend_child(g1: LayoutGraph, g2: LayoutGraph, a: int, step: PathStep)
    requires
        g1.wf(),
        graphs_extend(g1, g2),
        0 <= a < g1.nodes@.len(),
    ensures
        child(g1, g2, a, a, step) matches Some(c) ==> c.0 == c.1 && 0 <= c.0 < g1.nodes@.len(),
{
    assert(layouts_extend(g1.nodes@[a], g2.nodes@[a]));
    assert(layout_wf(g1.nodes@[a], g1.nodes@.len()));
}

proof fn lemma_extend_follow(g1: LayoutGraph, g2: LayoutGraph, e: int, path: Seq<PathStep>)
    requires
        g1.wf(),
        graphs_extend(g1, g2),
        0 <= e < g1.nodes@.len(),
    ensures
        follow(g1, g2, e, e, path) matches Some(p) ==> p.0 == p.1 && 0 <= p.0 < g1.nodes@.len(),
    decreases path.len(),
{
    if path.len() > 0 {
        lemma_extend_follow(g1, g2, e, path.drop_last());
        if follow(g1, g2, e, e, path.drop_last()) is Some {
            let p = follow(g1, g2, e, e, path.drop_last())->0;
            lemma_extend_child(g1, g2, p.0, path.last());
        }
    }
}

proof fn lemma_extend_no_issues(g1: LayoutGraph, g2: LayoutGraph, a: int)
    requires
        g1.wf(),
        graphs_extend(g1, g2),
        0 <= a < g1.nodes@.len(),
    ensures
        node_issues(g1, g2, a, a).len() == 0,
{
    let x = g1.nodes@[a];
    let y = g2.nodes@[a];
    assert(layouts_extend(x, y));
    assert(layout_wf(x, g1.nodes@.len()));
    assert forall|i: int| 0 <= i < g1.nodes@.len() implies (#[trigger] g1.nodes@[i]).size == g2.nodes@[i].size
        && g1.nodes@[i].alignment == g2.nodes@[i].alignment by {
        assert(layouts_extend(g1.nodes@[i], g2.nodes@[i]));
    }
    if x.tag is Some {
        lemma_tag_reflexive(x.tag->0);
    }
    assert(header_issues(x, y).len() == 0);
    match x.data {
        LayoutData::Record(xs) => {
            let ys = y.data->Record_0;
            lemma_alike_fields(g1, g2, None, xs@, ys@, xs@.len());
            assert(group_issues(g1, g2, None, xs@, ys@).len() == 0);
        },
        LayoutData::Variants(s) => {
            let t = y.data->Variants_0;
            lemma_alike_variants(g1, g2, s, t, s.variants@.len());
            assert(min_nat(s.variants@.len(), t.variants@.len()) == s.variants@.len());
            assert(variant_set_issues(g1, g2, s, t).len() == 0);
        },
        _ => {},
    }
    assert(data_issues(g1, g2, x, y).len() == 0);
}

/// A layout whose non-exhaustive variant sets gain variants after their own
/// (in the found graph, at any depth, sizes and alignments unchanged) is
/// still compatible with the layout it grew from.
pub proof fn lemma_nonexhaustive_growth_compatible(g1: LayoutGraph, g2: LayoutGraph, e: int)
    requires
        g1.wf(),
        graphs_extend(g1, g2),
        0 <= e < g1.nodes@.len(),
    ensures
        compatible(g1, g2, e, e),
{
    assert forall|path: Seq<PathStep>| #[trigger] reached_ok(g1, g2, follow(g1, g2, e, e, path)) by {
        lemma_extend_follow(g1, g2, e, path);
        if follow(g1, g2, e, e, path) is Some {
            let p = follow(g1, g2, e, e, path)->0;
            lemma_extend_no_issues(g1, g2, p.0);
        }
    }
}

/// Reflexivity: every layout is compatible with itself, and so with any
/// structurally identical copy of itself.
pub proof fn lemma_check_reflexive(g: LayoutGraph, e: int)
    requires
        g.wf(),
        0 <= e < g.nodes@.len(),
    ensures
        compatible(g, g, e, e),
{
    assert forall|i: int| 0 <= i < g.nodes@.len() implies layouts_alike(#[trigger] g.nodes@[i], g.nodes@[i]) by {
        match g.nodes@[i].data {
            LayoutData::Variants(s) => {
                assert forall|v: int| 0 <= v < s.variants@.len() implies fields_alike(
                    (#[trigger] s.variants@[v]).fields@,
                    s.variants@[v].fields@,
                ) by {}
            },
            _ => {},
        }
    }
    lemma_names_are_advisory(g, g, e);
}

/// Where a path leads to two records with different numbers of fields, the
/// check fails, with a field-count issue at that path.
pub proof fn lemma_field_count_divergence(ge: LayoutGraph, gf: LayoutGraph, e: int, f: int, path: Seq<PathStep>)
    requires
        follow(ge, gf, e, f, path) matches Some(p) && {
            &&& ge.nodes@[p.0].data matches LayoutData::Record(xs)
            &&& gf.nodes@[p.1].data matches LayoutData::Record(ys)
            &&& xs@.len() != ys@.len()
        },
    ensures
        ({
            let p = follow(ge, gf, e, f, path)->0;
            let xs = ge.nodes@[p.0].data->Record_0;
            let ys = gf.nodes@[p.1].data->Record_0;
            node_issues(ge, gf, p.0, p.1).contains(
                Issue::FieldCount { variant: None, expected: xs@.len() as usize, found: ys@.len() as usize },
            )
        }),
        !compatible(ge, gf, e, f),
{
    let p = follow(ge, gf, e, f, path)->0;
    let x = ge.nodes@[p.0];
    let y = gf.nodes@[p.1];
    let xs = x.data->Record_0;
    let ys = y.data->Record_0;
    let i = Issue::FieldCount { variant: None, expected: xs@.len() as usize, found: ys@.len() as usize };
    let g = group_issues(ge, gf, None, xs@, ys@);
    assert(g[0] == i);
    let all = node_issues(ge, gf, p.0, p.1);
    assert(all == header_issues(x, y) + g);
    assert(all[header_issues(x, y).len() as int] == i);
    assert(!reached_ok(ge, gf, follow(ge, gf, e, f, path)));
}

/// Where a path leads to two layouts of different shapes, the check fails,
/// with a shape issue at that path.
pub proof fn lemma_shape_divergence(ge: LayoutGraph, gf: LayoutGraph, e: int, f: int, path: Seq<PathStep>)
    requires
        follow(ge, gf, e, f, path) matches Some(p)
            && shape_of(ge.nodes@[p.0].data) != shape_of(gf.nodes@[p.1].data),
    ensures
        ({
            let p = follow(ge, gf, e, f, path)->0;
            node_issues(ge, gf, p.0, p.1).contains(
                Issue::Shape { expected: shape_of(ge.nodes@[p.0].data), found: shape_of(gf.nodes@[p.1].data) },
            )
        }),
        !compatible(ge, gf, e, f),
{
    let p = follow(ge, gf, e, f, path)->0;
    let x = ge.nodes@[p.0];
    let y = gf.nodes@[p.1];
    let i = Issue::Shape { expected: shape_of(x.data), found: shape_of(y.data) };
    let all = node_issues(ge, gf, p.0, p.1);
    assert(data_issues(ge, gf, x, y) == seq![i]);
    assert(all[header_issues(x, y).len() as int] == i);
    assert(!reached_ok(ge, gf, follow(ge, gf, e, f, path)));
}

proof fn lemma_variants_clean(ge: LayoutGraph, gf: LayoutGraph, x: VariantSet, y: VariantSet, n: nat)
    requires
        n <= x.variants@.len(),
        n <= y.variants@.len(),
        forall|v: int| 0 <= v < x.variants@.len() ==> (#[trigger] variant_issues(ge, gf, v, x.variants@[v], y.variants@[v])).len() == 0,
    ensures
        variants_issues(ge, gf, x.variants@, y.variants@, n).len() == 0,
    decreases n,
{
    if n > 0 {
        lemma_variants_clean(ge, gf, x, y, (n - 1) as nat);
        assert(variant_issues(ge, gf, n - 1, x.variants@[n - 1], y.variants@[n - 1]).len() == 0);
    }
}

/// A non-exhaustive variant set accepts a found set with more variants, as
/// long as the expected ones come first, in order, each compatible.
pub proof fn lemma_nonexhaustive_growth(ge: LayoutGraph, gf: LayoutGraph, x: VariantSet, y: VariantSet)
    requires
        x.nonexhaustive,
        y.nonexhaustive,
        x.repr == y.repr,
        x.variants@.len() <= y.variants@.len(),
        forall|v: int| 0 <= v < x.variants@.len() ==> (#[trigger] variant_issues(ge, gf, v, x.variants@[v], y.variants@[v])).len() == 0,
    ensures
        variant_set_issues(ge, gf, x, y).len() == 0,
{
    lemma_variants_clean(ge, gf, x, y, x.variants@.len());
    assert(min_nat(x.variants@.len(), y.variants@.len()) == x.variants@.len());
}

/// A found variant set that lacks some of the expected variants is rejected.
pub proof fn lemma_variant_removed(ge: LayoutGraph, gf: LayoutGraph, x: VariantSet, y: VariantSet)
    requires
        y.variants@.len() < x.variants@.len(),
    ensures
        variant_set_issues(ge, gf, x, y).contains(
            Issue::VariantCount { expected: x.variants@.len() as usize, found: y.variants@.len() as usize },
        ),
{
    let i = Issue::VariantCount { expected: x.variants@.len() as usize, found: y.variants@.len() as usize };
    let a = issue_if(x.repr != y.repr, Issue::DiscriminantRepr { expected: x.repr, found: y.repr })
        + issue_if(
        x.nonexhaustive != y.nonexhaustive,
        Issue::Exhaustiveness { expected: x.nonexhaustive, found: y.nonexhaustive },
    );
    assert(variant_set_issues(ge, gf, x, y)[a.len() as int] == i);
}

proof fn lemma_variants_issue_kept(ge: LayoutGraph, gf: LayoutGraph, xs: Seq<crate::type_layout::Variant>, ys: Seq<crate::type_layout::Variant>, v: int, n: nat)
    requires
        0 <= v < n,
        n <= xs.len(),
        n <= ys.len(),
        xs[v].name@ != ys[v].name@,
    ensures
        variants_issues(ge, gf, xs, ys, n).contains(Issue::VariantName { variant: v as usize }),
    decreases n,
{
    let prev = variants_issues(ge, gf, xs, ys, (n - 1) as nat);
    if v < n - 1 {
        lemma_variants_issue_kept(ge, gf, xs, ys, v, (n - 1) as nat);
        let k = choose|k: int| 0 <= k < prev.len() && prev[k] == Issue::VariantName { variant: v as usize };
        assert(variants_issues(ge, gf, xs, ys, n)[k] == prev[k]);
    } else {
        assert(variant_issues(ge, gf, v, xs[v], ys[v])[0] == Issue::VariantName { variant: v as usize });
        assert(variants_issues(ge, gf, xs, ys, n)[prev.len() as int] == Issue::VariantName { variant: v as usize });
    }
}

/// A found variant set in which a variant present on both sides stands
/// under another name at the same position (a reordering or a removal in the
/// middle) is rejected.
pub proof fn lemma_variant_reordered(ge: LayoutGraph, gf: LayoutGraph, x: VariantSet, y: VariantSet, v: int)
    requires
        0 <= v < x.variants@.len(),
        v < y.variants@.len(),
        x.variants@[v].name@ != y.variants@[v].name@,
    ensures
        variant_set_issues(ge, gf, x, y).contains(Issue::VariantName { variant: v as usize }),
{
    let n = min_nat(x.variants@.len(), y.variants@.len());
    lemma_variants_issue_kept(ge, gf, x.variants@, y.variants@, v, n);
    let tail = variants_issues(ge, gf, x.variants@, y.variants@, n);
    let all = variant_set_issues(ge, gf, x, y);
    let k = choose|k: int| 0 <= k < tail.len() && tail[k] == Issue::VariantName { variant: v as usize };
    assert(all[all.len() - tail.len() + k] == tail[k]);
}

/// Under framework major version 0, a module built with the same or a later
/// minor version is accepted and one built with an earlier minor version is
/// rejected.
pub proof fn lemma_header_minor_order(lib: AbiHeader, expected: AbiHeader)
    requires
        lib.magic_string@ == expected.magic_string@,
        lib.abi_major == 0,
        expected.abi_major == 0,
    ensures
        headers_compatible(lib, expected) <==> lib.abi_minor >= expected.abi_minor,
{
}

} // verus!
