//! The layout compatibility checker.
use vstd::prelude::*;

use crate::tagging::Tag;
use crate::type_layout::{
    Field, GenericParam, Issue, LayoutData, LayoutGraph, Shape, TypeLayout, Variant, VariantSet,
    data_issues, dimension_ok, field_issues, fields_issues, fields_wf, group_issues,
    growth_bound, header_issues, issue_if, layout_wf, min_nat, node_issues, shape_of, tags_ok,
    variant_issues, variant_set_issues, variants_issues, PathStep, child, field_child, follow,
    compatible, reached_ok,
};

verus! {

/// The integer that `layout`'s tag states under `key`, when `layout` may grow.
fn growth_bound_of(layout: &TypeLayout, key: &String) -> (r: Option<i64>)
    ensures
        match r {
            Some(n) => growth_bound(*layout, key@) == Some(n as int),
            None => growth_bound(*layout, key@) is None,
        },
{
    match &layout.data {
        LayoutData::Variants(set) => {
            if !set.nonexhaustive {
                return None;
            }
            match &layout.tag {
                Some(t) => match t.get(key) {
                    Some(Tag::Int(n)) => Some(*n),
                    _ => None,
                },
                None => None,
            }
        },
        _ => None,
    }
}

fn dimension_fits(expected: usize, found: usize, bound: Option<i64>) -> (r: bool)
    ensures
        r == dimension_ok(expected, found, match bound {
            Some(n) => Some(n as int),
            None => None,
        }),
{
    if found == expected {
        return true;
    }
    match bound {
        Some(n) => expected <= found && n >= 0 && found as u64 <= n as u64,
        None => false,
    }
}

fn params_equal(a: &Vec<GenericParam>, b: &Vec<GenericParam>) -> (r: bool)
    ensures
        r == (a@ == b@),
{
    if a.len() != b.len() {
        return false;
    }
    let mut i: usize = 0;
    while i < a.len()
        invariant
            i <= a@.len(),
            a@.len() == b@.len(),
            forall|j: int| 0 <= j < i ==> a@[j] == b@[j],
        decreases a.len() - i,
    {
        if a[i] != b[i] {
            return false;
        }
        i = i + 1;
    }
    assert(a@ =~= b@);
    true
}

fn lifetimes_equal(a: &Vec<u32>, b: &Vec<u32>) -> (r: bool)
    ensures
        r == (a@ == b@),
{
    if a.len() != b.len() {
        return false;
    }
    let mut i: usize = 0;
    while i < a.len()
        invariant
            i <= a@.len(),
            a@.len() == b@.len(),
            forall|j: int| 0 <= j < i ==> a@[j] == b@[j],
        decreases a.len() - i,
    {
        if a[i] != b[i] {
            return false;
        }
        i = i + 1;
    }
    assert(a@ =~= b@);
    true
}

fn tags_satisfied(expected: &Option<Tag>, found: &Option<Tag>) -> (r: bool)
    ensures
        r == tags_ok(*expected, *found),
{
    match expected {
        None => true,
        Some(t) => match found {
            Some(u) => Tag::is_compatible(t, u),
            None => false,
        },
    }
}

fn push_if(out: &mut Vec<Issue>, c: bool, i: Issue)
    ensures
        final(out)@ == old(out)@ + issue_if(c, i),
{
    if c {
        out.push(i);
    } else {
        assert(old(out)@ + issue_if(c, i) =~= old(out)@);
    }
}

fn push_header_issues(x: &TypeLayout, y: &TypeLayout, out: &mut Vec<Issue>)
    ensures
        final(out)@ == old(out)@ + header_issues(*x, *y),
{
    let ghost start = out@;
    let size_key = String::from_str("max_size");
    let align_key = String::from_str("max_align");
    proof {
        reveal_strlit("max_size");
        reveal_strlit("max_align");
    }
    let size_ok = dimension_fits(x.size, y.size, growth_bound_of(x, &size_key));
    push_if(out, !size_ok, Issue::Size { expected: x.size, found: y.size });
    let align_ok = dimension_fits(x.alignment, y.alignment, growth_bound_of(x, &align_key));
    push_if(out, !align_ok, Issue::Alignment { expected: x.alignment, found: y.alignment });
    let same_params = params_equal(&x.generic_params, &y.generic_params);
    push_if(
        out,
        !same_params,
        Issue::GenericParams { expected: x.generic_params.len(), found: y.generic_params.len() },
    );
    let tag_ok = tags_satisfied(&x.tag, &y.tag);
    push_if(out, !tag_ok, Issue::Tag);
    assert(out@ =~= start + header_issues(*x, *y));
}

fn push_group_issues(
    ge: &LayoutGraph,
    gf: &LayoutGraph,
    variant: Option<usize>,
    xs: &Vec<Field>,
    ys: &Vec<Field>,
    out: &mut Vec<Issue>,
)
    requires
        fields_wf(xs@, ge.nodes@.len()),
        fields_wf(ys@, gf.nodes@.len()),
    ensures
        final(out)@ == old(out)@ + group_issues(*ge, *gf, variant, xs@, ys@),
{
    let ghost start = out@;
    push_if(
        out,
        xs.len() != ys.len(),
        Issue::FieldCount { variant, expected: xs.len(), found: ys.len() },
    );
    let ghost counted = out@;
    let n = if xs.len() <= ys.len() { xs.len() } else { ys.len() };
    let mut k: usize = 0;
    while k < n
        invariant
            k <= n,
            n == min_nat(xs@.len(), ys@.len()),
            fields_wf(xs@, ge.nodes@.len()),
            fields_wf(ys@, gf.nodes@.len()),
            out@ == counted + fields_issues(*ge, *gf, variant, xs@, ys@, k as nat),
        decreases n - k,
    {
        let ghost before = out@;
        let x = &xs[k];
        let y = &ys[k];
        assert(x.layout < ge.nodes@.len());
        assert(y.layout < gf.nodes@.len());
        let differs = x.layout_only && (ge.nodes[x.layout].size != gf.nodes[y.layout].size
            || ge.nodes[x.layout].alignment != gf.nodes[y.layout].alignment);
        push_if(out, differs, Issue::FieldLayout { variant, field: k });
        let same_lifetimes = lifetimes_equal(&x.lifetimes, &y.lifetimes);
        push_if(out, !same_lifetimes, Issue::FieldLifetimes { variant, field: k });
        assert(out@ =~= before + field_issues(*ge, *gf, variant, k as int, xs@[k as int], ys@[k as int]));
        assert(fields_issues(*ge, *gf, variant, xs@, ys@, (k + 1) as nat) =~= fields_issues(
            *ge,
            *gf,
            variant,
            xs@,
            ys@,
            k as nat,
        ) + field_issues(*ge, *gf, variant, k as int, xs@[k as int], ys@[k as int]));
        k = k + 1;
    }
    assert(out@ =~= start + group_issues(*ge, *gf, variant, xs@, ys@));
}

fn push_variant_issues(ge: &LayoutGraph, gf: &LayoutGraph, k: usize, a: &Variant, b: &Variant, out: &mut Vec<Issue>)
    requires
        fields_wf(a.fields@, ge.nodes@.len()),
        fields_wf(b.fields@, gf.nodes@.len()),
    ensures
        final(out)@ == old(out)@ + variant_issues(*ge, *gf, k as int, *a, *b),
{
    let ghost before = out@;
    push_if(out, a.name != b.name, Issue::VariantName { variant: k });
    push_if(out, a.discriminant != b.discriminant, Issue::Discriminant { variant: k });
    push_group_issues(ge, gf, Some(k), &a.fields, &b.fields, out);
    assert(out@ =~= before + variant_issues(*ge, *gf, k as int, *a, *b));
}

#[verifier::rlimit(40)]
fn push_variant_set_issues(
    ge: &LayoutGraph,
    gf: &LayoutGraph,
    x: &VariantSet,
    y: &VariantSet,
    out: &mut Vec<Issue>,
)
    requires
        forall|j: int| 0 <= j < x.variants@.len() ==> fields_wf((#[trigger] x.variants@[j]).fields@, ge.nodes@.len()),
        forall|j: int| 0 <= j < y.variants@.len() ==> fields_wf((#[trigger] y.variants@[j]).fields@, gf.nodes@.len()),
    ensures
        final(out)@ == old(out)@ + variant_set_issues(*ge, *gf, *x, *y),
{
    let ghost start = out@;
    push_if(out, x.repr != y.repr, Issue::DiscriminantRepr { expected: x.repr, found: y.repr });
    push_if(
        out,
        x.nonexhaustive != y.nonexhaustive,
        Issue::Exhaustiveness { expected: x.nonexhaustive, found: y.nonexhaustive },
    );
    let count_ok = if x.nonexhaustive {
        y.variants.len() >= x.variants.len()
    } else {
        y.variants.len() == x.variants.len()
    };
    push_if(
        out,
        !count_ok,
        Issue::VariantCount { expected: x.variants.len(), found: y.variants.len() },
    );
    let ghost counted = out@;
    let n = if x.variants.len() <= y.variants.len() { x.variants.len() } else { y.variants.len() };
    let mut k: usize = 0;
    while k < n
        invariant
            k <= n,
            n == min_nat(x.variants@.len(), y.variants@.len()),
            forall|j: int| 0 <= j < x.variants@.len() ==> fields_wf((#[trigger] x.variants@[j]).fields@, ge.nodes@.len()),
            forall|j: int| 0 <= j < y.variants@.len() ==> fields_wf((#[trigger] y.variants@[j]).fields@, gf.nodes@.len()),
            out@ == counted + variants_issues(*ge, *gf, x.variants@, y.variants@, k as nat),
        decreases n - k,
    {
        let a = &x.variants[k];
        let b = &y.variants[k];
        assert(fields_wf(a.fields@, ge.nodes@.len()));
        assert(fields_wf(b.fields@, gf.nodes@.len()));
        push_variant_issues(ge, gf, k, a, b, out);
        assert(variants_issues(*ge, *gf, x.variants@, y.variants@, (k + 1) as nat) =~= variants_issues(
            *ge,
            *gf,
            x.variants@,
            y.variants@,
            k as nat,
        ) + variant_issues(*ge, *gf, k as int, x.variants@[k as int], y.variants@[k as int]));
        k = k + 1;
    }
    assert(out@ =~= start + variant_set_issues(*ge, *gf, *x, *y));
}

fn shape(data: &LayoutData) -> (r: Shape)
    ensures
        r == shape_of(*data),
{
    match data {
        LayoutData::Primitive(_) => Shape::Primitive,
        LayoutData::Record(_) => Shape::Record,
        LayoutData::Variants(_) => Shape::Variants,
        LayoutData::Opaque => Shape::Opaque,
    }
}

fn push_data_issues(ge: &LayoutGraph, gf: &LayoutGraph, x: &TypeLayout, y: &TypeLayout, out: &mut Vec<Issue>)
    requires
        layout_wf(*x, ge.nodes@.len()),
        layout_wf(*y, gf.nodes@.len()),
    ensures
        final(out)@ == old(out)@ + data_issues(*ge, *gf, *x, *y),
{
    let ghost start = out@;
    let mismatch = Issue::Shape { expected: shape(&x.data), found: shape(&y.data) };
    match &x.data {
        LayoutData::Primitive(a) => match &y.data {
            LayoutData::Primitive(b) => {
                push_if(out, *a != *b, Issue::Primitive { expected: *a, found: *b });
            },
            _ => {
                out.push(mismatch);
            },
        },
        LayoutData::Record(xs) => match &y.data {
            LayoutData::Record(ys) => {
                push_group_issues(ge, gf, None, xs, ys, out);
            },
            _ => {
                out.push(mismatch);
            },
        },
        LayoutData::Variants(a) => match &y.data {
            LayoutData::Variants(b) => {
                push_variant_set_issues(ge, gf, a, b, out);
            },
            _ => {
                out.push(mismatch);
            },
        },
        LayoutData::Opaque => match &y.data {
            LayoutData::Opaque => {},
            _ => {
                out.push(mismatch);
            },
        },
    }
    assert(out@ =~= start + data_issues(*ge, *gf, *x, *y));
}

/// Every issue between node `e` of `expected` and node `f` of `found`, that
/// is, every way in which the two layouts differ before their fields' own
/// layouts are looked at.
pub fn layout_issues(expected: &LayoutGraph, e: usize, found: &LayoutGraph, f: usize) -> (r: Vec<Issue>)
    requires
        expected.wf(),
        found.wf(),
        e < expected.nodes@.len(),
        f < found.nodes@.len(),
    ensures
        r@ == node_issues(*expected, *found, e as int, f as int),
{
    let mut out: Vec<Issue> = Vec::new();
    let x = &expected.nodes[e];
    let y = &found.nodes[f];
    push_header_issues(x, y, &mut out);
    assert(layout_wf(*x, expected.nodes@.len()));
    assert(layout_wf(*y, found.nodes@.len()));
    push_data_issues(expected, found, x, y, &mut out);
    assert(out@ =~= node_issues(*expected, *found, e as int, f as int));
    out
}

/// One issue found while checking, with the path from the two roots to the
/// pair of layouts where it was found.
#[derive(Debug)]
pub struct Finding {
    pub path: Vec<PathStep>,
    pub issue: Issue,
}

/// Why two layouts are incompatible. It owns all its data, so it stays
/// printable after the module whose layout was checked has gone away.
#[derive(Debug)]
pub struct Report {
    pub expected_name: String,
    pub found_name: String,
    pub findings: Vec<Finding>,
}

/// `finding` names an issue of the pair of layouts that its path leads to
/// from the roots `e` and `f`.
pub open spec fn finding_holds(ge: LayoutGraph, gf: LayoutGraph, e: int, f: int, finding: Finding) -> bool {
    &&& follow(ge, gf, e, f, finding.path@) matches Some(p)
    &&& node_issues(ge, gf, p.0, p.1).contains(finding.issue)
}

/// `findings` begins with every issue of the two roots, in order, each with
/// the empty path.
pub open spec fn root_issues_first(ge: LayoutGraph, gf: LayoutGraph, e: int, f: int, findings: Seq<Finding>) -> bool {
    let root = node_issues(ge, gf, e, f);
    &&& findings.len() >= root.len()
    &&& forall|k: int| 0 <= k < root.len() ==> (#[trigger] findings[k]).path@.len() == 0 && findings[k].issue == root[k]
}

/// Some finding of `findings` names issue `i` with a path leading to `p`.
pub open spec fn reported(ge: LayoutGraph, gf: LayoutGraph, e: int, f: int, findings: Seq<Finding>, p: (int, int), i: Issue) -> bool {
    exists|k: int| 0 <= k < findings.len() && follow(ge, gf, e, f, (#[trigger] findings[k]).path@) == Some(p)
        && findings[k].issue == i
}

/// Every issue of the pair `p` is reported in `findings`.
pub open spec fn pair_reported(ge: LayoutGraph, gf: LayoutGraph, e: int, f: int, findings: Seq<Finding>, p: (int, int)) -> bool {
    forall|j: int| 0 <= j < node_issues(ge, gf, p.0, p.1).len()
        ==> #[trigger] reported(ge, gf, e, f, findings, p, node_issues(ge, gf, p.0, p.1)[j])
}

/// `findings` is complete: every issue of every pair of layouts reached
/// from the roots, through any path, is reported at a path leading to that
/// pair.
pub open spec fn report_complete(ge: LayoutGraph, gf: LayoutGraph, e: int, f: int, findings: Seq<Finding>) -> bool {
    forall|path: Seq<PathStep>| (#[trigger] follow(ge, gf, e, f, path)) is Some
        ==> pair_reported(ge, gf, e, f, findings, follow(ge, gf, e, f, path)->0)
}

/// What a report of an incompatibility between node `e` of `ge` and node
/// `f` of `gf` holds: the two roots' names, at least one finding, only
/// findings that hold, every issue of every reached pair, and the roots'
/// own issues first.
pub open spec fn report_describes(ge: LayoutGraph, gf: LayoutGraph, e: int, f: int, rep: Report) -> bool {
    &&& rep.expected_name@ == ge.nodes@[e].name@
    &&& rep.found_name@ == gf.nodes@[f].name@
    &&& rep.findings@.len() > 0
    &&& forall|k: int| 0 <= k < rep.findings@.len() ==> finding_holds(ge, gf, e, f, #[trigger] rep.findings@[k])
    &&& root_issues_first(ge, gf, e, f, rep.findings@)
    &&& report_complete(ge, gf, e, f, rep.findings@)
}

proof fn lemma_pair_reported_grows(
    ge: LayoutGraph,
    gf: LayoutGraph,
    e: int,
    f: int,
    f1: Seq<Finding>,
    f2: Seq<Finding>,
    p: (int, int),
)
    requires
        f1.len() <= f2.len(),
        f2.subrange(0, f1.len() as int) == f1,
        pair_reported(ge, gf, e, f, f1, p),
    ensures
        pair_reported(ge, gf, e, f, f2, p),
{
    assert forall|j: int| 0 <= j < node_issues(ge, gf, p.0, p.1).len()
        implies #[trigger] reported(ge, gf, e, f, f2, p, node_issues(ge, gf, p.0, p.1)[j]) by {
        let i = node_issues(ge, gf, p.0, p.1)[j];
        assert(reported(ge, gf, e, f, f1, p, i));
        let k = choose|k: int| 0 <= k < f1.len() && follow(ge, gf, e, f, (#[trigger] f1[k]).path@) == Some(p)
            && f1[k].issue == i;
        assert(f2[k] == f2.subrange(0, f1.len() as int)[k]);
    }
}

/// A pending pair of the traversal: in range, and reached by its path.
pub open spec fn entry_ok(ge: LayoutGraph, gf: LayoutGraph, e: int, f: int, entry: (usize, usize, Vec<PathStep>)) -> bool {
    &&& entry.0 < ge.nodes@.len()
    &&& entry.1 < gf.nodes@.len()
    &&& follow(ge, gf, e, f, entry.2@) == Some((entry.0 as int, entry.1 as int))
}

pub open spec fn in_stack(st: Seq<(usize, usize, Vec<PathStep>)>, c: (int, int)) -> bool {
    exists|k: int| 0 <= k < st.len() && (#[trigger] st[k]).0 == c.0 && st[k].1 == c.1
}

/// The slot of the pair `(a, b)` in a row-major matrix with `nf` columns.
pub open spec fn slot(nf: int, a: int, b: int) -> int {
    a * nf + b
}

pub open spec fn seen(v: Seq<bool>, nf: int, a: int, b: int) -> bool {
    v[slot(nf, a, b)]
}

pub open spec fn count_false(v: Seq<bool>) -> nat
    decreases v.len(),
{
    if v.len() == 0 {
        0
    } else {
        count_false(v.drop_last()) + if v.last() { 0nat } else { 1nat }
    }
}

proof fn lemma_count_false_update(v: Seq<bool>, i: int)
    requires
        0 <= i < v.len(),
        !v[i],
    ensures
        count_false(v.update(i, true)) + 1 == count_false(v),
    decreases v.len(),
{
    let w = v.update(i, true);
    if i < v.len() - 1 {
        assert(w.drop_last() =~= v.drop_last().update(i, true));
        lemma_count_false_update(v.drop_last(), i);
    } else {
        assert(w.drop_last() =~= v.drop_last());
    }
}

proof fn lemma_slot_bounds(ne: int, nf: int, a: int, b: int)
    requires
        0 <= a < ne,
        0 <= b < nf,
    ensures
        0 <= slot(nf, a, b) < ne * nf,
{
    assert(a * nf + b < ne * nf) by (nonlinear_arith)
        requires 0 <= a < ne, 0 <= b < nf;
    assert(0 <= a * nf) by (nonlinear_arith)
        requires 0 <= a, 0 <= nf;
}

proof fn lemma_slot_injective(nf: int, a: int, b: int, c: int, d: int)
    requires
        0 <= a,
        0 <= c,
        0 <= b < nf,
        0 <= d < nf,
        slot(nf, a, b) == slot(nf, c, d),
    ensures
        a == c && b == d,
{
    if a < c {
        assert(a * nf + nf <= c * nf) by (nonlinear_arith)
            requires a < c, 0 <= nf;
    } else if c < a {
        assert(c * nf + nf <= a * nf) by (nonlinear_arith)
            requires c < a, 0 <= nf;
    }
}

/// A pair that lies in a set closed under `child` leads only to pairs of
/// that set.
proof fn lemma_closed_follow(ge: LayoutGraph, gf: LayoutGraph, e: int, f: int, s: Set<(int, int)>, path: Seq<PathStep>)
    requires
        s.contains((e, f)),
        forall|p: (int, int), step: PathStep| s.contains(p) && (#[trigger] child(ge, gf, p.0, p.1, step)) is Some
            ==> s.contains(child(ge, gf, p.0, p.1, step)->0),
    ensures
        follow(ge, gf, e, f, path) matches Some(q) ==> s.contains(q),
    decreases path.len(),
{
    if path.len() > 0 {
        lemma_closed_follow(ge, gf, e, f, s, path.drop_last());
    }
}

proof fn lemma_child_in_range(ge: LayoutGraph, gf: LayoutGraph, a: int, b: int, step: PathStep)
    requires
        ge.wf(),
        gf.wf(),
        0 <= a < ge.nodes@.len(),
        0 <= b < gf.nodes@.len(),
    ensures
        child(ge, gf, a, b, step) matches Some(c) ==> 0 <= c.0 < ge.nodes@.len() && 0 <= c.1 < gf.nodes@.len(),
{
    assert(layout_wf(ge.nodes@[a], ge.nodes@.len()));
    assert(layout_wf(gf.nodes@[b], gf.nodes@.len()));
}

fn copy_path(path: &Vec<PathStep>) -> (r: Vec<PathStep>)
    ensures
        r@ == path@,
{
    let mut r: Vec<PathStep> = Vec::new();
    let mut i: usize = 0;
    while i < path.len()
        invariant
            i <= path@.len(),
            r@ == path@.subrange(0, i as int),
        decreases path.len() - i,
    {
        r.push(path[i]);
        i = i + 1;
        assert(r@ =~= path@.subrange(0, i as int));
    }
    assert(path@.subrange(0, path@.len() as int) =~= path@);
    r
}

pub open spec fn step_for(variant: Option<usize>, k: int) -> PathStep {
    match variant {
        None => PathStep::Field { field: k as usize },
        Some(v) => PathStep::VariantField { variant: v, field: k as usize },
    }
}

/// Pushes the pairs of layouts of the structurally compared fields shared by
/// `xs` and `ys`, the field lists of the pair `(a, b)`.
#[verifier::loop_isolation(false)]
fn push_field_children(
    Ghost(ge): Ghost<LayoutGraph>,
    Ghost(gf): Ghost<LayoutGraph>,
    Ghost(e): Ghost<int>,
    Ghost(f): Ghost<int>,
    a: usize,
    b: usize,
    variant: Option<usize>,
    xs: &Vec<Field>,
    ys: &Vec<Field>,
    path: &Vec<PathStep>,
    stack: &mut Vec<(usize, usize, Vec<PathStep>)>,
)
    requires
        fields_wf(xs@, ge.nodes@.len()),
        fields_wf(ys@, gf.nodes@.len()),
        follow(ge, gf, e, f, path@) == Some((a as int, b as int)),
        forall|k: int| 0 <= k < xs@.len() ==> child(ge, gf, a as int, b as int, #[trigger] step_for(variant, k))
            == field_child(xs@, ys@, k),
        forall|k: int| 0 <= k < old(stack)@.len() ==> #[trigger] entry_ok(ge, gf, e, f, old(stack)@[k]),
    ensures
        final(stack)@.len() >= old(stack)@.len(),
        final(stack)@.subrange(0, old(stack)@.len() as int) == old(stack)@,
        forall|k: int| 0 <= k < final(stack)@.len() ==> #[trigger] entry_ok(ge, gf, e, f, final(stack)@[k]),
        forall|k: int| 0 <= k < xs@.len() && (#[trigger] field_child(xs@, ys@, k)) is Some
            ==> in_stack(final(stack)@, field_child(xs@, ys@, k)->0),
{
    let ghost start = stack@;
    let n = if xs.len() <= ys.len() { xs.len() } else { ys.len() };
    let mut k: usize = 0;
    while k < n
        invariant
            k <= n,
            n <= xs@.len(),
            n <= ys@.len(),
            n == xs@.len() || n == ys@.len(),
            stack@.len() >= start.len(),
            stack@.subrange(0, start.len() as int) == start,
            forall|j: int| 0 <= j < stack@.len() ==> #[trigger] entry_ok(ge, gf, e, f, stack@[j]),
            forall|j: int| 0 <= j < k && (#[trigger] field_child(xs@, ys@, j)) is Some
                ==> in_stack(stack@, field_child(xs@, ys@, j)->0),
        decreases n - k,
    {
        if !xs[k].layout_only {
            let step = match variant {
                None => PathStep::Field { field: k },
                Some(v) => PathStep::VariantField { variant: v, field: k },
            };
            let mut next = copy_path(path);
            next.push(step);
            let ghost old_stack = stack@;
            assert(step == step_for(variant, k as int));
            assert(next@.drop_last() =~= path@);
            assert(xs@[k as int].layout < ge.nodes@.len());
            assert(ys@[k as int].layout < gf.nodes@.len());
            stack.push((xs[k].layout, ys[k].layout, next));
            assert(entry_ok(ge, gf, e, f, stack@[stack@.len() - 1]));
            assert forall|j: int| 0 <= j < k + 1 && (#[trigger] field_child(xs@, ys@, j)) is Some
                implies in_stack(stack@, field_child(xs@, ys@, j)->0) by {
                if j < k {
                    let i = choose|i: int| 0 <= i < old_stack.len() && (#[trigger] old_stack[i]).0 == (field_child(xs@, ys@, j)->0).0
                        && old_stack[i].1 == (field_child(xs@, ys@, j)->0).1;
                    assert(stack@[i] == old_stack[i]);
                } else {
                    assert(stack@[stack@.len() - 1].0 == (field_child(xs@, ys@, j)->0).0);
                }
            }
            assert(stack@.subrange(0, start.len() as int) =~= start) by {
                assert(stack@.subrange(0, start.len() as int) =~= old_stack.subrange(0, start.len() as int));
            }
        }
        k = k + 1;
    }
}

proof fn lemma_in_stack_grows(st1: Seq<(usize, usize, Vec<PathStep>)>, st2: Seq<(usize, usize, Vec<PathStep>)>, c: (int, int))
    requires
        st2.len() >= st1.len(),
        st2.subrange(0, st1.len() as int) == st1,
        in_stack(st1, c),
    ensures
        in_stack(st2, c),
{
    let i = choose|i: int| 0 <= i < st1.len() && (#[trigger] st1[i]).0 == c.0 && st1[i].1 == c.1;
    assert(st2[i] == st2.subrange(0, st1.len() as int)[i]);
}

/// `step` goes into a variant of index below `v`.
pub open spec fn variant_below(step: PathStep, v: int) -> bool {
    step matches PathStep::VariantField { variant, .. } && variant < v
}

/// Pushes every pair of layouts that one step leads to from the pair `(a, b)`.
fn push_children(
    Ghost(e): Ghost<int>,
    Ghost(f): Ghost<int>,
    ge: &LayoutGraph,
    gf: &LayoutGraph,
    a: usize,
    b: usize,
    path: &Vec<PathStep>,
    stack: &mut Vec<(usize, usize, Vec<PathStep>)>,
)
    requires
        ge.wf(),
        gf.wf(),
        a < ge.nodes@.len(),
        b < gf.nodes@.len(),
        follow(*ge, *gf, e, f, path@) == Some((a as int, b as int)),
        forall|k: int| 0 <= k < old(stack)@.len() ==> #[trigger] entry_ok(*ge, *gf, e, f, old(stack)@[k]),
    ensures
        final(stack)@.len() >= old(stack)@.len(),
        final(stack)@.subrange(0, old(stack)@.len() as int) == old(stack)@,
        forall|k: int| 0 <= k < final(stack)@.len() ==> #[trigger] entry_ok(*ge, *gf, e, f, final(stack)@[k]),
        forall|step: PathStep| (#[trigger] child(*ge, *gf, a as int, b as int, step)) is Some
            ==> in_stack(final(stack)@, child(*ge, *gf, a as int, b as int, step)->0),
{
    let ghost start = stack@;
    assert(layout_wf(ge.nodes@[a as int], ge.nodes@.len()));
    assert(layout_wf(gf.nodes@[b as int], gf.nodes@.len()));
    match &ge.nodes[a].data {
        LayoutData::Record(xs) => match &gf.nodes[b].data {
            LayoutData::Record(ys) => {
                let xn = xs.len();
                assert forall|k: int| 0 <= k < xs@.len() implies child(*ge, *gf, a as int, b as int, #[trigger] step_for(None, k))
                    == field_child(xs@, ys@, k) by {
                    assert(k < xn);
                    assert((k as usize) as int == k);
                }
                push_field_children(Ghost(*ge), Ghost(*gf), Ghost(e), Ghost(f), a, b, None, xs, ys, path, stack);
                assert forall|step: PathStep| (#[trigger] child(*ge, *gf, a as int, b as int, step)) is Some
                    implies in_stack(stack@, child(*ge, *gf, a as int, b as int, step)->0) by {
                    match step {
                        PathStep::Field { field } => {
                            assert(step == step_for(None, field as int));
                        },
                        PathStep::VariantField { variant, field } => {},
                    }
                }
            },
            _ => {},
        },
        LayoutData::Variants(x) => match &gf.nodes[b].data {
            LayoutData::Variants(y) => {
                let n = if x.variants.len() <= y.variants.len() { x.variants.len() } else { y.variants.len() };
                let mut v: usize = 0;
                while v < n
                    invariant
                        v <= n,
                        n <= x.variants@.len(),
                        n <= y.variants@.len(),
                        n == x.variants@.len() || n == y.variants@.len(),
                        ge.nodes@[a as int].data == LayoutData::Variants(*x),
                        gf.nodes@[b as int].data == LayoutData::Variants(*y),
                        layout_wf(ge.nodes@[a as int], ge.nodes@.len()),
                        layout_wf(gf.nodes@[b as int], gf.nodes@.len()),
                        follow(*ge, *gf, e, f, path@) == Some((a as int, b as int)),
                        stack@.len() >= start.len(),
                        stack@.subrange(0, start.len() as int) == start,
                        forall|k: int| 0 <= k < stack@.len() ==> #[trigger] entry_ok(*ge, *gf, e, f, stack@[k]),
                        forall|step: PathStep| (#[trigger] child(*ge, *gf, a as int, b as int, step)) is Some
                            && variant_below(step, v as int)
                            ==> in_stack(stack@, child(*ge, *gf, a as int, b as int, step)->0),
                    decreases n - v,
                {
                    let ghost before = stack@;
                    let xs = &x.variants[v].fields;
                    let ys = &y.variants[v].fields;
                    assert(fields_wf(xs@, ge.nodes@.len()));
                    assert(fields_wf(ys@, gf.nodes@.len()));
                    let xn = xs.len();
                    assert forall|k: int| 0 <= k < xs@.len() implies child(*ge, *gf, a as int, b as int, #[trigger] step_for(Some(v), k))
                        == field_child(xs@, ys@, k) by {
                        assert(k < xn);
                        assert((k as usize) as int == k);
                    }
                    push_field_children(Ghost(*ge), Ghost(*gf), Ghost(e), Ghost(f), a, b, Some(v), xs, ys, path, stack);
                    assert forall|step: PathStep| (#[trigger] child(*ge, *gf, a as int, b as int, step)) is Some
                        && variant_below(step, v + 1)
                        implies in_stack(stack@, child(*ge, *gf, a as int, b as int, step)->0) by {
                        match step {
                            PathStep::VariantField { variant, field } => {
                                if variant < v {
                                    lemma_in_stack_grows(before, stack@, child(*ge, *gf, a as int, b as int, step)->0);
                                } else {
                                    assert(step == step_for(Some(v), field as int));
                                }
                            },
                            _ => {},
                        }
                    }
                    assert(stack@.subrange(0, start.len() as int) =~= start) by {
                        assert(stack@.subrange(0, start.len() as int) =~= before.subrange(0, start.len() as int));
                    }
                    v = v + 1;
                }
            },
            _ => {},
        },
        _ => {},
    }
}

proof fn lemma_seen_update(v: Seq<bool>, ne: int, nf: int, a: int, b: int)
    requires
        v.len() == ne * nf,
        0 <= a < ne,
        0 <= b < nf,
    ensures
        forall|c: int, d: int| 0 <= c < ne && 0 <= d < nf ==> #[trigger] seen(v.update(slot(nf, a, b), true), nf, c, d)
            == (seen(v, nf, c, d) || (c == a && d == b)),
{
    lemma_slot_bounds(ne, nf, a, b);
    assert forall|c: int, d: int| 0 <= c < ne && 0 <= d < nf implies #[trigger] seen(v.update(slot(nf, a, b), true), nf, c, d)
        == (seen(v, nf, c, d) || (c == a && d == b)) by {
        lemma_slot_bounds(ne, nf, c, d);
        if slot(nf, c, d) == slot(nf, a, b) {
            lemma_slot_injective(nf, a, b, c, d);
        }
    }
}

/// Checks that node `f` of `found` can stand where node `e` of `expected` is
/// expected: `Ok` exactly when no pair of layouts reached from the two by
/// following fields, through cycles too, has an issue. Otherwise the report
/// holds every issue of every pair it compared, each with the path that
/// leads to it, beginning with the issues of the two roots. Each pair of
/// nodes is compared at most once, so the check ends on cyclic graphs; the
/// pairs already compared are kept in a matrix with one cell per pair, which
/// must fit in the address space.
pub fn check_layout_compatibility(expected: &LayoutGraph, e: usize, found: &LayoutGraph, f: usize) -> (r: Result<(), Report>)
    requires
        expected.wf(),
        found.wf(),
        e < expected.nodes@.len(),
        f < found.nodes@.len(),
        expected.nodes@.len() * found.nodes@.len() <= usize::MAX,
    ensures
        r is Ok <==> compatible(*expected, *found, e as int, f as int),
        r matches Err(rep) ==> {
            &&& report_describes(*expected, *found, e as int, f as int, rep)
        },
{
    let ghost ge = *expected;
    let ghost gf = *found;
    let ne = expected.nodes.len();
    let nf = found.nodes.len();
    let total = ne * nf;
    let mut visited: Vec<bool> = Vec::new();
    let mut i: usize = 0;
    while i < total
        invariant
            i <= total,
            visited@.len() == i,
            forall|j: int| 0 <= j < i ==> !visited@[j],
        decreases total - i,
    {
        visited.push(false);
        i = i + 1;
    }
    proof {
        lemma_slot_bounds(ne as int, nf as int, e as int, f as int);
    }
    let mut stack: Vec<(usize, usize, Vec<PathStep>)> = Vec::new();
    let root_path: Vec<PathStep> = Vec::new();
    assert(follow(ge, gf, e as int, f as int, root_path@) == Some((e as int, f as int)));
    stack.push((e, f, root_path));
    let mut findings: Vec<Finding> = Vec::new();
    assert forall|a: int, b: int| 0 <= a < ne && 0 <= b < nf implies !#[trigger] seen(visited@, nf as int, a, b) by {
        lemma_slot_bounds(ne as int, nf as int, a, b);
    }
    while stack.len() > 0
        invariant
            ge == *expected,
            gf == *found,
            ne == expected.nodes@.len(),
            nf == found.nodes@.len(),
            total == ne * nf,
            visited@.len() == total,
            expected.wf(),
            found.wf(),
            e < ne,
            f < nf,
            forall|k: int| 0 <= k < stack@.len() ==> #[trigger] entry_ok(ge, gf, e as int, f as int, stack@[k]),
            forall|k: int| 0 <= k < findings@.len() ==> #[trigger] finding_holds(ge, gf, e as int, f as int, findings@[k]),
            findings@.len() == 0 ==> forall|a: int, b: int| 0 <= a < ne && 0 <= b < nf
                && #[trigger] seen(visited@, nf as int, a, b) ==> node_issues(ge, gf, a, b).len() == 0,
            forall|a: int, b: int, step: PathStep| 0 <= a < ne && 0 <= b < nf && seen(visited@, nf as int, a, b)
                && (#[trigger] child(ge, gf, a, b, step)) is Some ==> {
                    let c = child(ge, gf, a, b, step)->0;
                    seen(visited@, nf as int, c.0, c.1) || in_stack(stack@, c)
                },
            seen(visited@, nf as int, e as int, f as int) || (stack@.len() > 0 && stack@[0].0 == e && stack@[0].1 == f),
            !seen(visited@, nf as int, e as int, f as int) ==> findings@.len() == 0 && stack@.len() == 1
                && stack@[0].2@.len() == 0,
            seen(visited@, nf as int, e as int, f as int) ==> root_issues_first(ge, gf, e as int, f as int, findings@),
            forall|a: int, b: int| 0 <= a < ne && 0 <= b < nf && #[trigger] seen(visited@, nf as int, a, b)
                ==> pair_reported(ge, gf, e as int, f as int, findings@, (a, b)),
        decreases count_false(visited@), stack@.len(),
    {
        let ghost old_visited = visited@;
        let ghost old_stack = stack@;
        let ghost old_findings = findings@;
        let (a, b, path) = stack.pop().unwrap();
        assert(old_stack[old_stack.len() - 1] == (a, b, path));
        assert(entry_ok(ge, gf, e as int, f as int, old_stack[old_stack.len() - 1]));
        assert(stack@ =~= old_stack.subrange(0, old_stack.len() - 1));
        proof {
            lemma_slot_bounds(ne as int, nf as int, a as int, b as int);
            assert(0 <= a * nf <= a * nf + b) by (nonlinear_arith)
                requires 0 <= a, 0 <= nf, 0 <= b;
        }
        let idx = a * nf + b;
        assert(idx == slot(nf as int, a as int, b as int));
        if !visited[idx] {
            visited.set(idx, true);
            proof {
                lemma_count_false_update(old_visited, idx as int);
                lemma_seen_update(old_visited, ne as int, nf as int, a as int, b as int);
            }
            let issues = layout_issues(expected, a, found, b);
            let mut k: usize = 0;
            while k < issues.len()
                invariant
                    k <= issues@.len(),
                    issues@ == node_issues(ge, gf, a as int, b as int),
                    follow(ge, gf, e as int, f as int, path@) == Some((a as int, b as int)),
                    findings@.len() == old_findings.len() + k,
                    findings@.subrange(0, old_findings.len() as int) == old_findings,
                    forall|j: int| 0 <= j < findings@.len() ==> #[trigger] finding_holds(ge, gf, e as int, f as int, findings@[j]),
                    forall|j: int| old_findings.len() <= j < findings@.len() ==> (#[trigger] findings@[j]).path@ == path@
                        && findings@[j].issue == issues@[j - old_findings.len()],
                decreases issues.len() - k,
            {
                let ghost before = findings@;
                let finding = Finding { path: copy_path(&path), issue: issues[k] };
                assert(issues@.contains(issues@[k as int]));
                findings.push(finding);
                assert(findings@.subrange(0, old_findings.len() as int) =~= before.subrange(0, old_findings.len() as int));
                assert forall|j: int| 0 <= j < findings@.len() implies #[trigger] finding_holds(ge, gf, e as int, f as int, findings@[j]) by {
                    if j < before.len() {
                        assert(findings@[j] == before[j]);
                    }
                }
                assert forall|j: int| old_findings.len() <= j < findings@.len() implies (#[trigger] findings@[j]).path@ == path@
                    && findings@[j].issue == issues@[j - old_findings.len()] by {
                    if j < before.len() {
                        assert(findings@[j] == before[j]);
                    }
                }
                k = k + 1;
            }
            proof {
                if seen(old_visited, nf as int, e as int, f as int) {
                    assert forall|j: int| 0 <= j < old_findings.len() implies findings@[j] == old_findings[j] by {
                        assert(findings@[j] == findings@.subrange(0, old_findings.len() as int)[j]);
                    }
                    assert(root_issues_first(ge, gf, e as int, f as int, old_findings));
                    assert forall|j: int| 0 <= j < node_issues(ge, gf, e as int, f as int).len()
                        implies (#[trigger] findings@[j]).path@.len() == 0
                        && findings@[j].issue == node_issues(ge, gf, e as int, f as int)[j] by {
                        assert(findings@[j] == old_findings[j]);
                    }
                    assert(root_issues_first(ge, gf, e as int, f as int, findings@));
                } else {
                    assert(old_stack.len() == 1);
                    assert(path@.len() == 0);
                    assert(a == e && b == f);
                    assert(old_findings.len() == 0);
                    assert forall|j: int| 0 <= j < node_issues(ge, gf, e as int, f as int).len()
                        implies (#[trigger] findings@[j]).path@.len() == 0
                        && findings@[j].issue == node_issues(ge, gf, e as int, f as int)[j] by {
                    }
                    assert(root_issues_first(ge, gf, e as int, f as int, findings@));
                }
            }
            proof {
                assert forall|c: int, d: int| 0 <= c < ne && 0 <= d < nf && #[trigger] seen(visited@, nf as int, c, d)
                    implies pair_reported(ge, gf, e as int, f as int, findings@, (c, d)) by {
                    if c == a && d == b {
                        assert forall|j: int| 0 <= j < node_issues(ge, gf, c, d).len()
                            implies #[trigger] reported(ge, gf, e as int, f as int, findings@, (c, d), node_issues(ge, gf, c, d)[j]) by {
                            let w = old_findings.len() + j;
                            assert(findings@[w].path@ == path@);
                        }
                    } else {
                        assert(seen(old_visited, nf as int, c, d));
                        lemma_pair_reported_grows(ge, gf, e as int, f as int, old_findings, findings@, (c, d));
                    }
                }
            }
            let ghost popped = stack@;
            push_children(Ghost(e as int), Ghost(f as int), expected, found, a, b, &path, &mut stack);
            proof {
                assert forall|c: int, d: int, step: PathStep| 0 <= c < ne && 0 <= d < nf && seen(visited@, nf as int, c, d)
                    && (#[trigger] child(ge, gf, c, d, step)) is Some implies {
                        let q = child(ge, gf, c, d, step)->0;
                        seen(visited@, nf as int, q.0, q.1) || in_stack(stack@, q)
                    } by {
                    let q = child(ge, gf, c, d, step)->0;
                    lemma_child_in_range(ge, gf, c, d, step);
                    if c == a && d == b {
                    } else {
                        assert(seen(old_visited, nf as int, c, d));
                        if !seen(old_visited, nf as int, q.0, q.1) {
                            let w = choose|w: int| 0 <= w < old_stack.len() && (#[trigger] old_stack[w]).0 == q.0 && old_stack[w].1 == q.1;
                            if w < old_stack.len() - 1 {
                                assert(popped[w] == old_stack[w]);
                                lemma_in_stack_grows(popped, stack@, q);
                            }
                        }
                    }
                }
                if !seen(visited@, nf as int, e as int, f as int) {
                    assert(old_stack.len() > 1);
                    assert(popped[0] == old_stack[0]);
                    assert(stack@[0] == stack@.subrange(0, popped.len() as int)[0]);
                }
                if findings@.len() == 0 {
                    assert(old_findings.len() == 0);
                    assert(issues@.len() == 0);
                }
            }
        } else {
            proof {
                assert forall|c: int, d: int, step: PathStep| 0 <= c < ne && 0 <= d < nf && seen(visited@, nf as int, c, d)
                    && (#[trigger] child(ge, gf, c, d, step)) is Some implies {
                        let q = child(ge, gf, c, d, step)->0;
                        seen(visited@, nf as int, q.0, q.1) || in_stack(stack@, q)
                    } by {
                    let q = child(ge, gf, c, d, step)->0;
                    if !seen(old_visited, nf as int, q.0, q.1) {
                        let w = choose|w: int| 0 <= w < old_stack.len() && (#[trigger] old_stack[w]).0 == q.0 && old_stack[w].1 == q.1;
                        assert(w != old_stack.len() - 1);
                        assert(stack@[w] == old_stack[w]);
                    }
                }
                if !seen(visited@, nf as int, e as int, f as int) {
                    assert(old_stack.len() > 1);
                    assert(stack@[0] == old_stack[0]);
                }
            }
        }
    }
    let ghost s = Set::new(|p: (int, int)| 0 <= p.0 < ne && 0 <= p.1 < nf && seen(visited@, nf as int, p.0, p.1));
    proof {
        assert forall|p: (int, int), step: PathStep| s.contains(p) && (#[trigger] child(ge, gf, p.0, p.1, step)) is Some
            implies s.contains(child(ge, gf, p.0, p.1, step)->0) by {
            lemma_child_in_range(ge, gf, p.0, p.1, step);
        }
    }
    proof {
        assert forall|path: Seq<PathStep>| (#[trigger] follow(ge, gf, e as int, f as int, path)) is Some
            implies pair_reported(ge, gf, e as int, f as int, findings@, follow(ge, gf, e as int, f as int, path)->0) by {
            lemma_closed_follow(ge, gf, e as int, f as int, s, path);
            let q = follow(ge, gf, e as int, f as int, path)->0;
            assert(s.contains(q));
            assert(seen(visited@, nf as int, q.0, q.1));
        }
    }
    if findings.len() == 0 {
        assert(s.contains((e as int, f as int)));
        assert forall|path: Seq<PathStep>| #[trigger] reached_ok(ge, gf, follow(ge, gf, e as int, f as int, path)) by {
            lemma_closed_follow(ge, gf, e as int, f as int, s, path);
            if follow(ge, gf, e as int, f as int, path) is Some {
                let q = follow(ge, gf, e as int, f as int, path)->0;
                assert(s.contains(q));
                assert(seen(visited@, nf as int, q.0, q.1));
            }
        }
        Ok(())
    } else {
        proof {
            let first = findings@[0];
            assert(finding_holds(ge, gf, e as int, f as int, first));
            let p = follow(ge, gf, e as int, f as int, first.path@)->0;
            assert(node_issues(ge, gf, p.0, p.1).len() > 0);
            assert(!reached_ok(ge, gf, follow(ge, gf, e as int, f as int, first.path@)));
        }
        Err(Report {
            expected_name: expected.nodes[e].name.clone(),
            found_name: found.nodes[f].name.clone(),
            findings,
        })
    }
}

} // verus!
