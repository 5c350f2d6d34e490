//! The layout model: a structural description of how each participating type
//! is laid out in memory. Layouts live in a `LayoutGraph` and refer to one
//! another by index, so a type may contain itself.
use vstd::prelude::*;

use crate::tagging::{Tag, tag_lookup};

verus! {

/// The fixed set of primitive layouts.
#[derive(Debug, Clone, Copy, PartialEq, Eq, Structural)]
pub enum Primitive {
    U8,
    I8,
    U16,
    I16,
    U32,
    I32,
    U64,
    I64,
    Usize,
    Isize,
    F32,
    F64,
    Bool,
    RawPointer,
    FnPointer,
    ZeroSized,
}

/// The integer type that stores the discriminant of a variant set.
#[derive(Debug, Clone, Copy, PartialEq, Eq, Structural)]
pub enum DiscriminantRepr {
    U8,
    I8,
    U16,
    I16,
    U32,
    I32,
    U64,
    I64,
    Usize,
    Isize,
}

/// Whether a generic parameter stands for a type or for a lifetime.
#[derive(Debug, Clone, Copy, PartialEq, Eq, Structural)]
pub enum ParamKind {
    Type,
    Lifetime,
}

/// The coarse variance classification of a generic parameter.
#[derive(Debug, Clone, Copy, PartialEq, Eq, Structural)]
pub enum Variance {
    Covariant,
    Invariant,
    Contravariant,
}

/// One generic parameter of a layout.
#[derive(Debug, Clone, Copy, PartialEq, Eq, Structural)]
pub struct GenericParam {
    pub kind: ParamKind,
    pub variance: Variance,
}

/// One field of a record or of a variant.
#[derive(Debug)]
pub struct Field {
    /// For diagnostics only: names never decide compatibility.
    pub name: String,
    /// Index, in the same graph, of the field's own layout.
    pub layout: usize,
    /// The field's type is compared by its size and alignment only, not by
    /// its structure.
    pub layout_only: bool,
    /// The lifetime parameters that the field's type borrows from.
    pub lifetimes: Vec<u32>,
}

/// One variant of a variant set.
#[derive(Debug)]
pub struct Variant {
    /// Identifies the variant: it must agree between compatible layouts.
    pub name: String,
    pub discriminant: i64,
    pub fields: Vec<Field>,
}

/// The variants of an enum-like type, with its discriminant encoding.
#[derive(Debug)]
pub struct VariantSet {
    pub variants: Vec<Variant>,
    pub repr: DiscriminantRepr,
    /// The set may grow in later versions: a found layout may then have
    /// variants after those expected.
    pub nonexhaustive: bool,
}

/// The shape of a layout.
#[derive(Debug)]
pub enum LayoutData {
    Primitive(Primitive),
    /// Fields that are all present at once.
    Record(Vec<Field>),
    Variants(VariantSet),
    /// A handle whose contents are deliberately not described.
    Opaque,
}

/// The top-level kind of a layout, as reported in findings.
#[derive(Debug, Clone, Copy, PartialEq, Eq, Structural)]
pub enum Shape {
    Primitive,
    Record,
    Variants,
    Opaque,
}

/// The description of one type's layout.
#[derive(Debug)]
pub struct TypeLayout {
    /// For diagnostics only.
    pub name: String,
    pub size: usize,
    pub alignment: usize,
    pub data: LayoutData,
    pub generic_params: Vec<GenericParam>,
    /// Compatibility exceptions and semantic metadata.
    pub tag: Option<Tag>,
}

/// A set of layouts that refer to one another by index.
#[derive(Debug)]
pub struct LayoutGraph {
    pub nodes: Vec<TypeLayout>,
}

/// Every field refers to a layout of a graph with `n` nodes.
pub open spec fn fields_wf(fields: Seq<Field>, n: nat) -> bool {
    forall|k: int| 0 <= k < fields.len() ==> (#[trigger] fields[k]).layout < n
}

/// The fields of `layout` refer to layouts of a graph with `n` nodes.
pub open spec fn layout_wf(layout: TypeLayout, n: nat) -> bool {
    match layout.data {
        LayoutData::Record(fields) => fields_wf(fields@, n),
        LayoutData::Variants(set) => forall|j: int|
            0 <= j < set.variants@.len() ==> fields_wf((#[trigger] set.variants@[j]).fields@, n),
        _ => true,
    }
}

impl LayoutGraph {
    /// No field refers outside the graph.
    pub open spec fn wf(&self) -> bool {
        forall|i: int| 0 <= i < self.nodes@.len() ==> layout_wf(#[trigger] self.nodes@[i], self.nodes@.len())
    }

    /// Checks that no field refers outside the graph.
    pub fn is_wf(&self) -> (r: bool)
        ensures
            r == self.wf(),
    {
        let n = self.nodes.len();
        let mut i: usize = 0;
        while i < n
            invariant
                i <= n,
                n == self.nodes@.len(),
                forall|j: int| 0 <= j < i ==> layout_wf(#[trigger] self.nodes@[j], n as nat),
            decreases n - i,
        {
            if !layout_in_range(&self.nodes[i], n) {
                return false;
            }
            i = i + 1;
        }
        true
    }
}

fn fields_in_range(fields: &Vec<Field>, n: usize) -> (r: bool)
    ensures
        r == fields_wf(fields@, n as nat),
{
    let mut k: usize = 0;
    while k < fields.len()
        invariant
            k <= fields@.len(),
            forall|j: int| 0 <= j < k ==> (#[trigger] fields@[j]).layout < n,
        decreases fields.len() - k,
    {
        if fields[k].layout >= n {
            return false;
        }
        k = k + 1;
    }
    true
}

#[verifier::loop_isolation(false)]
fn layout_in_range(layout: &TypeLayout, n: usize) -> (r: bool)
    ensures
        r == layout_wf(*layout, n as nat),
{
    match &layout.data {
        LayoutData::Record(fields) => fields_in_range(fields, n),
        LayoutData::Variants(set) => {
            let mut v: usize = 0;
            while v < set.variants.len()
                invariant
                    v <= set.variants@.len(),
                    forall|j: int| 0 <= j < v ==> fields_wf((#[trigger] set.variants@[j]).fields@, n as nat),
                decreases set.variants.len() - v,
            {
                if !fields_in_range(&set.variants[v].fields, n) {
                    assert(!fields_wf(set.variants@[v as int].fields@, n as nat));
                    return false;
                }
                v = v + 1;
            }
            true
        },
        _ => true,
    }
}

pub open spec fn shape_of(data: LayoutData) -> Shape {
    match data {
        LayoutData::Primitive(_) => Shape::Primitive,
        LayoutData::Record(_) => Shape::Record,
        LayoutData::Variants(_) => Shape::Variants,
        LayoutData::Opaque => Shape::Opaque,
    }
}

/// The tag key under which a non-exhaustive variant set states the largest
/// size that a found layout may grow to.
pub open spec fn max_size_key() -> Seq<char> {
    "max_size"@
}

/// The tag key under which a non-exhaustive variant set states the largest
/// alignment that a found layout may grow to.
pub open spec fn max_align_key() -> Seq<char> {
    "max_align"@
}

/// The bound up to which `layout` lets a found layout grow, if any: only a
/// non-exhaustive variant set can carry one, as an integer in its tag.
pub open spec fn growth_bound(layout: TypeLayout, key: Seq<char>) -> Option<int> {
    match layout.data {
        LayoutData::Variants(set) => if set.nonexhaustive {
            match layout.tag {
                Some(t) => match tag_lookup(t, key) {
                    Some(Tag::Int(n)) => Some(n as int),
                    _ => None,
                },
                None => None,
            }
        } else {
            None
        },
        _ => None,
    }
}

/// A size or alignment is acceptable: equal to the expected one, or grown
/// no further than the bound.
pub open spec fn dimension_ok(expected: usize, found: usize, bound: Option<int>) -> bool {
    found == expected || (bound matches Some(n) && expected <= found && found <= n)
}

/// An expected tag is satisfied: absent, or present on both sides and compatible.
pub open spec fn tags_ok(expected: Option<Tag>, found: Option<Tag>) -> bool {
    match expected {
        None => true,
        Some(t) => match found {
            Some(u) => crate::tagging::tag_compatible(t, u),
            None => false,
        },
    }
}

pub open spec fn min_nat(a: nat, b: nat) -> nat {
    if a <= b { a } else { b }
}

/// `seq![i]` when `c` holds, else the empty sequence.
pub open spec fn issue_if(c: bool, i: Issue) -> Seq<Issue> {
    if c { seq![i] } else { Seq::empty() }
}

/// One incompatibility between two layouts, found at one pair of nodes.
/// `variant` is `None` for a record's fields and `Some(v)` for those of
/// variant `v`.
#[derive(Debug, Clone, Copy, PartialEq, Eq, Structural)]
pub enum Issue {
    Size { expected: usize, found: usize },
    Alignment { expected: usize, found: usize },
    GenericParams { expected: usize, found: usize },
    Tag,
    Shape { expected: Shape, found: Shape },
    Primitive { expected: Primitive, found: Primitive },
    FieldCount { variant: Option<usize>, expected: usize, found: usize },
    FieldLayout { variant: Option<usize>, field: usize },
    FieldLifetimes { variant: Option<usize>, field: usize },
    DiscriminantRepr { expected: DiscriminantRepr, found: DiscriminantRepr },
    Exhaustiveness { expected: bool, found: bool },
    VariantCount { expected: usize, found: usize },
    VariantName { variant: usize },
    Discriminant { variant: usize },
}

/// Issues of size, alignment, generic parameters and tag.
pub open spec fn header_issues(x: TypeLayout, y: TypeLayout) -> Seq<Issue> {
    issue_if(
        !dimension_ok(x.size, y.size, growth_bound(x, max_size_key())),
        Issue::Size { expected: x.size, found: y.size },
    ) + issue_if(
        !dimension_ok(x.alignment, y.alignment, growth_bound(x, max_align_key())),
        Issue::Alignment { expected: x.alignment, found: y.alignment },
    ) + issue_if(
        x.generic_params@ != y.generic_params@,
        Issue::GenericParams {
            expected: x.generic_params@.len() as usize,
            found: y.generic_params@.len() as usize,
        },
    ) + issue_if(!tags_ok(x.tag, y.tag), Issue::Tag)
}

/// Issues of field `k`, `x` expected and `y` found.
pub open spec fn field_issues(
    ge: LayoutGraph,
    gf: LayoutGraph,
    variant: Option<usize>,
    k: int,
    x: Field,
    y: Field,
) -> Seq<Issue> {
    issue_if(
        x.layout_only && (ge.nodes@[x.layout as int].size != gf.nodes@[y.layout as int].size
            || ge.nodes@[x.layout as int].alignment != gf.nodes@[y.layout as int].alignment),
        Issue::FieldLayout { variant, field: k as usize },
    ) + issue_if(
        x.lifetimes@ != y.lifetimes@,
        Issue::FieldLifetimes { variant, field: k as usize },
    )
}

/// Issues of the first `n` fields of two field lists.
pub open spec fn fields_issues(
    ge: LayoutGraph,
    gf: LayoutGraph,
    variant: Option<usize>,
    xs: Seq<Field>,
    ys: Seq<Field>,
    n: nat,
) -> Seq<Issue>
    decreases n,
{
    if n == 0 {
        Seq::empty()
    } else {
        fields_issues(ge, gf, variant, xs, ys, (n - 1) as nat)
            + field_issues(ge, gf, variant, n - 1, xs[n - 1], ys[n - 1])
    }
}

/// Issues of two field lists: their lengths, then the fields they share.
pub open spec fn group_issues(
    ge: LayoutGraph,
    gf: LayoutGraph,
    variant: Option<usize>,
    xs: Seq<Field>,
    ys: Seq<Field>,
) -> Seq<Issue> {
    issue_if(
        xs.len() != ys.len(),
        Issue::FieldCount { variant, expected: xs.len() as usize, found: ys.len() as usize },
    ) + fields_issues(ge, gf, variant, xs, ys, min_nat(xs.len(), ys.len()))
}

/// Issues of variant `k`, `x` expected and `y` found.
pub open spec fn variant_issues(
    ge: LayoutGraph,
    gf: LayoutGraph,
    k: int,
    x: Variant,
    y: Variant,
) -> Seq<Issue> {
    issue_if(x.name@ != y.name@, Issue::VariantName { variant: k as usize })
        + issue_if(x.discriminant != y.discriminant, Issue::Discriminant { variant: k as usize })
        + group_issues(ge, gf, Some(k as usize), x.fields@, y.fields@)
}

/// Issues of the first `n` variants of two variant lists.
pub open spec fn variants_issues(
    ge: LayoutGraph,
    gf: LayoutGraph,
    xs: Seq<Variant>,
    ys: Seq<Variant>,
    n: nat,
) -> Seq<Issue>
    decreases n,
{
    if n == 0 {
        Seq::empty()
    } else {
        variants_issues(ge, gf, xs, ys, (n - 1) as nat)
            + variant_issues(ge, gf, n - 1, xs[n - 1], ys[n - 1])
    }
}

/// The variant count is acceptable: equal, or, for a non-exhaustive expected
/// set, not smaller.
pub open spec fn variant_count_ok(x: VariantSet, y: VariantSet) -> bool {
    if x.nonexhaustive {
        y.variants@.len() >= x.variants@.len()
    } else {
        y.variants@.len() == x.variants@.len()
    }
}

/// Issues of two variant sets.
pub open spec fn variant_set_issues(
    ge: LayoutGraph,
    gf: LayoutGraph,
    x: VariantSet,
    y: VariantSet,
) -> Seq<Issue> {
    issue_if(x.repr != y.repr, Issue::DiscriminantRepr { expected: x.repr, found: y.repr })
        + issue_if(
        x.nonexhaustive != y.nonexhaustive,
        Issue::Exhaustiveness { expected: x.nonexhaustive, found: y.nonexhaustive },
    ) + issue_if(
        !variant_count_ok(x, y),
        Issue::VariantCount {
            expected: x.variants@.len() as usize,
            found: y.variants@.len() as usize,
        },
    ) + variants_issues(
        ge,
        gf,
        x.variants@,
        y.variants@,
        min_nat(x.variants@.len(), y.variants@.len()),
    )
}

/// Issues of the shapes: a different shape is one issue, and nothing below
/// it is compared.
pub open spec fn data_issues(ge: LayoutGraph, gf: LayoutGraph, x: TypeLayout, y: TypeLayout) -> Seq<Issue> {
    match x.data {
        LayoutData::Primitive(a) => match y.data {
            LayoutData::Primitive(b) => issue_if(a != b, Issue::Primitive { expected: a, found: b }),
            _ => seq![Issue::Shape { expected: shape_of(x.data), found: shape_of(y.data) }],
        },
        LayoutData::Record(xs) => match y.data {
            LayoutData::Record(ys) => group_issues(ge, gf, None, xs@, ys@),
            _ => seq![Issue::Shape { expected: shape_of(x.data), found: shape_of(y.data) }],
        },
        LayoutData::Variants(a) => match y.data {
            LayoutData::Variants(b) => variant_set_issues(ge, gf, a, b),
            _ => seq![Issue::Shape { expected: shape_of(x.data), found: shape_of(y.data) }],
        },
        LayoutData::Opaque => match y.data {
            LayoutData::Opaque => Seq::empty(),
            _ => seq![Issue::Shape { expected: shape_of(x.data), found: shape_of(y.data) }],
        },
    }
}

/// Every issue between node `e` of `ge` (expected) and node `f` of `gf`
/// (found), in the order in which they are reported.
pub open spec fn node_issues(ge: LayoutGraph, gf: LayoutGraph, e: int, f: int) -> Seq<Issue> {
    header_issues(ge.nodes@[e], gf.nodes@[f]) + data_issues(ge, gf, ge.nodes@[e], gf.nodes@[f])
}

/// A step from a pair of layouts into the pair of layouts of one field.
#[derive(Debug, Clone, Copy, PartialEq, Eq, Structural)]
pub enum PathStep {
    /// Field `field` of two records.
    Field { field: usize },
    /// Field `field` of variant `variant` of two variant sets.
    VariantField { variant: usize, field: usize },
}

/// The pair of layouts of field `k`, when both lists have it and it is
/// compared by structure.
pub open spec fn field_child(xs: Seq<Field>, ys: Seq<Field>, k: int) -> Option<(int, int)> {
    if 0 <= k < xs.len() && k < ys.len() && !xs[k].layout_only {
        Some((xs[k].layout as int, ys[k].layout as int))
    } else {
        None
    }
}

/// Where `step` leads from node `e` of `ge` and node `f` of `gf`.
pub open spec fn child(ge: LayoutGraph, gf: LayoutGraph, e: int, f: int, step: PathStep) -> Option<(int, int)> {
    match step {
        PathStep::Field { field } => match ge.nodes@[e].data {
            LayoutData::Record(xs) => match gf.nodes@[f].data {
                LayoutData::Record(ys) => field_child(xs@, ys@, field as int),
                _ => None,
            },
            _ => None,
        },
        PathStep::VariantField { variant, field } => match ge.nodes@[e].data {
            LayoutData::Variants(a) => match gf.nodes@[f].data {
                LayoutData::Variants(b) => if variant < a.variants@.len() && variant < b.variants@.len() {
                    field_child(
                        a.variants@[variant as int].fields@,
                        b.variants@[variant as int].fields@,
                        field as int,
                    )
                } else {
                    None
                },
                _ => None,
            },
            _ => None,
        },
    }
}

/// The pair of layouts that `path` leads to from the roots `e` and `f`.
pub open spec fn follow(ge: LayoutGraph, gf: LayoutGraph, e: int, f: int, path: Seq<PathStep>) -> Option<(int, int)>
    decreases path.len(),
{
    if path.len() == 0 {
        Some((e, f))
    } else {
        match follow(ge, gf, e, f, path.drop_last()) {
            Some(p) => child(ge, gf, p.0, p.1, path.last()),
            None => None,
        }
    }
}

/// Node `f` of `gf` can stand where node `e` of `ge` is expected: no pair of
/// layouts reached from them by following fields, through any number of
/// cycles, has an issue. This is the verdict on the (possibly infinite)
/// unrolling of both graphs.
pub open spec fn compatible(ge: LayoutGraph, gf: LayoutGraph, e: int, f: int) -> bool {
    forall|path: Seq<PathStep>| #[trigger] reached_ok(ge, gf, follow(ge, gf, e, f, path))
}

/// The pair reached, if any, has no issue.
pub open spec fn reached_ok(ge: LayoutGraph, gf: LayoutGraph, reached: Option<(int, int)>) -> bool {
    match reached {
        Some(p) => node_issues(ge, gf, p.0, p.1).len() == 0,
        None => true,
    }
}

} // verus!
