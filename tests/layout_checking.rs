use abi_stable::abi_checking::{check_layout_compatibility, layout_issues, Report};
use abi_stable::tagging::{Tag, TagEntry};
use abi_stable::type_layout::{
    DiscriminantRepr, Field, GenericParam, Issue, LayoutData, LayoutGraph, ParamKind, PathStep,
    Primitive, Shape, TypeLayout, Variance, Variant, VariantSet,
};

fn prim(name: &str, p: Primitive, size: usize) -> TypeLayout {
    TypeLayout {
        name: name.to_string(),
        size,
        alignment: size,
        data: LayoutData::Primitive(p),
        generic_params: Vec::new(),
        tag: None,
    }
}

fn field(name: &str, layout: usize) -> Field {
    Field { name: name.to_string(), layout, layout_only: false, lifetimes: Vec::new() }
}

fn record(name: &str, size: usize, align: usize, fields: Vec<Field>) -> TypeLayout {
    TypeLayout {
        name: name.to_string(),
        size,
        alignment: align,
        data: LayoutData::Record(fields),
        generic_params: Vec::new(),
        tag: None,
    }
}

fn variant(name: &str, discriminant: i64, fields: Vec<Field>) -> Variant {
    Variant { name: name.to_string(), discriminant, fields }
}

fn enum_layout(size: usize, variants: Vec<Variant>, nonexhaustive: bool, tag: Option<Tag>) -> TypeLayout {
    TypeLayout {
        name: "Enum".to_string(),
        size,
        alignment: 1,
        data: LayoutData::Variants(VariantSet { variants, repr: DiscriminantRepr::U8, nonexhaustive }),
        generic_params: Vec::new(),
        tag,
    }
}

/// Node 0: `Pair { a: u8, b: Inner }`, node 1: `Inner { x: u32, y: u32 }`,
/// nodes 2 and 3: u8 and u32.
fn pair_graph(inner_fields: Vec<Field>, a_name: &str) -> LayoutGraph {
    LayoutGraph {
        nodes: vec![
            record("Pair", 12, 4, vec![field(a_name, 2), field("b", 1)]),
            record("Inner", 8, 4, inner_fields),
            prim("u8", Primitive::U8, 1),
            prim("u32", Primitive::U32, 4),
        ],
    }
}

fn err(r: Result<(), Report>) -> Report {
    match r {
        Err(rep) => rep,
        Ok(()) => panic!("expected an incompatibility"),
    }
}

#[test]
fn layout_is_compatible_with_itself() {
    let g = pair_graph(vec![field("x", 3), field("y", 3)], "a");
    assert!(check_layout_compatibility(&g, 0, &g, 0).is_ok());
    let copy = pair_graph(vec![field("x", 3), field("y", 3)], "a");
    assert!(check_layout_compatibility(&g, 0, &copy, 0).is_ok());
}

#[test]
fn field_names_do_not_matter() {
    let g1 = pair_graph(vec![field("x", 3), field("y", 3)], "a");
    let g2 = pair_graph(vec![field("first", 3), field("second", 3)], "renamed");
    assert!(check_layout_compatibility(&g1, 0, &g2, 0).is_ok());
}

#[test]
fn field_count_difference_is_reported_at_its_path() {
    let g1 = pair_graph(vec![field("x", 3), field("y", 3)], "a");
    let g2 = pair_graph(vec![field("x", 3)], "a");
    let rep = err(check_layout_compatibility(&g1, 0, &g2, 0));
    assert_eq!(rep.expected_name, "Pair");
    assert_eq!(rep.found_name, "Pair");
    assert_eq!(rep.findings.len(), 1);
    assert_eq!(rep.findings[0].path, vec![PathStep::Field { field: 1 }]);
    assert_eq!(rep.findings[0].issue, Issue::FieldCount { variant: None, expected: 2, found: 1 });
}

#[test]
fn field_shape_difference_is_reported_at_its_path() {
    let g1 = pair_graph(vec![field("x", 3), field("y", 3)], "a");
    let g2 = pair_graph(vec![field("x", 3), field("y", 2)], "a");
    let rep = err(check_layout_compatibility(&g1, 0, &g2, 0));
    assert_eq!(rep.findings.len(), 3);
    let path = vec![PathStep::Field { field: 1 }, PathStep::Field { field: 1 }];
    for f in rep.findings.iter() {
        assert_eq!(f.path, path);
    }
    assert_eq!(rep.findings[0].issue, Issue::Size { expected: 4, found: 1 });
    assert_eq!(rep.findings[1].issue, Issue::Alignment { expected: 4, found: 1 });
    assert_eq!(
        rep.findings[2].issue,
        Issue::Primitive { expected: Primitive::U32, found: Primitive::U8 }
    );
}

#[test]
fn several_wrong_fields_are_all_reported() {
    let g1 = pair_graph(vec![field("x", 3), field("y", 3)], "a");
    let mut g2 = pair_graph(vec![field("x", 2), field("y", 4)], "a");
    g2.nodes.push(prim("u16", Primitive::U16, 2));
    g2.nodes[0].size = 16;
    let rep = err(check_layout_compatibility(&g1, 0, &g2, 0));
    assert_eq!(rep.findings[0].issue, Issue::Size { expected: 12, found: 16 });
    assert!(rep.findings[0].path.is_empty());
    let x_path = vec![PathStep::Field { field: 1 }, PathStep::Field { field: 0 }];
    let y_path = vec![PathStep::Field { field: 1 }, PathStep::Field { field: 1 }];
    assert!(rep.findings.iter().any(|f| f.path == x_path));
    assert!(rep.findings.iter().any(|f| f.path == y_path));
}

#[test]
fn shape_mismatch_stops_at_that_pair() {
    let g1 = pair_graph(vec![field("x", 3), field("y", 3)], "a");
    let g2 = LayoutGraph {
        nodes: vec![
            record("Pair", 12, 4, vec![field("a", 2), field("b", 1)]),
            {
                let mut p = prim("u64", Primitive::U64, 8);
                p.alignment = 4;
                p
            },
            prim("u8", Primitive::U8, 1),
        ],
    };
    let rep = err(check_layout_compatibility(&g1, 0, &g2, 0));
    assert_eq!(rep.findings.len(), 1);
    assert_eq!(rep.findings[0].path, vec![PathStep::Field { field: 1 }]);
    assert_eq!(
        rep.findings[0].issue,
        Issue::Shape { expected: Shape::Record, found: Shape::Primitive }
    );
}

#[test]
fn layout_only_field_compares_size_and_alignment() {
    let mut g1 = pair_graph(vec![field("x", 3), field("y", 3)], "a");
    g1.nodes[0].data = LayoutData::Record(vec![
        field("a", 2),
        Field { name: "b".to_string(), layout: 1, layout_only: true, lifetimes: Vec::new() },
    ]);
    let mut g2 = pair_graph(vec![field("x", 2)], "a");
    g2.nodes[0].data = LayoutData::Record(vec![
        field("a", 2),
        Field { name: "b".to_string(), layout: 1, layout_only: true, lifetimes: Vec::new() },
    ]);
    // Same size and alignment: the differing structure below is not looked at.
    assert!(check_layout_compatibility(&g1, 0, &g2, 0).is_ok());
    g2.nodes[1].size = 4;
    let rep = err(check_layout_compatibility(&g1, 0, &g2, 0));
    assert_eq!(rep.findings.len(), 1);
    assert_eq!(rep.findings[0].issue, Issue::FieldLayout { variant: None, field: 1 });
}

#[test]
fn lifetimes_and_generic_params_must_agree() {
    let mut g1 = pair_graph(vec![field("x", 3), field("y", 3)], "a");
    let mut g2 = pair_graph(vec![field("x", 3), field("y", 3)], "a");
    g1.nodes[1].data = LayoutData::Record(vec![
        Field { name: "x".to_string(), layout: 3, layout_only: false, lifetimes: vec![0] },
        field("y", 3),
    ]);
    g1.nodes[0].generic_params =
        vec![GenericParam { kind: ParamKind::Lifetime, variance: Variance::Covariant }];
    g2.nodes[0].generic_params =
        vec![GenericParam { kind: ParamKind::Lifetime, variance: Variance::Invariant }];
    let rep = err(check_layout_compatibility(&g1, 0, &g2, 0));
    assert_eq!(rep.findings.len(), 2);
    assert_eq!(rep.findings[0].issue, Issue::GenericParams { expected: 1, found: 1 });
    assert_eq!(rep.findings[1].issue, Issue::FieldLifetimes { variant: None, field: 0 });
}

fn list_graph(second_value: Primitive) -> LayoutGraph {
    // `Node { value: u32, next: Node }` unrolled twice: 0 -> 1 -> 0.
    LayoutGraph {
        nodes: vec![
            record("Node", 16, 8, vec![field("value", 2), field("next", 1)]),
            record("Node", 16, 8, vec![field("value", 3), field("next", 0)]),
            prim("u32", Primitive::U32, 4),
            prim("other", second_value, 4),
        ],
    }
}

#[test]
fn cyclic_layout_check_terminates() {
    let cyclic = LayoutGraph {
        nodes: vec![
            record("Node", 16, 8, vec![field("value", 1), field("next", 0)]),
            prim("u32", Primitive::U32, 4),
        ],
    };
    assert!(check_layout_compatibility(&cyclic, 0, &cyclic, 0).is_ok());
    // The same type written as a two-node cycle gives the same verdict.
    let unrolled = list_graph(Primitive::U32);
    assert!(check_layout_compatibility(&cyclic, 0, &unrolled, 0).is_ok());
    assert!(check_layout_compatibility(&unrolled, 0, &cyclic, 0).is_ok());
    // A divergence on the second lap of the cycle is found, with its path.
    let diverging = list_graph(Primitive::I32);
    let rep = err(check_layout_compatibility(&cyclic, 0, &diverging, 0));
    assert_eq!(rep.findings.len(), 1);
    assert_eq!(
        rep.findings[0].path,
        vec![PathStep::Field { field: 1 }, PathStep::Field { field: 0 }]
    );
    assert_eq!(
        rep.findings[0].issue,
        Issue::Primitive { expected: Primitive::U32, found: Primitive::I32 }
    );
}

fn abc() -> Vec<Variant> {
    vec![variant("A", 0, vec![]), variant("B", 1, vec![field("x", 1)]), variant("C", 2, vec![])]
}

fn enum_graph(variants: Vec<Variant>, nonexhaustive: bool) -> LayoutGraph {
    LayoutGraph {
        nodes: vec![enum_layout(8, variants, nonexhaustive, None), prim("u32", Primitive::U32, 4)],
    }
}

#[test]
fn nonexhaustive_enum_may_gain_variants() {
    let expected = enum_graph(abc(), true);
    let mut more = abc();
    more.push(variant("D", 3, vec![]));
    let found = enum_graph(more, true);
    assert!(check_layout_compatibility(&expected, 0, &found, 0).is_ok());
}

#[test]
fn exhaustive_enum_may_not_gain_variants() {
    let expected = enum_graph(abc(), false);
    let mut more = abc();
    more.push(variant("D", 3, vec![]));
    let found = enum_graph(more, false);
    let rep = err(check_layout_compatibility(&expected, 0, &found, 0));
    assert_eq!(rep.findings.len(), 1);
    assert_eq!(rep.findings[0].issue, Issue::VariantCount { expected: 3, found: 4 });
}

#[test]
fn nonexhaustive_enum_may_not_lose_variants() {
    let expected = enum_graph(abc(), true);
    let fewer = vec![variant("A", 0, vec![]), variant("B", 1, vec![field("x", 1)])];
    let found = enum_graph(fewer, true);
    let rep = err(check_layout_compatibility(&expected, 0, &found, 0));
    assert_eq!(rep.findings.len(), 1);
    assert_eq!(rep.findings[0].issue, Issue::VariantCount { expected: 3, found: 2 });
}

#[test]
fn nonexhaustive_enum_may_not_reorder_variants() {
    let expected = enum_graph(abc(), true);
    let reordered =
        vec![variant("B", 0, vec![field("x", 1)]), variant("A", 1, vec![]), variant("C", 2, vec![])];
    let found = enum_graph(reordered, true);
    let rep = err(check_layout_compatibility(&expected, 0, &found, 0));
    let issues: Vec<Issue> = rep.findings.iter().map(|f| f.issue).collect();
    assert!(issues.contains(&Issue::VariantName { variant: 0 }));
    assert!(issues.contains(&Issue::VariantName { variant: 1 }));
    assert!(issues.contains(&Issue::FieldCount { variant: Some(0), expected: 0, found: 1 }));
}

#[test]
fn variant_fields_are_followed() {
    let expected = enum_graph(abc(), false);
    let mut found = enum_graph(abc(), false);
    found.nodes[1] = prim("u16", Primitive::U16, 2);
    let rep = err(check_layout_compatibility(&expected, 0, &found, 0));
    assert_eq!(
        rep.findings[0].path,
        vec![PathStep::VariantField { variant: 1, field: 0 }]
    );
    assert_eq!(rep.findings[0].issue, Issue::Size { expected: 4, found: 2 });
}

#[test]
fn discriminant_and_exhaustiveness_must_agree() {
    let expected = enum_graph(abc(), true);
    let mut changed = abc();
    changed[2].discriminant = 7;
    let mut found = enum_graph(changed, false);
    if let LayoutData::Variants(set) = &mut found.nodes[0].data {
        set.repr = DiscriminantRepr::U16;
    }
    let rep = err(check_layout_compatibility(&expected, 0, &found, 0));
    let issues: Vec<Issue> = rep.findings.iter().map(|f| f.issue).collect();
    assert_eq!(
        issues,
        vec![
            Issue::DiscriminantRepr { expected: DiscriminantRepr::U8, found: DiscriminantRepr::U16 },
            Issue::Exhaustiveness { expected: true, found: false },
            Issue::Discriminant { variant: 2 },
        ]
    );
}

fn size_bound_tag(max_size: i64) -> Option<Tag> {
    Some(Tag::Dict(vec![TagEntry { key: "max_size".to_string(), value: Tag::Int(max_size) }]))
}

#[test]
fn undersized_nonexhaustive_layout_is_a_size_mismatch() {
    let expected = LayoutGraph {
        nodes: vec![enum_layout(1, abc(), true, size_bound_tag(1)), prim("u32", Primitive::U32, 4)],
    };
    let found = LayoutGraph {
        nodes: vec![enum_layout(32, abc(), true, size_bound_tag(1)), prim("u32", Primitive::U32, 4)],
    };
    let rep = err(check_layout_compatibility(&expected, 0, &found, 0));
    assert_eq!(rep.findings.len(), 1);
    assert_eq!(rep.findings[0].issue, Issue::Size { expected: 1, found: 32 });
}

#[test]
fn size_growth_within_tag_bound_is_accepted() {
    let expected = LayoutGraph {
        nodes: vec![enum_layout(8, abc(), true, size_bound_tag(32)), prim("u32", Primitive::U32, 4)],
    };
    let found = LayoutGraph {
        nodes: vec![enum_layout(32, abc(), true, size_bound_tag(32)), prim("u32", Primitive::U32, 4)],
    };
    assert!(check_layout_compatibility(&expected, 0, &found, 0).is_ok());
    let too_big = LayoutGraph {
        nodes: vec![enum_layout(40, abc(), true, size_bound_tag(32)), prim("u32", Primitive::U32, 4)],
    };
    let rep = err(check_layout_compatibility(&expected, 0, &too_big, 0));
    assert_eq!(rep.findings[0].issue, Issue::Size { expected: 8, found: 40 });
}

#[test]
fn missing_expected_tag_is_reported() {
    let expected = LayoutGraph {
        nodes: vec![enum_layout(8, abc(), true, size_bound_tag(32)), prim("u32", Primitive::U32, 4)],
    };
    let found = LayoutGraph {
        nodes: vec![enum_layout(8, abc(), true, None), prim("u32", Primitive::U32, 4)],
    };
    let rep = err(check_layout_compatibility(&expected, 0, &found, 0));
    assert_eq!(rep.findings.len(), 1);
    assert_eq!(rep.findings[0].issue, Issue::Tag);
}

#[test]
fn opaque_layouts_compare_size_only() {
    let mut a = prim("Handle", Primitive::U8, 8);
    a.data = LayoutData::Opaque;
    let mut b = prim("Handle", Primitive::U8, 8);
    b.data = LayoutData::Opaque;
    let g1 = LayoutGraph { nodes: vec![a] };
    let g2 = LayoutGraph { nodes: vec![b] };
    assert!(check_layout_compatibility(&g1, 0, &g2, 0).is_ok());
    assert!(layout_issues(&g1, 0, &g2, 0).is_empty());
}

#[test]
fn layout_issues_of_one_pair() {
    let g1 = pair_graph(vec![field("x", 3), field("y", 3)], "a");
    let g2 = pair_graph(vec![field("x", 3)], "a");
    assert_eq!(
        layout_issues(&g1, 1, &g2, 1),
        vec![Issue::FieldCount { variant: None, expected: 2, found: 1 }]
    );
    assert_eq!(
        layout_issues(&g1, 2, &g2, 3),
        vec![
            Issue::Size { expected: 1, found: 4 },
            Issue::Alignment { expected: 1, found: 4 },
            Issue::Primitive { expected: Primitive::U8, found: Primitive::U32 },
        ]
    );
}

#[test]
fn alignment_growth_within_tag_bound_is_accepted() {
    let tag = || {
        Some(Tag::Dict(vec![
            TagEntry { key: "max_align".to_string(), value: Tag::Int(8) },
            TagEntry { key: "max_size".to_string(), value: Tag::Int(16) },
        ]))
    };
    let mut expected = enum_layout(8, abc(), true, tag());
    expected.alignment = 4;
    let mut found = enum_layout(16, abc(), true, tag());
    found.alignment = 8;
    let ge = LayoutGraph { nodes: vec![expected, prim("u32", Primitive::U32, 4)] };
    let gf = LayoutGraph { nodes: vec![found, prim("u32", Primitive::U32, 4)] };
    assert!(check_layout_compatibility(&ge, 0, &gf, 0).is_ok());
    // Shrinking is never growth.
    assert_eq!(
        layout_issues(&gf, 0, &ge, 0),
        vec![Issue::Size { expected: 16, found: 8 }, Issue::Alignment { expected: 8, found: 4 }]
    );
}
