//! Tags: small self-describing values attached to layouts, carrying audited
//! exceptions to the default compatibility rules.
use vstd::prelude::*;

verus! {

/// An immutable tree of scalars, ordered lists and keyed maps.
#[derive(Debug)]
pub enum Tag {
    Null,
    Bool(bool),
    Int(i64),
    Str(String),
    List(Vec<Tag>),
    /// Keyed entries. `get` returns the first entry under a key; an expected
    /// entry is satisfied by any found entry under its key.
    Dict(Vec<TagEntry>),
}

/// One entry of a `Tag::Dict`.
#[derive(Debug)]
pub struct TagEntry {
    pub key: String,
    pub value: Tag,
}

/// The value of the first entry of `entries` whose key is `key`.
pub open spec fn entries_lookup(entries: Seq<TagEntry>, key: Seq<char>) -> Option<Tag>
    decreases entries.len(),
{
    if entries.len() == 0 {
        None
    } else if entries[0].key@ == key {
        Some(entries[0].value)
    } else {
        entries_lookup(entries.drop_first(), key)
    }
}

/// What `get` returns: the value under `key` when the tag is a map.
pub open spec fn tag_lookup(t: Tag, key: Seq<char>) -> Option<Tag> {
    match t {
        Tag::Dict(entries) => entries_lookup(entries@, key),
        _ => None,
    }
}

/// Whether `found` satisfies `expected`. Scalars must be equal, lists must
/// have the same length and pairwise compatible elements, and every key of an
/// expected map must be present in the found map with a compatible value;
/// keys that only the found map has are tolerated.
pub open spec fn tag_compatible(expected: Tag, found: Tag) -> bool
    decreases expected, 3nat,
{
    match expected {
        Tag::Null => found is Null,
        Tag::Bool(b) => found matches Tag::Bool(c) && b == c,
        Tag::Int(i) => found matches Tag::Int(j) && i == j,
        Tag::Str(s) => found matches Tag::Str(t) && s@ == t@,
        Tag::List(xs) => match found {
            Tag::List(ys) => xs@.len() == ys@.len() && prefix_compatible(expected, found, xs@.len()),
            _ => false,
        },
        Tag::Dict(xs) => found is Dict && prefix_compatible(expected, found, xs@.len()),
    }
}

/// For two lists: the first `n` elements are pairwise compatible.
/// For two maps: the first `n` entries of `expected` are satisfied by `found`.
pub open spec fn prefix_compatible(expected: Tag, found: Tag, n: nat) -> bool
    decreases expected, 2nat, n,
{
    if n == 0 {
        true
    } else {
        match expected {
            Tag::List(xs) => match found {
                Tag::List(ys) => n <= xs@.len() && n <= ys@.len()
                    && prefix_compatible(expected, found, (n - 1) as nat)
                    && element_compatible(expected, found, (n - 1) as nat),
                _ => false,
            },
            Tag::Dict(xs) => match found {
                Tag::Dict(ys) => n <= xs@.len()
                    && prefix_compatible(expected, found, (n - 1) as nat)
                    && element_compatible(expected, found, (n - 1) as nat),
                _ => false,
            },
            _ => false,
        }
    }
}

/// For two lists: their elements at index `k` are compatible.
/// For two maps: entry `k` of `expected` is satisfied by some entry of
/// `found` under the same key.
pub open spec fn element_compatible(expected: Tag, found: Tag, k: nat) -> bool
    decreases expected, 1nat,
{
    match expected {
        Tag::List(xs) => match found {
            Tag::List(ys) => k < xs@.len() && k < ys@.len() && {
                let x = xs@[k as int];
                tag_compatible(x, ys@[k as int])
            },
            _ => false,
        },
        Tag::Dict(xs) => match found {
            Tag::Dict(ys) => k < xs@.len() && entry_found(expected, found, k, ys@.len()),
            _ => false,
        },
        _ => false,
    }
}

/// For two maps: one of the first `m` entries of `found` has the key of
/// entry `k` of `expected` and a value compatible with that entry's.
pub open spec fn entry_found(expected: Tag, found: Tag, k: nat, m: nat) -> bool
    decreases expected, 0nat, 0nat, m,
{
    if m == 0 {
        false
    } else {
        match expected {
            Tag::Dict(xs) => match found {
                Tag::Dict(ys) => k < xs@.len() && m <= ys@.len() && (entry_found(expected, found, k, (m - 1) as nat) || {
                    let x = xs@[k as int];
                    let y = ys@[m - 1];
                    x.key@ == y.key@ && tag_compatible(x.value, y.value)
                }),
                _ => false,
            },
            _ => false,
        }
    }
}

/// A compatible prefix is compatible element by element.
proof fn lemma_prefix_elements(expected: Tag, found: Tag, n: nat, k: nat)
    requires
        prefix_compatible(expected, found, n),
        k < n,
    ensures
        element_compatible(expected, found, k),
    decreases n,
{
    if k + 1 < n {
        lemma_prefix_elements(expected, found, (n - 1) as nat, k);
    }
}

/// Once an entry is found among the first `m`, it is among the first `n >= m`;
/// and when none is found among all of them, none is found among fewer.
proof fn lemma_entry_found_mono(expected: Tag, found: Tag, k: nat, m: nat, n: nat)
    requires
        m <= n,
        found matches Tag::Dict(ys) && n <= ys@.len(),
    ensures
        entry_found(expected, found, k, m) ==> entry_found(expected, found, k, n),
    decreases n - m,
{
    if m < n {
        lemma_entry_found_mono(expected, found, k, m, (n - 1) as nat);
    }
}

/// Every tag satisfies itself.
pub proof fn lemma_tag_reflexive(t: Tag)
    ensures
        tag_compatible(t, t),
    decreases t, 1nat,
{
    match t {
        Tag::List(xs) => lemma_prefix_reflexive(t, xs@.len()),
        Tag::Dict(xs) => lemma_prefix_reflexive(t, xs@.len()),
        _ => {},
    }
}

proof fn lemma_prefix_reflexive(t: Tag, n: nat)
    requires
        t matches Tag::List(xs) ==> n <= xs@.len(),
        t matches Tag::Dict(xs) ==> n <= xs@.len(),
        t is List || t is Dict,
    ensures
        prefix_compatible(t, t, n),
    decreases t, 0nat, n,
{
    if n > 0 {
        lemma_prefix_reflexive(t, (n - 1) as nat);
        let k = (n - 1) as int;
        match t {
            Tag::List(xs) => {
                let xv = xs@;
                assert(decreases_to!(t => xs));
                assert(decreases_to!(xs => xv));
                assert(decreases_to!(xv => xv[k]));
                lemma_tag_reflexive(xv[k]);
                assert(element_compatible(t, t, k as nat));
            },
            Tag::Dict(xs) => {
                let xv = xs@;
                let e = xv[k];
                assert(decreases_to!(t => xs));
                assert(decreases_to!(xs => xv));
                assert(decreases_to!(xv => e));
                assert(decreases_to!(e => e.value));
                lemma_tag_reflexive(e.value);
                assert(entry_found(t, t, k as nat, n));
                lemma_entry_found_mono(t, t, k as nat, n, xv.len());
                assert(element_compatible(t, t, k as nat));
            },
            _ => {},
        }
    }
}

/// No two entries have the same key: what a well-formed map holds.
pub open spec fn keys_unique(entries: Seq<TagEntry>) -> bool {
    forall|i: int, j: int| 0 <= i < j < entries.len() ==> (#[trigger] entries[i]).key@ != (#[trigger] entries[j]).key@
}

proof fn lemma_lookup_at(entries: Seq<TagEntry>, key: Seq<char>, j: int)
    requires
        keys_unique(entries),
        0 <= j < entries.len(),
        entries[j].key@ == key,
    ensures
        entries_lookup(entries, key) == Some(entries[j].value),
    decreases entries.len(),
{
    if j > 0 {
        assert(entries[0].key@ != entries[j].key@);
        let rest = entries.drop_first();
        assert forall|a: int, b: int| 0 <= a < b < rest.len() implies (#[trigger] rest[a]).key@ != (#[trigger] rest[b]).key@ by {
            assert(rest[a] == entries[a + 1]);
            assert(rest[b] == entries[b + 1]);
        }
        assert(rest[j - 1] == entries[j]);
        lemma_lookup_at(rest, key, j - 1);
    }
}

proof fn lemma_lookup_absent(entries: Seq<TagEntry>, key: Seq<char>)
    requires
        forall|j: int| 0 <= j < entries.len() ==> (#[trigger] entries[j]).key@ != key,
    ensures
        entries_lookup(entries, key) is None,
    decreases entries.len(),
{
    if entries.len() > 0 {
        let rest = entries.drop_first();
        assert forall|j: int| 0 <= j < rest.len() implies (#[trigger] rest[j]).key@ != key by {
            assert(rest[j] == entries[j + 1]);
        }
        lemma_lookup_absent(rest, key);
    }
}

proof fn lemma_entry_found_witness(expected: Tag, found: Tag, k: nat, m: nat)
    requires
        expected matches Tag::Dict(xs) && k < xs@.len(),
        found matches Tag::Dict(ys) && m <= ys@.len(),
    ensures
        entry_found(expected, found, k, m) <==> exists|j: int| 0 <= j < m && {
            let x = expected->Dict_0@[k as int];
            let y = (#[trigger] found->Dict_0@[j]);
            x.key@ == y.key@ && tag_compatible(x.value, y.value)
        },
    decreases m,
{
    if m > 0 {
        lemma_entry_found_witness(expected, found, k, (m - 1) as nat);
    }
}

/// In a map whose keys are unique, an expected entry is satisfied exactly
/// when `get` finds its key in the found map with a compatible value: any
/// entry under the key and the first one are then the same.
pub proof fn lemma_unique_keys_match_lookup(expected: Tag, found: Tag, k: nat)
    requires
        expected matches Tag::Dict(xs) && k < xs@.len(),
        found matches Tag::Dict(ys) && keys_unique(ys@),
    ensures
        element_compatible(expected, found, k) <==> ({
            let x = expected->Dict_0@[k as int];
            match tag_lookup(found, x.key@) {
                Some(v) => tag_compatible(x.value, v),
                None => false,
            }
        }),
{
    let xs = expected->Dict_0@;
    let ys = found->Dict_0@;
    let x = xs[k as int];
    lemma_entry_found_witness(expected, found, k, ys.len());
    if exists|j: int| 0 <= j < ys.len() && (#[trigger] ys[j]).key@ == x.key@ {
        let j = choose|j: int| 0 <= j < ys.len() && (#[trigger] ys[j]).key@ == x.key@;
        lemma_lookup_at(ys, x.key@, j);
        if entry_found(expected, found, k, ys.len()) {
            let i = choose|i: int| 0 <= i < ys.len() && {
                let y = (#[trigger] ys[i]);
                x.key@ == y.key@ && tag_compatible(x.value, y.value)
            };
            if i != j {
                if i < j {
                    assert(ys[i].key@ != ys[j].key@);
                } else {
                    assert(ys[j].key@ != ys[i].key@);
                }
            }
        }
    } else {
        lemma_lookup_absent(ys, x.key@);
    }
}

/// Finds the first entry of `entries` whose key is `key`.
fn lookup_entries<'a>(entries: &'a Vec<TagEntry>, key: &String) -> (r: Option<&'a Tag>)
    ensures
        r is Some == entries_lookup(entries@, key@) is Some,
        r matches Some(v) ==> entries_lookup(entries@, key@) == Some(*v),
{
    let mut i: usize = 0;
    assert(entries@.subrange(0, entries@.len() as int) =~= entries@);
    while i < entries.len()
        invariant
            i <= entries@.len(),
            entries_lookup(entries@, key@) == entries_lookup(entries@.subrange(i as int, entries@.len() as int), key@),
        decreases entries.len() - i,
    {
        let ghost rest = entries@.subrange(i as int, entries@.len() as int);
        assert(rest.drop_first() =~= entries@.subrange(i + 1, entries@.len() as int));
        if entries[i].key == *key {
            return Some(&entries[i].value);
        }
        i = i + 1;
    }
    None
}

impl Tag {
    /// The value under `key`, when this tag is a map that holds it.
    pub fn get(&self, key: &String) -> (r: Option<&Tag>)
        ensures
            r is Some == tag_lookup(*self, key@) is Some,
            r matches Some(v) ==> tag_lookup(*self, key@) == Some(*v),
    {
        match self {
            Tag::Dict(entries) => lookup_entries(entries, key),
            _ => None,
        }
    }

    /// Whether `found` satisfies `expected` (see `tag_compatible`).
    #[verifier::loop_isolation(false)]
    pub fn is_compatible(expected: &Tag, found: &Tag) -> (r: bool)
        ensures
            r == tag_compatible(*expected, *found),
        decreases expected,
    {
        match expected {
            Tag::Null => match found {
                Tag::Null => true,
                _ => false,
            },
            Tag::Bool(b) => match found {
                Tag::Bool(c) => *b == *c,
                _ => false,
            },
            Tag::Int(i) => match found {
                Tag::Int(j) => *i == *j,
                _ => false,
            },
            Tag::Str(s) => match found {
                Tag::Str(t) => *s == *t,
                _ => false,
            },
            Tag::List(xs) => match found {
                Tag::List(ys) => {
                    if xs.len() != ys.len() {
                        return false;
                    }
                    let mut k: usize = 0;
                    while k < xs.len()
                        invariant
                            k <= xs@.len(),
                            xs@.len() == ys@.len(),
                            prefix_compatible(*expected, *found, k as nat),
                        decreases xs.len() - k,
                    {
                        proof {
                            let ghost xv = xs@;
                            assert(decreases_to!(*expected => *xs));
                            assert(decreases_to!(*xs => xv));
                            assert(decreases_to!(xv => xv[k as int]));
                        }
                        let ok = Tag::is_compatible(&xs[k], &ys[k]);
                        assert(ok == element_compatible(*expected, *found, k as nat));
                        if !ok {
                            proof {
                                if prefix_compatible(*expected, *found, xs@.len()) {
                                    lemma_prefix_elements(*expected, *found, xs@.len(), k as nat);
                                }
                            }
                            return false;
                        }
                        k = k + 1;
                    }
                    true
                },
                _ => false,
            },
            Tag::Dict(xs) => match found {
                Tag::Dict(ys) => {
                    let mut k: usize = 0;
                    while k < xs.len()
                        invariant
                            k <= xs@.len(),
                            prefix_compatible(*expected, *found, k as nat),
                        decreases xs.len() - k,
                    {
                        let mut m: usize = 0;
                        let mut hit = false;
                        while m < ys.len() && !hit
                            invariant
                                m <= ys@.len(),
                                k < xs@.len(),
                                hit == entry_found(*expected, *found, k as nat, m as nat),
                            decreases ys.len() - m,
                        {
                            if xs[k].key == ys[m].key {
                                proof {
                                    let ghost xv = xs@;
                                    let ghost yv = ys@;
                                    let ghost e = xv[k as int];
                                    assert(decreases_to!(*expected => *xs));
                                    assert(decreases_to!(*xs => xv));
                                    assert(decreases_to!(xv => e));
                                    assert(decreases_to!(e => e.value));
                                }
                                hit = Tag::is_compatible(&xs[k].value, &ys[m].value);
                            }
                            m = m + 1;
                        }
                        if !hit {
                            proof {
                                lemma_entry_found_mono(*expected, *found, k as nat, m as nat, ys@.len());
                                if prefix_compatible(*expected, *found, xs@.len()) {
                                    lemma_prefix_elements(*expected, *found, xs@.len(), k as nat);
                                }
                            }
                            return false;
                        }
                        proof {
                            lemma_entry_found_mono(*expected, *found, k as nat, m as nat, ys@.len());
                            assert(element_compatible(*expected, *found, k as nat));
                            assert(prefix_compatible(*expected, *found, (k + 1) as nat));
                        }
                        k = k + 1;
                    }
                    true
                },
                _ => false,
            },
        }
    }
}

} // verus!
