//! The library's model of a parsed syntax tree, and the classification
//! and name-resolution rules of the symbol extractor.
use vstd::prelude::*;

use crate::types::SymKind;

verus! {

/// One node of a syntax tree: its grammar kind, whether the grammar
/// names it, its byte range, the field label it carries under its
/// parent, and its children in source order.
pub struct SynNode {
    pub kind: String,
    pub named: bool,
    pub start: usize,
    pub end: usize,
    pub field: Option<String>,
    pub children: Vec<SynNode>,
}

/// The classification table: which grammar kinds are symbols, and of
/// what kind. Unlisted kinds are not symbols.
pub open spec fn spec_kind_for(k: Seq<char>) -> Option<SymKind> {
    if k == "module_definition"@ || k == "bare_module_definition"@ {
        Some(SymKind::Module)
    } else if k == "function_definition"@ || k == "short_function_definition"@ {
        Some(SymKind::Function)
    } else if k == "macro_definition"@ {
        Some(SymKind::Function)
    } else if k == "struct_definition"@ || k == "primitive_type_definition"@ || k
        == "primitive_definition"@ {
        Some(SymKind::Struct)
    } else if k == "abstract_definition"@ {
        Some(SymKind::Class)
    } else if k == "type_alias"@ {
        Some(SymKind::TypeParameter)
    } else if k == "const_statement"@ {
        Some(SymKind::Constant)
    } else {
        None
    }
}

/// Classify a grammar kind.
pub fn kind_for(k: &String) -> (r: Option<SymKind>)
    ensures
        r == spec_kind_for(k@),
{
    if *k == "module_definition".to_owned() || *k == "bare_module_definition".to_owned() {
        Some(SymKind::Module)
    } else if *k == "function_definition".to_owned() || *k
        == "short_function_definition".to_owned() {
        Some(SymKind::Function)
    } else if *k == "macro_definition".to_owned() {
        Some(SymKind::Function)
    } else if *k == "struct_definition".to_owned() || *k == "primitive_type_definition".to_owned()
        || *k == "primitive_definition".to_owned() {
        Some(SymKind::Struct)
    } else if *k == "abstract_definition".to_owned() {
        Some(SymKind::Class)
    } else if *k == "type_alias".to_owned() {
        Some(SymKind::TypeParameter)
    } else if *k == "const_statement".to_owned() {
        Some(SymKind::Constant)
    } else {
        None
    }
}

/// The grammar kinds that can serve as a symbol's name token.
pub open spec fn spec_is_name_kind(k: Seq<char>) -> bool {
    ||| k == "identifier"@
    ||| k == "macro_identifier"@
    ||| k == "type_identifier"@
    ||| k == "scoped_identifier"@
    ||| k == "field_identifier"@
    ||| k == "operator"@
    ||| k == "property_identifier"@
}

/// Whether a grammar kind is identifier-like.
pub fn is_name_kind(k: &String) -> (r: bool)
    ensures
        r == spec_is_name_kind(k@),
{
    *k == "identifier".to_owned() || *k == "macro_identifier".to_owned() || *k
        == "type_identifier".to_owned() || *k == "scoped_identifier".to_owned() || *k
        == "field_identifier".to_owned() || *k == "operator".to_owned() || *k
        == "property_identifier".to_owned()
}

/// The byte range of the first identifier-like node found by
/// depth-first search from `n`, descending through named children.
pub open spec fn find_name_in(n: SynNode) -> Option<(usize, usize)>
    decreases n, 0int,
{
    if n.named && spec_is_name_kind(n.kind@) {
        Some((n.start, n.end))
    } else {
        find_name_in_list(n.children@, 0)
    }
}

pub open spec fn find_name_in_list(cs: Seq<SynNode>, i: int) -> Option<(usize, usize)>
    decreases cs, cs.len() - i,
{
    if i < 0 || i >= cs.len() {
        None
    } else if cs[i].named {
        match find_name_in(cs[i]) {
            Some(r) => Some(r),
            None => find_name_in_list(cs, i + 1),
        }
    } else {
        find_name_in_list(cs, i + 1)
    }
}

/// The first child carrying the given field label.
pub open spec fn spec_field_child(cs: Seq<SynNode>, f: Seq<char>, i: int) -> Option<int>
    decreases cs.len() - i,
{
    if i < 0 || i >= cs.len() {
        None
    } else if match cs[i].field {
        Some(l) => l@ == f,
        None => false,
    } {
        Some(i)
    } else {
        spec_field_child(cs, f, i + 1)
    }
}

/// The name token of a classified node, by the resolution order: an
/// explicit `name` child; an identifier under the assignment's `left`
/// child; one under its `signature` child; the first identifier
/// anywhere under the node. `None` when nothing resolves.
pub open spec fn spec_name_of(n: SynNode) -> Option<(usize, usize)> {
    let cs = n.children@;
    if spec_field_child(cs, "name"@, 0) is Some {
        let i = spec_field_child(cs, "name"@, 0).unwrap();
        Some((cs[i].start, cs[i].end))
    } else if spec_field_child(cs, "left"@, 0) is Some && find_name_in(
        cs[spec_field_child(cs, "left"@, 0).unwrap()],
    ) is Some {
        find_name_in(cs[spec_field_child(cs, "left"@, 0).unwrap()])
    } else if spec_field_child(cs, "signature"@, 0) is Some && find_name_in(
        cs[spec_field_child(cs, "signature"@, 0).unwrap()],
    ) is Some {
        find_name_in(cs[spec_field_child(cs, "signature"@, 0).unwrap()])
    } else {
        find_name_in(n)
    }
}

/// Depth-first search for an identifier-like node, named children only.
pub fn find_name(n: &SynNode) -> (r: Option<(usize, usize)>)
    ensures
        r == find_name_in(*n),
    decreases *n,
{
    if n.named && is_name_kind(&n.kind) {
        return Some((n.start, n.end));
    }
    let mut i: usize = 0;
    while i < n.children.len()
        invariant
            i <= n.children@.len(),
            find_name_in_list(n.children@, 0) == find_name_in_list(n.children@, i as int),
            !(n.named && spec_is_name_kind(n.kind@)),
        decreases n.children@.len() - i,
    {
        if n.children[i].named {
            let sub = find_name(&n.children[i]);
            match sub {
                Some(r) => {
                    return Some(r);
                },
                None => {},
            }
        }
        i += 1;
    }
    None
}

/// Find the first child with the given field label.
pub fn field_child(n: &SynNode, f: &String) -> (r: Option<usize>)
    ensures
        match r {
            Some(i) => i < n.children@.len() && spec_field_child(n.children@, f@, 0) == Some(
                i as int,
            ),
            None => spec_field_child(n.children@, f@, 0) is None,
        },
{
    let mut i: usize = 0;
    while i < n.children.len()
        invariant
            i <= n.children@.len(),
            spec_field_child(n.children@, f@, 0) == spec_field_child(n.children@, f@, i as int),
        decreases n.children@.len() - i,
    {
        let hit = match &n.children[i].field {
            Some(l) => *l == f.clone(),
            None => false,
        };
        if hit {
            return Some(i);
        }
        i += 1;
    }
    None
}

/// Resolve a classified node's name token range.
pub fn name_of(n: &SynNode) -> (r: Option<(usize, usize)>)
    ensures
        r == spec_name_of(*n),
{
    match field_child(n, &"name".to_owned()) {
        Some(i) => {
            return Some((n.children[i].start, n.children[i].end));
        },
        None => {},
    }
    match field_child(n, &"left".to_owned()) {
        Some(i) => {
            match find_name(&n.children[i]) {
                Some(r) => {
                    return Some(r);
                },
                None => {},
            }
        },
        None => {},
    }
    match field_child(n, &"signature".to_owned()) {
        Some(i) => {
            match find_name(&n.children[i]) {
                Some(r) => {
                    return Some(r);
                },
                None => {},
            }
        },
        None => {},
    }
    find_name(n)
}

} // verus!
