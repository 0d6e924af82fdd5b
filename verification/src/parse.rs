//! The syntax provider: the incremental parser engine behind trusted
//! wrappers, and the conversion of its trees into the library's model.
use vstd::prelude::*;

use crate::tree::SynNode;

verus! {

#[verifier::external_type_specification]
#[verifier::external_body]
pub struct ExLanguage(tree_sitter::Language);

#[verifier::external_type_specification]
#[verifier::external_body]
pub struct ExTree(tree_sitter::Tree);

#[verifier::external_type_specification]
#[verifier::external_body]
pub struct ExNode<'a>(tree_sitter::Node<'a>);

/// Relies on tree_sitter_julia::LANGUAGE: the Julia grammar, handed to
/// the parser engine.
#[verifier::external_body]
pub fn julia_lang() -> tree_sitter::Language {
    tree_sitter_julia::LANGUAGE.into()
}

/// Relies on tree_sitter::Parser (new, set_language, parse): parses
/// the source with the given grammar, optionally reusing an earlier
/// tree; returns nothing when the engine declines the grammar or the
/// parse.
#[verifier::external_body]
pub(crate) fn parse_with(
    lang: &tree_sitter::Language,
    source: &Vec<u8>,
    old: Option<&tree_sitter::Tree>,
) -> Option<tree_sitter::Tree> {
    let mut parser = tree_sitter::Parser::new();
    if parser.set_language(lang).is_err() {
        return None;
    }
    parser.parse(source.as_slice(), old)
}

/// Parse Julia source with a fresh parser, as the diagnostics path
/// does: the tree, or nothing when the engine declines.
pub fn parse(source: &Vec<u8>, old: Option<&tree_sitter::Tree>) -> Option<tree_sitter::Tree> {
    let lang = julia_lang();
    parse_with(&lang, source, old)
}

/// The tree the engine yields for this source under the fixed Julia
/// grammar, in the library's model. With no previous tree and no
/// cancellation the engine's output depends on the text alone, so the
/// result bears a name.
pub uninterp spec fn julia_tree_of(s: Seq<u8>) -> Option<SynNode>;

/// Relies on tree_sitter::Parser::parse under the fixed Julia grammar:
/// deterministic in the text when no previous tree is supplied; the
/// converted result is named `julia_tree_of`.
#[verifier::external_body]
pub(crate) fn parse_model(source: &Vec<u8>) -> (r: Option<SynNode>)
    ensures
        r == julia_tree_of(source@),
{
    let lang = julia_lang();
    parse_with(&lang, source, None).map(|t| tree_to_syn(&t))
}

/// Relies on tree_sitter::Tree::root_node.
#[verifier::external_body]
fn tree_root<'a>(t: &'a tree_sitter::Tree) -> tree_sitter::Node<'a> {
    t.root_node()
}

/// Relies on tree_sitter::Node::kind: the node's grammar kind.
#[verifier::external_body]
fn node_kind(n: &tree_sitter::Node<'_>) -> String {
    n.kind().to_string()
}

/// Relies on tree_sitter::Node::is_named.
#[verifier::external_body]
fn node_is_named(n: &tree_sitter::Node<'_>) -> bool {
    n.is_named()
}

/// Relies on tree_sitter::Node::start_byte.
#[verifier::external_body]
fn node_start_byte(n: &tree_sitter::Node<'_>) -> usize {
    n.start_byte()
}

/// Relies on tree_sitter::Node::end_byte.
#[verifier::external_body]
fn node_end_byte(n: &tree_sitter::Node<'_>) -> usize {
    n.end_byte()
}

/// Relies on tree_sitter::Node::child_count.
#[verifier::external_body]
fn node_child_count(n: &tree_sitter::Node<'_>) -> u32 {
    n.child_count()
}

/// Relies on tree_sitter::Node::child: the i-th child, if any.
#[verifier::external_body]
fn node_child<'a>(n: &tree_sitter::Node<'a>, i: u32) -> Option<tree_sitter::Node<'a>> {
    n.child(i)
}

/// Relies on tree_sitter::Node::field_name_for_child: the field label
/// the grammar gives the i-th child, if any.
#[verifier::external_body]
fn node_field(n: &tree_sitter::Node<'_>, i: u32) -> Option<String> {
    n.field_name_for_child(i).map(|s| s.to_string())
}

/// One open node during conversion.
struct ConvFrame<'a> {
    node: tree_sitter::Node<'a>,
    kind: String,
    named: bool,
    start: usize,
    end: usize,
    field: Option<String>,
    kids: Vec<SynNode>,
    next: u32,
}

fn frame_of<'a>(n: tree_sitter::Node<'a>, field: Option<String>) -> (r: ConvFrame<'a>) {
    let kind = node_kind(&n);
    let named = node_is_named(&n);
    let start = node_start_byte(&n);
    let end = node_end_byte(&n);
    ConvFrame { node: n, kind, named, start, end, field, kids: Vec::new(), next: 0 }
}

fn close_frame(f: ConvFrame<'_>) -> (r: SynNode) {
    SynNode {
        kind: f.kind,
        named: f.named,
        start: f.start,
        end: f.end,
        field: f.field,
        children: f.kids,
    }
}

/// Convert an engine tree into the library's model, walking every
/// child with an explicit stack. The walk is budgeted: a tree larger
/// than any machine can hold would be truncated rather than looping.
pub fn tree_to_syn(t: &tree_sitter::Tree) -> (r: SynNode) {
    let root = tree_root(t);
    let mut stack: Vec<ConvFrame> = Vec::new();
    stack.push(frame_of(root, None));
    let mut budget: usize = usize::MAX;
    while budget > 0
        invariant
            stack@.len() >= 1,
        decreases budget,
    {
        budget = budget - 1;
        let fi = stack.len() - 1;
        let cnt = node_child_count(&stack[fi].node);
        let next = stack[fi].next;
        if next < cnt {
            let child = node_child(&stack[fi].node, next);
            let fname = node_field(&stack[fi].node, next);
            let mut top = match stack.pop() {
                Some(f) => f,
                None => {
                    proof {
                        assert(false);
                    }
                    unreached()
                },
            };
            top.next = next + 1;
            stack.push(top);
            match child {
                Some(c) => {
                    stack.push(frame_of(c, fname));
                },
                None => {},
            }
        } else {
            let f = match stack.pop() {
                Some(f) => f,
                None => {
                    proof {
                        assert(false);
                    }
                    unreached()
                },
            };
            let node = close_frame(f);
            if stack.len() > 0 {
                let mut parent = match stack.pop() {
                    Some(p) => p,
                    None => {
                        proof {
                            assert(false);
                        }
                        unreached()
                    },
                };
                parent.kids.push(node);
                stack.push(parent);
            } else {
                return node;
            }
        }
    }
    // the budget ran out: close whatever is still open
    while stack.len() > 1
        invariant
            stack@.len() >= 1,
        decreases stack@.len(),
    {
        let f = match stack.pop() {
            Some(f) => f,
            None => {
                proof {
                    assert(false);
                }
                unreached()
            },
        };
        let node = close_frame(f);
        let mut parent = match stack.pop() {
            Some(p) => p,
            None => {
                proof {
                    assert(false);
                }
                unreached()
            },
        };
        parent.kids.push(node);
        stack.push(parent);
    }
    let f = match stack.pop() {
        Some(f) => f,
        None => {
            proof {
                assert(false);
            }
            unreached()
        },
    };
    close_frame(f)
}

} // verus!
