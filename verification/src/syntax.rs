//! Syntax-aware chunking over a parsed tree.
//!
//! The parser itself lives outside the library; what reaches this module is
//! a [`SyntaxNode`] tree of plain values: node kind, byte range, row range,
//! field label and named children, in source order. The walk mirrors the
//! grammar-driven chunker: top-level definitions become chunks with a crumb
//! trail, the text between definitions becomes block chunks, and a file
//! without definitions yields no chunks at all.

use vstd::prelude::*;
use vstd::multiset::Multiset;
use crate::bytes::{push_all, sub_vec, spec_starts_with, spec_has_sub, starts_with, has_sub};
use crate::chunker::{
    Chunk, ChunkType, ChunkView, chunk_views, clone_context, file_crumb, spec_file_crumb,
    spec_simple_chunks, first_non_ws_from, spec_is_ws, MAX_CONTENT,
};

verus! {

/// The grammar species of a node, a closed sum over the kinds the chunker
/// reads; everything else is `Other`.
#[derive(Clone, Copy, Debug, PartialEq, Eq, Structural)]
pub enum NodeKind {
    FunctionDeclaration,
    FunctionDefinition,
    MethodDefinition,
    MethodDeclaration,
    ClassDeclaration,
    ClassDefinition,
    InterfaceDeclaration,
    TypeAliasDeclaration,
    TypeDeclaration,
    ExportStatement,
    LexicalDeclaration,
    VariableDeclaration,
    VariableDeclarator,
    Program,
    Module,
    SourceFile,
    ClassBody,
    Identifier,
    PropertyIdentifier,
    TypeIdentifier,
    FieldIdentifier,
    Other,
}

/// The field a node occupies in its parent, for the fields the chunker
/// reads.
#[derive(Clone, Copy, Debug, PartialEq, Eq, Structural)]
pub enum FieldLabel {
    Name,
    Property,
    Identifier,
    Unlabeled,
}

/// A parsed node as plain values: kind, byte and row ranges into the source
/// buffer, field label, and named children in source order.
pub struct SyntaxNode {
    pub kind: NodeKind,
    pub field: FieldLabel,
    pub start_byte: usize,
    pub end_byte: usize,
    pub start_row: usize,
    pub end_row: usize,
    pub children: Vec<SyntaxNode>,
}

/// Ranges of the node and of every node below it lie inside the buffer and
/// inside the line-arithmetic cap.
pub open spec fn wf_node(n: SyntaxNode, len: int) -> bool
    decreases n,
{
    &&& n.start_byte <= n.end_byte <= len
    &&& n.start_row <= n.end_row <= MAX_CONTENT
    &&& forall|i: int|
        0 <= i < n.children@.len() ==> wf_node(#[trigger] n.children@[i], len)
}

/// The direct children of `n` lie inside it, in source order and without
/// overlap, in bytes and in rows.
pub open spec fn root_ordered(n: SyntaxNode) -> bool {
    &&& forall|i: int|
        0 <= i < n.children@.len() ==> {
            let c = #[trigger] n.children@[i];
            c.start_byte >= n.start_byte && c.end_byte <= n.end_byte && c.start_row
                >= n.start_row && c.end_row <= n.end_row
        }
    &&& forall|i: int|
        0 <= i < n.children@.len() - 1 ==> {
            let c = #[trigger] n.children@[i];
            c.end_byte <= n.children@[i + 1].start_byte && c.end_row <= n.children@[i
                + 1].start_row
        }
}

/// An `export_statement` stands for its first named child.
pub open spec fn spec_effective(n: SyntaxNode) -> SyntaxNode {
    if n.kind == NodeKind::ExportStatement && n.children@.len() > 0 {
        n.children@[0]
    } else {
        n
    }
}

/// Whether unwrapping happened, which changes the parent seen by the
/// value-binding test.
pub open spec fn spec_effective_parent(n: SyntaxNode, parent: NodeKind) -> NodeKind {
    if n.kind == NodeKind::ExportStatement && n.children@.len() > 0 {
        NodeKind::ExportStatement
    } else {
        parent
    }
}

fn effective(n: &SyntaxNode) -> (r: &SyntaxNode)
    ensures
        *r == spec_effective(*n),
{
    if matches!(n.kind, NodeKind::ExportStatement) && n.children.len() > 0 {
        &n.children[0]
    } else {
        n
    }
}

/// A kind that is a definition wherever it appears.
pub open spec fn spec_is_def_kind(k: NodeKind) -> bool {
    ||| k == NodeKind::FunctionDeclaration
    ||| k == NodeKind::FunctionDefinition
    ||| k == NodeKind::MethodDefinition
    ||| k == NodeKind::MethodDeclaration
    ||| k == NodeKind::ClassDeclaration
    ||| k == NodeKind::ClassDefinition
    ||| k == NodeKind::InterfaceDeclaration
    ||| k == NodeKind::TypeAliasDeclaration
    ||| k == NodeKind::TypeDeclaration
}

fn is_def_kind(k: NodeKind) -> (r: bool)
    ensures
        r == spec_is_def_kind(k),
{
    matches!(
        k,
        NodeKind::FunctionDeclaration | NodeKind::FunctionDefinition | NodeKind::MethodDefinition
            | NodeKind::MethodDeclaration | NodeKind::ClassDeclaration
            | NodeKind::ClassDefinition | NodeKind::InterfaceDeclaration
            | NodeKind::TypeAliasDeclaration | NodeKind::TypeDeclaration
    )
}

/// A parent under which a value binding counts as a definition.
pub open spec fn spec_is_container_kind(k: NodeKind) -> bool {
    ||| k == NodeKind::Program
    ||| k == NodeKind::Module
    ||| k == NodeKind::SourceFile
    ||| k == NodeKind::ClassBody
}

/// `=>`: the arrow of an arrow function.
pub open spec fn spec_arrow_pat() -> Seq<u8> {
    seq![61u8, 62u8]
}

/// `function `: a function expression keyword.
pub open spec fn spec_function_pat() -> Seq<u8> {
    seq![102u8, 117u8, 110u8, 99u8, 116u8, 105u8, 111u8, 110u8, 32u8]
}

/// `class `: a class expression keyword.
pub open spec fn spec_class_pat() -> Seq<u8> {
    seq![99u8, 108u8, 97u8, 115u8, 115u8, 32u8]
}

/// `const `: the keyword of a constant binding.
pub open spec fn spec_const_pat() -> Seq<u8> {
    seq![99u8, 111u8, 110u8, 115u8, 116u8, 32u8]
}

fn arrow_pat() -> (r: Vec<u8>)
    ensures
        r@ == spec_arrow_pat(),
{
    let mut v: Vec<u8> = Vec::new();
    v.push(61);
    v.push(62);
    proof {
        assert(v@ =~= spec_arrow_pat());
    }
    v
}

fn function_pat() -> (r: Vec<u8>)
    ensures
        r@ == spec_function_pat(),
{
    let mut v: Vec<u8> = Vec::new();
    v.push(102);
    v.push(117);
    v.push(110);
    v.push(99);
    v.push(116);
    v.push(105);
    v.push(111);
    v.push(110);
    v.push(32);
    proof {
        assert(v@ =~= spec_function_pat());
    }
    v
}

fn class_pat() -> (r: Vec<u8>)
    ensures
        r@ == spec_class_pat(),
{
    let mut v: Vec<u8> = Vec::new();
    v.push(99);
    v.push(108);
    v.push(97);
    v.push(115);
    v.push(115);
    v.push(32);
    proof {
        assert(v@ =~= spec_class_pat());
    }
    v
}

fn const_pat() -> (r: Vec<u8>)
    ensures
        r@ == spec_const_pat(),
{
    let mut v: Vec<u8> = Vec::new();
    v.push(99);
    v.push(111);
    v.push(110);
    v.push(115);
    v.push(116);
    v.push(32);
    proof {
        assert(v@ =~= spec_const_pat());
    }
    v
}

/// The text of a node: its byte range of the source buffer.
pub open spec fn spec_node_text(n: SyntaxNode, content: Seq<u8>) -> Seq<u8> {
    content.subrange(n.start_byte as int, n.end_byte as int)
}

/// A top-level value binding that holds a function, arrow function, class
/// expression or constant binding.
pub open spec fn spec_is_value_def(n: SyntaxNode, content: Seq<u8>, parent: NodeKind) -> bool {
    &&& (n.kind == NodeKind::LexicalDeclaration || n.kind == NodeKind::VariableDeclaration)
    &&& spec_is_container_kind(parent)
    &&& {
        let text = spec_node_text(n, content);
        ||| spec_has_sub(text, spec_arrow_pat())
        ||| spec_has_sub(text, spec_function_pat())
        ||| spec_has_sub(text, spec_class_pat())
        ||| spec_starts_with(
            text.subrange(first_non_ws_from(text, 0), text.len() as int),
            spec_const_pat(),
        )
    }
}

fn is_value_def(n: &SyntaxNode, content: &[u8], parent: NodeKind) -> (r: bool)
    requires
        wf_node(*n, content@.len() as int),
    ensures
        r == spec_is_value_def(*n, content@, parent),
{
    if !(matches!(n.kind, NodeKind::LexicalDeclaration | NodeKind::VariableDeclaration)) {
        return false;
    }
    if !matches!(parent, NodeKind::Program | NodeKind::Module | NodeKind::SourceFile
        | NodeKind::ClassBody) {
        return false;
    }
    let text = vstd::slice::slice_subrange(content, n.start_byte, n.end_byte);
    let arrow = arrow_pat();
    if has_sub(text, arrow.as_slice()) {
        return true;
    }
    let func = function_pat();
    if has_sub(text, func.as_slice()) {
        return true;
    }
    let cls = class_pat();
    if has_sub(text, cls.as_slice()) {
        return true;
    }
    let mut lo: usize = 0;
    while lo < text.len() && crate::chunker::is_ws(text[lo])
        invariant
            0 <= lo <= text@.len(),
            forall|t: int| 0 <= t < lo ==> spec_is_ws(text@[t]),
        decreases text@.len() - lo,
    {
        lo += 1;
    }
    proof {
        crate::chunker::lemma_first_non_ws_from_unique(text@, 0, lo as int);
    }
    let tail = vstd::slice::slice_subrange(text, lo, text.len());
    let konst = const_pat();
    starts_with(tail, konst.as_slice())
}

/// A node that counts as a definition, after export unwrapping.
pub open spec fn spec_is_def(n: SyntaxNode, content: Seq<u8>, parent: NodeKind) -> bool {
    let eff = spec_effective(n);
    spec_is_def_kind(eff.kind) || spec_is_value_def(eff, content, spec_effective_parent(
        n,
        parent,
    ))
}

/// The chunk type a definition kind maps to.
pub open spec fn spec_classify(k: NodeKind) -> ChunkType {
    if k == NodeKind::ClassDeclaration || k == NodeKind::ClassDefinition || k
        == NodeKind::ClassBody {
        ChunkType::Class
    } else if k == NodeKind::InterfaceDeclaration {
        ChunkType::Interface
    } else if k == NodeKind::TypeAliasDeclaration || k == NodeKind::TypeDeclaration {
        ChunkType::TypeAlias
    } else {
        ChunkType::Other
    }
}

fn classify(k: NodeKind) -> (r: ChunkType)
    ensures
        r == spec_classify(k),
{
    match k {
        NodeKind::ClassDeclaration | NodeKind::ClassDefinition | NodeKind::ClassBody => {
            ChunkType::Class
        },
        NodeKind::InterfaceDeclaration => ChunkType::Interface,
        NodeKind::TypeAliasDeclaration | NodeKind::TypeDeclaration => ChunkType::TypeAlias,
        _ => ChunkType::Other,
    }
}

/// `Class: `.
pub open spec fn spec_class_tag() -> Seq<u8> {
    seq![67u8, 108u8, 97u8, 115u8, 115u8, 58u8, 32u8]
}

/// `Method: `.
pub open spec fn spec_method_tag() -> Seq<u8> {
    seq![77u8, 101u8, 116u8, 104u8, 111u8, 100u8, 58u8, 32u8]
}

/// `Interface: `.
pub open spec fn spec_interface_tag() -> Seq<u8> {
    seq![73u8, 110u8, 116u8, 101u8, 114u8, 102u8, 97u8, 99u8, 101u8, 58u8, 32u8]
}

/// `Type: `.
pub open spec fn spec_type_tag() -> Seq<u8> {
    seq![84u8, 121u8, 112u8, 101u8, 58u8, 32u8]
}

/// `Function: `.
pub open spec fn spec_function_tag() -> Seq<u8> {
    seq![70u8, 117u8, 110u8, 99u8, 116u8, 105u8, 111u8, 110u8, 58u8, 32u8]
}

/// `Symbol: `.
pub open spec fn spec_symbol_tag() -> Seq<u8> {
    seq![83u8, 121u8, 109u8, 98u8, 111u8, 108u8, 58u8, 32u8]
}

fn tag_bytes(which: u8) -> (r: Vec<u8>)
    requires
        which < 6,
    ensures
        which == 0 ==> r@ == spec_class_tag(),
        which == 1 ==> r@ == spec_method_tag(),
        which == 2 ==> r@ == spec_interface_tag(),
        which == 3 ==> r@ == spec_type_tag(),
        which == 4 ==> r@ == spec_function_tag(),
        which == 5 ==> r@ == spec_symbol_tag(),
{
    let mut v: Vec<u8> = Vec::new();
    if which == 0 {
        v.push(67);
        v.push(108);
        v.push(97);
        v.push(115);
        v.push(115);
        proof {
            assert(v@.push(58u8).push(32u8) =~= spec_class_tag());
        }
    } else if which == 1 {
        v.push(77);
        v.push(101);
        v.push(116);
        v.push(104);
        v.push(111);
        v.push(100);
        proof {
            assert(v@.push(58u8).push(32u8) =~= spec_method_tag());
        }
    } else if which == 2 {
        v.push(73);
        v.push(110);
        v.push(116);
        v.push(101);
        v.push(114);
        v.push(102);
        v.push(97);
        v.push(99);
        v.push(101);
        proof {
            assert(v@.push(58u8).push(32u8) =~= spec_interface_tag());
        }
    } else if which == 3 {
        v.push(84);
        v.push(121);
        v.push(112);
        v.push(101);
        proof {
            assert(v@.push(58u8).push(32u8) =~= spec_type_tag());
        }
    } else if which == 4 {
        v.push(70);
        v.push(117);
        v.push(110);
        v.push(99);
        v.push(116);
        v.push(105);
        v.push(111);
        v.push(110);
        proof {
            assert(v@.push(58u8).push(32u8) =~= spec_function_tag());
        }
    } else {
        v.push(83);
        v.push(121);
        v.push(109);
        v.push(98);
        v.push(111);
        v.push(108);
        proof {
            assert(v@.push(58u8).push(32u8) =~= spec_symbol_tag());
        }
    }
    v.push(58);
    v.push(32);
    v
}


/// The name-bearing text of the first child with a `name`, `property` or
/// `identifier` field.
pub open spec fn spec_name_field(cs: Seq<SyntaxNode>, content: Seq<u8>) -> Option<Seq<u8>>
    decreases cs,
{
    if cs.len() == 0 {
        None
    } else if cs[0].field == FieldLabel::Name || cs[0].field == FieldLabel::Property || cs[0].field
        == FieldLabel::Identifier {
        Some(spec_node_text(cs[0], content))
    } else {
        spec_name_field(cs.subrange(1, cs.len() as int), content)
    }
}

/// The text of the first identifier-like child, or the name found inside
/// the first `variable_declarator` child that has one.
pub open spec fn spec_name_ident(cs: Seq<SyntaxNode>, content: Seq<u8>) -> Option<Seq<u8>>
    decreases cs, 1int,
{
    if cs.len() == 0 {
        None
    } else if cs[0].kind == NodeKind::Identifier || cs[0].kind == NodeKind::PropertyIdentifier
        || cs[0].kind == NodeKind::TypeIdentifier || cs[0].kind == NodeKind::FieldIdentifier {
        Some(spec_node_text(cs[0], content))
    } else if cs[0].kind == NodeKind::VariableDeclarator && spec_node_name(cs[0], content)
        is Some {
        spec_node_name(cs[0], content)
    } else {
        spec_name_ident(cs.subrange(1, cs.len() as int), content)
    }
}

/// The name of a node: a named field first, identifier-like children next,
/// a declarator's name last.
pub open spec fn spec_node_name(n: SyntaxNode, content: Seq<u8>) -> Option<Seq<u8>>
    decreases n, 2int,
{
    match spec_name_field(n.children@, content) {
        Some(x) => Some(x),
        None => spec_name_ident(n.children@, content),
    }
}

/// `<anonymous>`, the stand-in for a nameless definition.
pub open spec fn spec_anon() -> Seq<u8> {
    seq![60u8, 97u8, 110u8, 111u8, 110u8, 121u8, 109u8, 111u8, 117u8, 115u8, 62u8]
}

/// The name a label carries: the node's name, or the stand-in.
pub open spec fn spec_label_name(n: SyntaxNode, content: Seq<u8>) -> Seq<u8> {
    match spec_node_name(n, content) {
        Some(x) => x,
        None => spec_anon(),
    }
}

/// The name of a node: the text of its `name`, `property` or `identifier`
/// field, else of its first identifier-like named child, else the name of a
/// `variable_declarator` child; exactly [`spec_node_name`].
#[verifier::rlimit(100)]
fn get_node_name(n: &SyntaxNode, content: &[u8]) -> (r: Option<Vec<u8>>)
    requires
        wf_node(*n, content@.len() as int),
    ensures
        match r {
            Some(v) => spec_node_name(*n, content@) == Some(v@),
            None => spec_node_name(*n, content@) is None,
        },
    decreases *n,
{
    let cs = &n.children;
    let mut i: usize = 0;
    proof {
        assert(cs@.subrange(0, cs@.len() as int) =~= cs@);
    }
    while i < n.children.len()
        invariant
            0 <= i <= n.children@.len(),
            wf_node(*n, content@.len() as int),
            spec_name_field(n.children@, content@) == spec_name_field(
                n.children@.subrange(i as int, n.children@.len() as int),
                content@,
            ),
        decreases n.children@.len() - i,
    {
        let c = &n.children[i];
        assert(wf_node(n.children@[i as int], content@.len() as int));
        let ghost tail = n.children@.subrange(i as int, n.children@.len() as int);
        proof {
            assert(tail[0] == n.children@[i as int]);
            assert(tail.subrange(1, tail.len() as int) =~= n.children@.subrange(
                i + 1,
                n.children@.len() as int,
            ));
        }
        if matches!(c.field, FieldLabel::Name | FieldLabel::Property | FieldLabel::Identifier) {
            let v = sub_vec(content, c.start_byte, c.end_byte);
            proof {
                assert(spec_name_field(tail, content@) == Some(spec_node_text(
                    n.children@[i as int],
                    content@,
                )));
            }
            return Some(v);
        }
        i += 1;
    }
    proof {
        assert(n.children@.subrange(n.children@.len() as int, n.children@.len() as int)
            =~= Seq::<SyntaxNode>::empty());
        assert(spec_name_field(n.children@, content@) is None);
        assert(cs@.subrange(0, cs@.len() as int) =~= cs@);
    }
    let mut j: usize = 0;
    while j < n.children.len()
        invariant
            0 <= j <= n.children@.len(),
            wf_node(*n, content@.len() as int),
            spec_name_field(n.children@, content@) is None,
            spec_name_ident(n.children@, content@) == spec_name_ident(
                n.children@.subrange(j as int, n.children@.len() as int),
                content@,
            ),
        decreases n.children@.len() - j,
    {
        let c = &n.children[j];
        assert(wf_node(n.children@[j as int], content@.len() as int));
        let ghost tail = n.children@.subrange(j as int, n.children@.len() as int);
        proof {
            assert(tail[0] == n.children@[j as int]);
            assert(tail.subrange(1, tail.len() as int) =~= n.children@.subrange(
                j + 1,
                n.children@.len() as int,
            ));
        }
        if matches!(
            c.kind,
            NodeKind::Identifier | NodeKind::PropertyIdentifier | NodeKind::TypeIdentifier
                | NodeKind::FieldIdentifier,
        ) {
            let v = sub_vec(content, c.start_byte, c.end_byte);
            proof {
                assert(spec_name_ident(tail, content@) == Some(spec_node_text(
                    n.children@[j as int],
                    content@,
                )));
            }
            return Some(v);
        }
        if matches!(c.kind, NodeKind::VariableDeclarator) {
            proof {
                assert(decreases_to!(*n => n.children));
                assert(decreases_to!(n.children => n.children@));
                vstd::seq::axiom_seq_index_decreases(n.children@, j as int);
            }
            let inner = get_node_name(c, content);
            if inner.is_some() {
                return inner;
            }
        }
        j += 1;
    }
    proof {
        assert(n.children@.subrange(n.children@.len() as int, n.children@.len() as int)
            =~= Seq::<SyntaxNode>::empty());
        assert(spec_name_ident(n.children@, content@) is None);
    }
    None
}

/// `<anonymous>`, the stand-in name for a nameless definition.
fn anonymous_name() -> (r: Vec<u8>)
    ensures
        r@ == spec_anon(),
{
    let mut v: Vec<u8> = Vec::new();
    v.push(60);
    v.push(97);
    v.push(110);
    v.push(111);
    v.push(110);
    v.push(121);
    v.push(109);
    v.push(111);
    v.push(117);
    v.push(115);
    v.push(62);
    proof {
        assert(v@ =~= spec_anon());
    }
    v
}

/// The crumb labelling a definition: a tag by kind, then the node's name
/// (or the stand-in for a nameless one); for other named nodes, a symbol
/// crumb.
fn label_for_node(n: &SyntaxNode, content: &[u8], parent: NodeKind) -> (r: Option<Vec<u8>>)
    requires
        wf_node(*n, content@.len() as int),
    ensures
        matches!(n.kind, NodeKind::ClassDeclaration | NodeKind::ClassDefinition
            | NodeKind::ClassBody) ==> (r matches Some(l) && l@ == spec_class_tag()
            + spec_label_name(*n, content@)),
        matches!(n.kind, NodeKind::MethodDefinition | NodeKind::MethodDeclaration) ==> (
        r matches Some(l) && l@ == spec_method_tag() + spec_label_name(*n, content@)),
        n.kind == NodeKind::InterfaceDeclaration ==> (r matches Some(l) && l@
            == spec_interface_tag() + spec_label_name(*n, content@)),
        matches!(n.kind, NodeKind::TypeAliasDeclaration | NodeKind::TypeDeclaration) ==> (
        r matches Some(l) && l@ == spec_type_tag() + spec_label_name(*n, content@)),
        matches!(n.kind, NodeKind::FunctionDeclaration | NodeKind::FunctionDefinition) ==> (
        r matches Some(l) && l@ == spec_function_tag() + spec_label_name(*n, content@)),
        spec_is_value_def(*n, content@, parent) && !spec_is_def_kind(n.kind) ==> (
        r matches Some(l) && l@ == spec_function_tag() + spec_label_name(*n, content@)),
        !spec_is_def_kind(n.kind) && !spec_is_value_def(*n, content@, parent) && !matches!(
            n.kind,
            NodeKind::ClassBody,
        ) ==> match spec_node_name(*n, content@) {
            Some(nm) => r matches Some(l) && l@ == spec_symbol_tag() + nm,
            None => r is None,
        },
        r matches Some(l) ==> spec_starts_with(l@, spec_class_tag()) || spec_starts_with(
            l@,
            spec_method_tag(),
        ) || spec_starts_with(l@, spec_interface_tag()) || spec_starts_with(
            l@,
            spec_type_tag(),
        ) || spec_starts_with(l@, spec_function_tag()) || spec_starts_with(
            l@,
            spec_symbol_tag(),
        ),
        match spec_label_of(*n, content@, parent) {
            Some(l) => r matches Some(v) && v@ == l,
            None => r is None,
        },
{
    let name = get_node_name(n, content);
    match n.kind {
        NodeKind::ClassDeclaration | NodeKind::ClassDefinition | NodeKind::ClassBody => {
            let mut l = tag_bytes(0);
            let ghost tagv = l@;
            match name {
                Some(v) => push_all(&mut l, v.as_slice()),
                None => {
                    let a = anonymous_name();
                    push_all(&mut l, a.as_slice());
                },
            }
            proof {
                assert(l@.subrange(0, tagv.len() as int) =~= tagv);
                assert(l@ =~= tagv + spec_label_name(*n, content@));
            }
            Some(l)
        },
        NodeKind::MethodDefinition | NodeKind::MethodDeclaration => {
            let mut l = tag_bytes(1);
            let ghost tagv = l@;
            match name {
                Some(v) => push_all(&mut l, v.as_slice()),
                None => {
                    let a = anonymous_name();
                    push_all(&mut l, a.as_slice());
                },
            }
            proof {
                assert(l@.subrange(0, tagv.len() as int) =~= tagv);
                assert(l@ =~= tagv + spec_label_name(*n, content@));
            }
            Some(l)
        },
        NodeKind::InterfaceDeclaration => {
            let mut l = tag_bytes(2);
            let ghost tagv = l@;
            match name {
                Some(v) => push_all(&mut l, v.as_slice()),
                None => {
                    let a = anonymous_name();
                    push_all(&mut l, a.as_slice());
                },
            }
            proof {
                assert(l@.subrange(0, tagv.len() as int) =~= tagv);
                assert(l@ =~= tagv + spec_label_name(*n, content@));
            }
            Some(l)
        },
        NodeKind::TypeAliasDeclaration | NodeKind::TypeDeclaration => {
            let mut l = tag_bytes(3);
            let ghost tagv = l@;
            match name {
                Some(v) => push_all(&mut l, v.as_slice()),
                None => {
                    let a = anonymous_name();
                    push_all(&mut l, a.as_slice());
                },
            }
            proof {
                assert(l@.subrange(0, tagv.len() as int) =~= tagv);
                assert(l@ =~= tagv + spec_label_name(*n, content@));
            }
            Some(l)
        },
        NodeKind::FunctionDeclaration | NodeKind::FunctionDefinition => {
            let mut l = tag_bytes(4);
            let ghost tagv = l@;
            match name {
                Some(v) => push_all(&mut l, v.as_slice()),
                None => {
                    let a = anonymous_name();
                    push_all(&mut l, a.as_slice());
                },
            }
            proof {
                assert(l@.subrange(0, tagv.len() as int) =~= tagv);
                assert(l@ =~= tagv + spec_label_name(*n, content@));
            }
            Some(l)
        },
        _ => {
            if is_value_def(n, content, parent) {
                let mut l = tag_bytes(4);
                let ghost tagv = l@;
                match name {
                    Some(v) => push_all(&mut l, v.as_slice()),
                    None => {
                        let a = anonymous_name();
                        push_all(&mut l, a.as_slice());
                    },
                }
                proof {
                    assert(l@.subrange(0, tagv.len() as int) =~= tagv);
                }
                Some(l)
            } else {
                match name {
                    Some(v) => {
                        let mut l = tag_bytes(5);
                        let ghost tagv = l@;
                        push_all(&mut l, v.as_slice());
                        proof {
                            assert(l@.subrange(0, tagv.len() as int) =~= tagv);
                            assert(l@ =~= tagv + v@);
                        }
                        Some(l)
                    },
                    None => None,
                }
            }
        },
    }
}


/// The crumb a node gets, if any: mirrors the labelling rules case for
/// case.
pub open spec fn spec_label_of(eff: SyntaxNode, content: Seq<u8>, eff_parent: NodeKind) -> Option<
    Seq<u8>,
> {
    if eff.kind == NodeKind::ClassDeclaration || eff.kind == NodeKind::ClassDefinition
        || eff.kind == NodeKind::ClassBody {
        Some(spec_class_tag() + spec_label_name(eff, content))
    } else if eff.kind == NodeKind::MethodDefinition || eff.kind == NodeKind::MethodDeclaration {
        Some(spec_method_tag() + spec_label_name(eff, content))
    } else if eff.kind == NodeKind::InterfaceDeclaration {
        Some(spec_interface_tag() + spec_label_name(eff, content))
    } else if eff.kind == NodeKind::TypeAliasDeclaration || eff.kind
        == NodeKind::TypeDeclaration {
        Some(spec_type_tag() + spec_label_name(eff, content))
    } else if eff.kind == NodeKind::FunctionDeclaration || eff.kind
        == NodeKind::FunctionDefinition {
        Some(spec_function_tag() + spec_label_name(eff, content))
    } else if spec_is_value_def(eff, content, eff_parent) {
        Some(spec_function_tag() + spec_label_name(eff, content))
    } else {
        match spec_node_name(eff, content) {
            Some(nm) => Some(spec_symbol_tag() + nm),
            None => None,
        }
    }
}

/// A chunk that is this definition node, exactly: its unwrapped byte
/// slice, its rows, its classification, and its label as the last crumb.
pub open spec fn chunk_is_def_node(
    cv: ChunkView,
    n: SyntaxNode,
    content: Seq<u8>,
    parent: NodeKind,
) -> bool {
    let eff = spec_effective(n);
    let eff_parent = spec_effective_parent(n, parent);
    &&& spec_is_def(n, content, parent)
    &&& cv.content == spec_node_text(eff, content)
    &&& cv.start_line == eff.start_row
    &&& cv.end_line == eff.end_row
    &&& cv.chunk_type == spec_classify(eff.kind)
    &&& match spec_label_of(eff, content, eff_parent) {
        Some(l) => cv.context.len() >= 1 && cv.context.last() == l,
        None => true,
    }
}

/// The chunk is some definition node of this subtree, exactly.
pub open spec fn chunk_of_def(
    cv: ChunkView,
    n: SyntaxNode,
    content: Seq<u8>,
    parent: NodeKind,
) -> bool
    decreases n,
{
    chunk_is_def_node(cv, n, content, parent) || children_chunk_of_def(
        cv,
        spec_effective(n).children@,
        content,
        spec_effective(n).kind,
    )
}

/// The chunk is a definition node in the subtree of one of these nodes.
pub open spec fn children_chunk_of_def(
    cv: ChunkView,
    cs: Seq<SyntaxNode>,
    content: Seq<u8>,
    parent: NodeKind,
) -> bool
    decreases cs,
{
    if cs.len() == 0 {
        false
    } else {
        chunk_of_def(cv, cs[0], content, parent) || children_chunk_of_def(
            cv,
            cs.subrange(1, cs.len() as int),
            content,
            parent,
        )
    }
}

proof fn lemma_children_chunk_of_def_index(
    cv: ChunkView,
    cs: Seq<SyntaxNode>,
    content: Seq<u8>,
    parent: NodeKind,
    j: int,
)
    requires
        0 <= j < cs.len(),
        chunk_of_def(cv, cs[j], content, parent),
    ensures
        children_chunk_of_def(cv, cs, content, parent),
    decreases j,
{
    if j > 0 {
        let rest = cs.subrange(1, cs.len() as int);
        assert(rest[j - 1] == cs[j]);
        lemma_children_chunk_of_def_index(cv, rest, content, parent, j - 1);
    }
}

/// A definition sits in this node's subtree (after export unwrapping).
pub open spec fn spec_subtree_has_def(n: SyntaxNode, content: Seq<u8>, parent: NodeKind) -> bool
    decreases n,
{
    spec_is_def(n, content, parent) || spec_children_have_def(
        spec_effective(n).children@,
        content,
        spec_effective(n).kind,
    )
}

/// A definition sits in the subtree of one of these nodes.
pub open spec fn spec_children_have_def(
    cs: Seq<SyntaxNode>,
    content: Seq<u8>,
    parent: NodeKind,
) -> bool
    decreases cs,
{
    if cs.len() == 0 {
        false
    } else {
        spec_subtree_has_def(cs[0], content, parent) || spec_children_have_def(
            cs.subrange(1, cs.len() as int),
            content,
            parent,
        )
    }
}

pub proof fn lemma_children_have_def_index(cs: Seq<SyntaxNode>, content: Seq<u8>, parent: NodeKind)
    ensures
        spec_children_have_def(cs, content, parent) <==> exists|i: int|
            0 <= i < cs.len() && spec_subtree_has_def(#[trigger] cs[i], content, parent),
    decreases cs.len(),
{
    if cs.len() > 0 {
        let rest = cs.subrange(1, cs.len() as int);
        lemma_children_have_def_index(rest, content, parent);
        if spec_children_have_def(cs, content, parent) {
            if spec_subtree_has_def(cs[0], content, parent) {
            } else {
                let i = choose|i: int|
                    0 <= i < rest.len() && spec_subtree_has_def(#[trigger] rest[i], content,
                    parent);
                assert(cs[i + 1] == rest[i]);
            }
        }
        if exists|i: int|
            0 <= i < cs.len() && spec_subtree_has_def(#[trigger] cs[i], content, parent) {
            let i = choose|i: int|
                0 <= i < cs.len() && spec_subtree_has_def(#[trigger] cs[i], content, parent);
            if i > 0 {
                assert(rest[i - 1] == cs[i]);
            }
        }
    }
}

/// A chunk that witnesses a definition: a class, interface or type chunk,
/// or an `Other` chunk whose last crumb is a function or method label.
pub open spec fn def_chunk(cv: ChunkView) -> bool {
    ||| cv.chunk_type == ChunkType::Class
    ||| cv.chunk_type == ChunkType::Interface
    ||| cv.chunk_type == ChunkType::TypeAlias
    ||| (cv.chunk_type == ChunkType::Other && cv.context.len() > 0 && (spec_starts_with(
        cv.context.last(),
        spec_function_tag(),
    ) || spec_starts_with(cv.context.last(), spec_method_tag())))
}

/// What every chunk of the tree walk satisfies: its content is a
/// contiguous slice of the source buffer, its line bounds are ordered and
/// within the arithmetic cap, and it is no anchor.
pub open spec fn tree_piece_ok(cv: ChunkView, content: Seq<u8>) -> bool {
    &&& exists|a: int, b: int|
        0 <= a <= b <= content.len() && cv.content == #[trigger] content.subrange(a, b)
    &&& 0 <= cv.start_line <= cv.end_line <= MAX_CONTENT
    &&& !cv.is_anchor
}

/// A slice witness establishes `tree_piece_ok`'s content clause.
pub proof fn lemma_piece_slice(cv: ChunkView, content: Seq<u8>, a: int, b: int)
    requires
        0 <= a <= b <= content.len(),
        cv.content == content.subrange(a, b),
        0 <= cv.start_line <= cv.end_line <= MAX_CONTENT,
        !cv.is_anchor,
    ensures
        tree_piece_ok(cv, content),
{
    assert(cv.content == content.subrange(a, b));
}

/// Any byte of the slice is not whitespace.
fn has_non_ws(s: &[u8]) -> (r: bool)
    ensures
        r <==> first_non_ws_from(s@, 0) < s@.len(),
{
    let mut lo: usize = 0;
    while lo < s.len() && crate::chunker::is_ws(s[lo])
        invariant
            0 <= lo <= s@.len(),
            forall|t: int| 0 <= t < lo ==> spec_is_ws(s@[t]),
        decreases s@.len() - lo,
    {
        lo += 1;
    }
    proof {
        crate::chunker::lemma_first_non_ws_from_unique(s@, 0, lo as int);
    }
    lo < s.len()
}

/// Walks a node: a definition becomes a chunk labelled with its crumb
/// trail, and the walk descends into the node's (unwrapped) children.
#[verifier::rlimit(100)]
#[verifier::spinoff_prover]
fn visit_node(
    node: &SyntaxNode,
    content: &[u8],
    stack: &Vec<Vec<u8>>,
    chunks: &mut Vec<Chunk>,
    saw: &mut bool,
    parent: NodeKind,
)
    requires
        wf_node(*node, content@.len() as int),
        content@.len() <= MAX_CONTENT,
    ensures
        final(chunks)@.len() >= old(chunks)@.len(),
        forall|t: int|
            0 <= t < old(chunks)@.len() ==> #[trigger] chunk_views(final(chunks)@)[t]
                == chunk_views(old(chunks)@)[t],
        forall|t: int|
            old(chunks)@.len() <= t < final(chunks)@.len() ==> tree_piece_ok(
                #[trigger] chunk_views(final(chunks)@)[t],
                content@,
            ),
        forall|t: int|
            old(chunks)@.len() <= t < final(chunks)@.len() ==> chunk_of_def(
                #[trigger] chunk_views(final(chunks)@)[t],
                *node,
                content@,
                parent,
            ),
        *final(saw) == (*old(saw) || spec_subtree_has_def(*node, content@, parent)),
        spec_subtree_has_def(*node, content@, parent) ==> exists|t: int|
            old(chunks)@.len() <= t < final(chunks)@.len() && def_chunk(
                #[trigger] chunk_views(final(chunks)@)[t],
            ),
    decreases *node,
{
    let ghost old_len = chunks@.len() as int;
    let eff = effective(node);
    proof {
        if node.kind == NodeKind::ExportStatement && node.children@.len() > 0 {
            assert(wf_node(node.children@[0], content@.len() as int));
        }
    }
    let eff_parent: NodeKind = if matches!(node.kind, NodeKind::ExportStatement)
        && node.children.len() > 0 {
        NodeKind::ExportStatement
    } else {
        parent
    };
    let def = is_def_kind(eff.kind) || is_value_def(eff, content, eff_parent);
    assert(def == spec_is_def(*node, content@, parent));
    let mut stack2 = clone_context(stack);
    if def {
        *saw = true;
        let label = label_for_node(eff, content, eff_parent);
        let ghost had_label: bool;
        match label {
            Some(l) => {
                let ghost lv = l@;
                stack2.push(l);
                proof {
                    had_label = true;
                    assert(stack2.deep_view() =~~= stack.deep_view().push(lv));
                }
            },
            None => {
                proof {
                    had_label = false;
                }
            },
        }
        let text = sub_vec(content, eff.start_byte, eff.end_byte);
        let ghost prev = chunks@;
        let c = Chunk {
            content: text,
            start_line: eff.start_row,
            end_line: eff.end_row,
            chunk_type: classify(eff.kind),
            context: clone_context(&stack2),
            is_anchor: false,
        };
        let ghost cv = c@;
        chunks.push(c);
        proof {
            assert(chunk_views(chunks@) =~= chunk_views(prev).push(cv));
            lemma_piece_slice(cv, content@, eff.start_byte as int, eff.end_byte as int);
            assert(tree_piece_ok(cv, content@));
            assert(chunk_is_def_node(cv, *node, content@, parent)) by {
                match spec_label_of(*eff, content@, eff_parent) {
                    Some(l) => {
                        assert(had_label);
                        assert(cv.context.last() == l);
                    },
                    None => {
                    },
                }
            }
            assert(chunk_of_def(cv, *node, content@, parent));
            assert(def_chunk(cv)) by {
                if spec_classify(eff.kind) == ChunkType::Other {
                    if spec_is_def_kind(eff.kind) {
                        assert(matches!(eff.kind, NodeKind::FunctionDeclaration
                            | NodeKind::FunctionDefinition | NodeKind::MethodDefinition
                            | NodeKind::MethodDeclaration));
                        assert(had_label);
                    } else {
                        assert(spec_is_value_def(spec_effective(*node), content@, eff_parent));
                        assert(had_label);
                    }
                    assert(cv.context.len() > 0);
                }
            }
        }
    }
    let mut i: usize = 0;
    let ghost saw_mid = *saw;
    let ghost mut wit: int = old_len;
    proof {
        if def {
            wit = old_len;
            assert(def_chunk(chunk_views(chunks@)[wit]));
        }
    }
    while i < eff.children.len()
        invariant
            wf_node(*eff, content@.len() as int),
            *eff == spec_effective(*node),
            content@.len() <= MAX_CONTENT,
            0 <= i <= eff.children@.len(),
            chunks@.len() >= old_len >= 0,
            forall|t: int|
                0 <= t < old_len ==> #[trigger] chunk_views(chunks@)[t] == chunk_views(
                    old(chunks)@,
                )[t],
            forall|t: int|
                old_len <= t < chunks@.len() ==> tree_piece_ok(
                    #[trigger] chunk_views(chunks@)[t],
                    content@,
                ),
            forall|t: int|
                old_len <= t < chunks@.len() ==> chunk_of_def(
                    #[trigger] chunk_views(chunks@)[t],
                    *node,
                    content@,
                    parent,
                ),
            *saw == (*old(saw) || spec_is_def(*node, content@, parent) || exists|j: int|
                0 <= j < i && spec_subtree_has_def(#[trigger] eff.children@[j], content@,
                eff.kind)),
            (spec_is_def(*node, content@, parent) || exists|j: int|
                0 <= j < i && spec_subtree_has_def(#[trigger] eff.children@[j], content@,
                eff.kind)) ==> (old_len <= wit < chunks@.len() && def_chunk(
                #[trigger] chunk_views(chunks@)[wit as int],
            )),
            old_len == old(chunks)@.len(),
        decreases eff.children@.len() - i,
    {
        assert(wf_node(eff.children@[i as int], content@.len() as int));
        let ghost before = chunks@;
        let ghost cond_before = spec_is_def(*node, content@, parent) || exists|j: int|
            0 <= j < i && spec_subtree_has_def(#[trigger] eff.children@[j], content@, eff.kind);
        proof {
            assert(decreases_to!(*node => node.children));
            assert(decreases_to!(node.children => node.children@));
            if node.kind == NodeKind::ExportStatement && node.children@.len() > 0 {
                let c0 = node.children@[0];
                vstd::seq::axiom_seq_index_decreases(node.children@, 0);
                assert(decreases_to!(c0 => c0.children));
                assert(decreases_to!(c0.children => c0.children@));
                vstd::seq::axiom_seq_index_decreases(c0.children@, i as int);
            } else {
                vstd::seq::axiom_seq_index_decreases(node.children@, i as int);
            }
        }
        visit_node(&eff.children[i], content, &stack2, chunks, saw, eff.kind);
        proof {
            if spec_subtree_has_def(eff.children@[i as int], content@, eff.kind)
                && !cond_before {
                wit = choose|t: int|
                    before.len() <= t < chunks@.len() && def_chunk(
                        #[trigger] chunk_views(chunks@)[t],
                    );
            } else if cond_before {
                assert(chunk_views(chunks@)[wit as int] == chunk_views(before)[wit as int]);
            }
            assert forall|t: int| old_len <= t < chunks@.len() implies chunk_of_def(
                #[trigger] chunk_views(chunks@)[t],
                *node,
                content@,
                parent,
            ) by {
                if t < before.len() {
                    assert(chunk_views(chunks@)[t] == chunk_views(before)[t]);
                } else {
                    assert(chunk_of_def(chunk_views(chunks@)[t], eff.children@[i as int],
                        content@, eff.kind));
                    lemma_children_chunk_of_def_index(chunk_views(chunks@)[t],
                        eff.children@, content@, eff.kind, i as int);
                }
            }
        }
        i += 1;
    }
    proof {
        lemma_children_have_def_index(eff.children@, content@, eff.kind);
    }
}

/// Chunk order: ascending `start_line`, then ascending `end_line`.
pub open spec fn chunk_le(a: Chunk, b: Chunk) -> bool {
    a.start_line < b.start_line || (a.start_line == b.start_line && a.end_line <= b.end_line)
}

/// In an adjacently ordered chunk list, every earlier chunk is at or before
/// every later one.
proof fn lemma_chunk_sorted_all(s: Seq<Chunk>, i: int, j: int)
    requires
        forall|k: int| 0 <= k < s.len() - 1 ==> chunk_le(#[trigger] s[k], s[k + 1]),
        0 <= i <= j < s.len(),
    ensures
        chunk_le(s[i], s[j]),
    decreases j - i,
{
    if i < j {
        lemma_chunk_sorted_all(s, i, j - 1);
    }
}

fn chunk_lt(a: &Chunk, b: &Chunk) -> (r: bool)
    ensures
        r == (chunk_le(*a, *b) && !chunk_le(*b, *a)),
{
    a.start_line < b.start_line || (a.start_line == b.start_line && a.end_line < b.end_line)
}

/// Sorts chunks by `(start_line, end_line)`, keeping equal keys in their
/// original order, and keeping exactly the original chunks.
#[verifier::rlimit(100)]
#[verifier::spinoff_prover]
#[verifier::rlimit(100)]
#[verifier::spinoff_prover]
pub fn sort_chunks(input: Vec<Chunk>) -> (r: Vec<Chunk>)
    ensures
        r@.len() == input@.len(),
        forall|k: int| 0 <= k < r@.len() - 1 ==> chunk_le(#[trigger] r@[k], r@[k + 1]),
        r@.to_multiset() == input@.to_multiset(),
        chunk_views(r@).to_multiset() == chunk_views(input@).to_multiset(),
        forall|x: Chunk| r@.contains(x) ==> input@.contains(x),
        (forall|k: int|
            0 <= k < input@.len() - 1 ==> chunk_le(#[trigger] input@[k], input@[k + 1]))
            ==> r@ == input@,
{
    broadcast use vstd::seq_lib::group_to_multiset_ensures;

    let ghost orig = input@;
    let ghost orig_sorted = forall|k: int|
        0 <= k < orig.len() - 1 ==> chunk_le(#[trigger] orig[k], orig[k + 1]);
    let mut rem = input;
    let mut out: Vec<Chunk> = Vec::new();
    proof {
        assert(out@.to_multiset().add(rem@.to_multiset()) =~= orig.to_multiset());
        assert(chunk_views(out@).to_multiset().add(chunk_views(rem@).to_multiset())
            =~= chunk_views(orig).to_multiset());
        assert(out@ =~= orig.take(0));
        assert(rem@ =~= orig.skip(0));
    }
    while rem.len() > 0
        invariant
            out@.len() + rem@.len() == orig.len(),
            out@.to_multiset().add(rem@.to_multiset()) == orig.to_multiset(),
            chunk_views(out@).to_multiset().add(chunk_views(rem@).to_multiset())
                == chunk_views(orig).to_multiset(),
            forall|k: int| 0 <= k < out@.len() - 1 ==> chunk_le(#[trigger] out@[k], out@[k + 1]),
            forall|p: int, q: int|
                0 <= p < out@.len() && 0 <= q < rem@.len() ==> chunk_le(
                    #[trigger] out@[p],
                    #[trigger] rem@[q],
                ),
            orig_sorted == (forall|k: int|
                0 <= k < orig.len() - 1 ==> chunk_le(#[trigger] orig[k], orig[k + 1])),
            orig_sorted ==> out@ == orig.take(out@.len() as int) && rem@ == orig.skip(
                out@.len() as int,
            ),
        decreases rem@.len(),
    {
        let ghost d = out@.len() as int;
        let mut m: usize = 0;
        let mut i: usize = 1;
        while i < rem.len()
            invariant
                0 <= m < i <= rem@.len() || (m == 0 && i <= rem@.len()),
                m < rem@.len(),
                forall|q: int| 0 <= q < i ==> chunk_le(rem@[m as int], #[trigger] rem@[q]),
                orig_sorted ==> m == 0,
                orig_sorted == (forall|k: int|
                    0 <= k < orig.len() - 1 ==> chunk_le(#[trigger] orig[k], orig[k + 1])),
                orig_sorted ==> rem@ == orig.skip(d) && 0 <= d && d + rem@.len()
                    == orig.len(),
                rem@.len() > 0,
        decreases rem@.len() - i,
        {
            if chunk_lt(&rem[i], &rem[m]) {
                proof {
                    if orig_sorted {
                        assert(rem@[0] == orig[d]);
                        assert(rem@[i as int] == orig[d + i]);
                        lemma_chunk_sorted_all(orig, d, d + i);
                        assert(false);
                    }
                }
                m = i;
            }
            i += 1;
        }
        let ghost rem_before = rem@;
        let c = rem.remove(m);
        let ghost prev = out@;
        out.push(c);
        proof {
            rem_before.to_multiset_ensures();
            prev.to_multiset_ensures();
            chunk_views(rem_before).to_multiset_ensures();
            chunk_views(prev).to_multiset_ensures();
            assert(rem@ == rem_before.remove(m as int));
            assert(out@ == prev.push(c));
            assert(rem@.to_multiset() =~= rem_before.to_multiset().remove(c));
            assert(out@.to_multiset() =~= prev.to_multiset().insert(c));
            assert(chunk_views(rem@) =~= chunk_views(rem_before).remove(m as int));
            assert(chunk_views(out@) =~= chunk_views(prev).push(c@));
            assert(chunk_views(rem_before)[m as int] == c@);
            assert(chunk_views(rem@).to_multiset() =~= chunk_views(rem_before).to_multiset()
                .remove(c@));
            assert(chunk_views(out@).to_multiset() =~= chunk_views(prev).to_multiset().insert(
                c@,
            ));
            assert(rem_before.to_multiset().count(c) > 0) by {
                assert(rem_before.contains(c));
            }
            assert(chunk_views(rem_before).to_multiset().count(c@) > 0) by {
                assert(chunk_views(rem_before).contains(chunk_views(rem_before)[m as int]));
            }
            assert(out@.to_multiset().add(rem@.to_multiset()) =~= prev.to_multiset().add(
                rem_before.to_multiset(),
            ));
            assert(chunk_views(out@).to_multiset().add(chunk_views(rem@).to_multiset())
                =~= chunk_views(prev).to_multiset().add(chunk_views(rem_before).to_multiset()));
            if orig_sorted {
                assert(m == 0);
                assert(c == orig[d]);
                assert(out@ =~= orig.take(d + 1));
                assert(rem@ =~= orig.skip(d + 1));
            }
            assert forall|p: int, q: int|
                0 <= p < out@.len() && 0 <= q < rem@.len() implies chunk_le(
                #[trigger] out@[p],
                #[trigger] rem@[q],
            ) by {
                if q < m {
                    assert(rem@[q] == rem_before[q]);
                } else {
                    assert(rem@[q] == rem_before[q + 1]);
                }
                if p < prev.len() {
                    assert(out@[p] == prev[p]);
                } else {
                    assert(out@[p] == c);
                }
            }
            assert forall|k: int| 0 <= k < out@.len() - 1 implies chunk_le(
                #[trigger] out@[k],
                out@[k + 1],
            ) by {
                if k + 1 < prev.len() {
                    assert(out@[k] == prev[k] && out@[k + 1] == prev[k + 1]);
                } else {
                    assert(out@[k + 1] == c);
                }
            }
        }
    }
    proof {
        rem@.to_multiset_ensures();
        out@.to_multiset_ensures();
        orig.to_multiset_ensures();
        assert(rem@.to_multiset().len() == 0);
        assert(rem@.to_multiset() =~= Multiset::<Chunk>::empty());
        assert(out@.to_multiset().add(Multiset::<Chunk>::empty()) =~= out@.to_multiset());
        assert forall|x: Chunk| out@.contains(x) implies orig.contains(x) by {
            assert(out@.to_multiset().count(x) > 0);
            assert(orig.to_multiset().count(x) > 0);
        }
    }
    out
}


/// The walk's soundness, in one predicate: every chunk is either a block
/// or exactly one of the tree's definition nodes — its unwrapped byte
/// slice, rows, classification and label. Opaque so that callers that do
/// not consume it pay nothing for it.
#[verifier::opaque]
pub open spec fn walk_sound(rs: Seq<Chunk>, root: SyntaxNode, content: Seq<u8>) -> bool {
    forall|t: int|
        0 <= t < rs.len() ==> ((#[trigger] chunk_views(rs)[t]).chunk_type == ChunkType::Block
            || exists|j: int|
            0 <= j < root.children@.len() && chunk_of_def(
                chunk_views(rs)[t],
                #[trigger] root.children@[j],
                content,
                root.kind,
            ))
}

/// Consecutive chunk views never move backwards in `(start_line, end_line)`.
pub open spec fn views_ordered(cs: Seq<ChunkView>) -> bool {
    forall|k: int|
        0 <= k < cs.len() - 1 ==> ((#[trigger] cs[k]).start_line < (#[trigger] cs[
            k + 1
        ]).start_line || (cs[k].start_line == cs[k + 1].start_line && cs[k].end_line <= cs[
            k + 1
        ].end_line))
}

/// Chunks a file by its parse tree: top-level definitions and their nested
/// definitions become labelled chunks, the non-blank text between top-level
/// definitions becomes block chunks, and the result is ordered by
/// `(start_line, end_line)`. A tree without definitions yields no chunks:
/// the caller decides whether to fall back to the sliding window.
///
/// Definition coverage law: when some top-level subtree holds a definition,
/// the output holds a chunk that shows it — a class, interface or type
/// chunk, or an `Other` chunk whose last crumb is a function or method
/// label.
#[verifier::rlimit(100)]
#[verifier::spinoff_prover]
pub fn chunk_with_tree(root: &SyntaxNode, content: &[u8], path: &[u8]) -> (r: Vec<Chunk>)
    requires
        wf_node(*root, content@.len() as int),
        root_ordered(*root),
        content@.len() <= MAX_CONTENT,
    ensures
        forall|t: int|
            0 <= t < r@.len() ==> tree_piece_ok(
                #[trigger] chunk_views(r@)[t],
                content@,
            ),
        views_ordered(chunk_views(r@)),
        walk_sound(r@, *root, content@),
        !spec_children_have_def(root.children@, content@, root.kind) ==> r@.len() == 0,
        spec_children_have_def(root.children@, content@, root.kind) ==> exists|t: int|
            0 <= t < r@.len() && def_chunk(#[trigger] chunk_views(r@)[t]),
{
    let crumb = file_crumb(path);
    let mut file_ctx: Vec<Vec<u8>> = Vec::new();
    file_ctx.push(crumb);
    let mut chunks: Vec<Chunk> = Vec::new();
    let mut blocks: Vec<Chunk> = Vec::new();
    let mut saw = false;
    let mut cursor_index: usize = 0;
    let mut cursor_row: usize = 0;
    let n = root.children.len();
    let mut i: usize = 0;
    let ghost mut wit: int = 0;
    while i < n
        invariant
            wf_node(*root, content@.len() as int),
            root_ordered(*root),
            content@.len() <= MAX_CONTENT,
            n == root.children@.len(),
            0 <= i <= n,
            cursor_index <= content@.len(),
            cursor_row <= MAX_CONTENT,
            i < n ==> cursor_row <= root.children@[i as int].start_row,
            forall|t: int|
                0 <= t < chunks@.len() ==> tree_piece_ok(
                    #[trigger] chunk_views(chunks@)[t],
                    content@,
                ),
            forall|t: int|
                0 <= t < chunks@.len() ==> exists|j: int|
                    0 <= j < root.children@.len() && chunk_of_def(
                        #[trigger] chunk_views(chunks@)[t],
                        #[trigger] root.children@[j],
                        content@,
                        root.kind,
                    ),
            forall|t: int|
                0 <= t < blocks@.len() ==> tree_piece_ok(
                    #[trigger] chunk_views(blocks@)[t],
                    content@,
                ),
            forall|t: int|
                0 <= t < blocks@.len() ==> (#[trigger] chunk_views(blocks@)[t]).chunk_type
                    == ChunkType::Block,
            saw == exists|j: int|
                0 <= j < i && spec_subtree_has_def(#[trigger] root.children@[j], content@,
                root.kind),
            saw ==> (0 <= wit < chunks@.len() && def_chunk(
                #[trigger] chunk_views(chunks@)[wit as int],
            )),
        decreases n - i,
    {
        assert(wf_node(root.children@[i as int], content@.len() as int));
        let ghost before = chunks@;
        let ghost saw_before = saw;
        proof {
            assert(decreases_to!(*root => root.children));
            assert(decreases_to!(root.children => root.children@));
            vstd::seq::axiom_seq_index_decreases(root.children@, i as int);
        }
        visit_node(&root.children[i], content, &file_ctx, &mut chunks, &mut saw, root.kind);
        proof {
            if spec_subtree_has_def(root.children@[i as int], content@, root.kind)
                && !saw_before {
                wit = choose|t: int|
                    before.len() <= t < chunks@.len() && def_chunk(
                        #[trigger] chunk_views(chunks@)[t],
                    );
            } else if saw_before {
                assert(chunk_views(chunks@)[wit as int] == chunk_views(before)[wit as int]);
            }
            assert forall|t: int| 0 <= t < chunks@.len() implies exists|j: int|
                0 <= j < root.children@.len() && chunk_of_def(
                    #[trigger] chunk_views(chunks@)[t],
                    #[trigger] root.children@[j],
                    content@,
                    root.kind,
                ) by {
                if t < before.len() {
                    assert(chunk_views(chunks@)[t] == chunk_views(before)[t]);
                } else {
                    assert(chunk_of_def(chunk_views(chunks@)[t], root.children@[i as int],
                        content@, root.kind));
                }
            }
        }
        let child = &root.children[i];
        let eff = effective(child);
        let eff_parent: NodeKind = if matches!(child.kind, NodeKind::ExportStatement)
            && child.children.len() > 0 {
            NodeKind::ExportStatement
        } else {
            root.kind
        };
        proof {
            if child.kind == NodeKind::ExportStatement && child.children@.len() > 0 {
                assert(wf_node(child.children@[0], content@.len() as int));
            }
        }
        let is_def = is_def_kind(eff.kind) || is_value_def(eff, content, eff_parent);
        if is_def {
            if child.start_byte > cursor_index {
                let gap = sub_vec(content, cursor_index, child.start_byte);
                if has_non_ws(gap.as_slice()) {
                    let ghost prevb = blocks@;
                    let b = Chunk {
                        content: gap,
                        start_line: cursor_row,
                        end_line: child.start_row,
                        chunk_type: ChunkType::Block,
                        context: clone_context(&file_ctx),
                        is_anchor: false,
                    };
                    let ghost bv = b@;
                    blocks.push(b);
                    proof {
                        assert(chunk_views(blocks@) =~= chunk_views(prevb).push(bv));
                        lemma_piece_slice(bv, content@, cursor_index as int,
                            child.start_byte as int);
                        assert(tree_piece_ok(bv, content@));
                    }
                }
            }
            cursor_index = child.end_byte;
            cursor_row = child.end_row;
        }
        proof {
            if i + 1 < n {
                assert(root.children@[i as int].end_row <= root.children@[i + 1].start_row);
                assert(root.children@[i as int].start_row <= root.children@[i as int].end_row);
            }
        }
        i += 1;
    }
    if cursor_index < content.len() {
        let tail = sub_vec(content, cursor_index, content.len());
        if has_non_ws(tail.as_slice()) {
            let ghost prevb = blocks@;
            let b = Chunk {
                content: tail,
                start_line: cursor_row,
                end_line: if root.end_row >= cursor_row {
                    root.end_row
                } else {
                    cursor_row
                },
                chunk_type: ChunkType::Block,
                context: clone_context(&file_ctx),
                is_anchor: false,
            };
            let ghost bv = b@;
            blocks.push(b);
            proof {
                assert(chunk_views(blocks@) =~= chunk_views(prevb).push(bv));
                lemma_piece_slice(bv, content@, cursor_index as int, content@.len() as int);
                assert(tree_piece_ok(bv, content@));
            }
        }
    }
    proof {
        lemma_children_have_def_index(root.children@, content@, root.kind);
    }
    if !saw {
        let r: Vec<Chunk> = Vec::new();
        proof {
            assert(chunk_views(r@) =~= Seq::<ChunkView>::empty());
            assert(walk_sound(r@, *root, content@)) by {
                reveal(walk_sound);
            }
        }
        return r;
    }
    let ghost blocks_v = blocks@;
    let ghost chunks_v = chunks@;
    let mut combined = blocks;
    combined.append(&mut chunks);
    proof {
        assert(combined@ == blocks_v + chunks_v);
        assert(combined@[blocks_v.len() + wit] == chunks_v[wit as int]);
        assert forall|t: int| 0 <= t < combined@.len() implies tree_piece_ok(
            #[trigger] chunk_views(combined@)[t],
            content@,
        ) && (chunk_views(combined@)[t].chunk_type == ChunkType::Block || exists|j: int|
            0 <= j < root.children@.len() && chunk_of_def(
                chunk_views(combined@)[t],
                #[trigger] root.children@[j],
                content@,
                root.kind,
            )) by {
            if t < blocks_v.len() {
                assert(combined@[t] == blocks_v[t]);
                assert(chunk_views(blocks_v)[t] == combined@[t]@);
            } else {
                assert(combined@[t] == chunks_v[t - blocks_v.len()]);
                assert(chunk_views(chunks_v)[t - blocks_v.len()] == combined@[t]@);
            }
        }
    }
    let ghost witness_chunk = combined@[blocks_v.len() + wit];
    let ghost combined_v = combined@;
    proof {
        assert(def_chunk(witness_chunk@));
        assert(combined_v.contains(witness_chunk));
    }
    let sorted = sort_chunks(combined);
    proof {
        combined_v.to_multiset_ensures();
        sorted@.to_multiset_ensures();
        assert(combined_v.to_multiset().count(witness_chunk) > 0);
        assert(sorted@.contains(witness_chunk));
        let t = choose|t: int| 0 <= t < sorted@.len() && sorted@[t] == witness_chunk;
        assert(chunk_views(sorted@)[t] == witness_chunk@);
        assert forall|t2: int| 0 <= t2 < sorted@.len() implies tree_piece_ok(
            #[trigger] chunk_views(sorted@)[t2],
            content@,
        ) && (chunk_views(sorted@)[t2].chunk_type == ChunkType::Block || exists|j2: int|
            0 <= j2 < root.children@.len() && chunk_of_def(
                chunk_views(sorted@)[t2],
                #[trigger] root.children@[j2],
                content@,
                root.kind,
            )) by {
            let c2 = sorted@[t2];
            assert(sorted@.contains(c2));
            assert(combined_v.to_multiset().count(c2) > 0);
            assert(combined_v.contains(c2));
            let j = choose|j: int| 0 <= j < combined_v.len() && combined_v[j] == c2;
            assert(chunk_views(combined_v)[j] == c2@);
        }
        assert(walk_sound(sorted@, *root, content@)) by {
            reveal(walk_sound);
        }
        assert forall|k: int| 0 <= k < chunk_views(sorted@).len() - 1 implies ((
        #[trigger] chunk_views(sorted@)[k]).start_line < (#[trigger] chunk_views(sorted@)[
            k + 1
        ]).start_line || (chunk_views(sorted@)[k].start_line == chunk_views(sorted@)[k
            + 1].start_line && chunk_views(sorted@)[k].end_line <= chunk_views(sorted@)[k
            + 1].end_line)) by {
            assert(chunk_le(sorted@[k], sorted@[k + 1]));
        }
    }
    sorted
}

/// The chunker: grammar-driven when a parse tree is given, the sliding
/// window otherwise, with a final pass that subdivides over-long chunks.
pub struct Chunker;

impl Chunker {
    pub fn new() -> (r: Chunker) {
        Chunker
    }

    /// Chunks a file and orders the result. With a parse tree the grammar
    /// walk runs first; without one, or when the caller falls back, the
    /// sliding window runs. Over-long chunks are subdivided, and the final
    /// list is sorted by `(start_line, end_line)`.
    ///
    /// Chunk bounds law: every chunk holds at most `MAX_CHARS` bytes and at
    /// most `MAX_LINES` lines. Ordering law: the output never moves
    /// backwards in `(start_line, end_line)`. Without a tree the output is
    /// the fallback chunking exactly whenever no window is over the byte
    /// limit, and the same chunks in sorted order otherwise. With a tree, a
    /// file without definitions yields no chunks; a file with a definition
    /// keeps a witness chunk whenever the file itself fits the chunk
    /// limits, so no subdivision runs.
    #[verifier::rlimit(100)]
    #[verifier::spinoff_prover]
    pub fn chunk(&self, content: &[u8], path: &[u8], tree: Option<&SyntaxNode>) -> (r: Vec<
        Chunk,
    >)
        requires
            content@.len() <= MAX_CONTENT,
            match tree {
                Some(t) => wf_node(*t, content@.len() as int) && root_ordered(*t),
                None => true,
            },
        ensures
            forall|k: int|
                0 <= k < r@.len() ==> {
                    let cv = #[trigger] chunk_views(r@)[k];
                    cv.content.len() <= crate::chunker::MAX_CHARS && crate::lines::line_count(
                        cv.content,
                    ) <= crate::chunker::MAX_LINES
                },
            views_ordered(chunk_views(r@)),
            tree is None ==> chunk_views(r@).to_multiset() == spec_simple_chunks(
                content@,
                path@,
            ).to_multiset(),
            tree is None && crate::chunker::windows_fit(content@) ==> chunk_views(r@)
                == spec_simple_chunks(content@, path@),
            tree matches Some(t) && !spec_children_have_def(t.children@, content@, t.kind)
                ==> r@.len() == 0,
            tree matches Some(t) && spec_children_have_def(t.children@, content@, t.kind)
                && content@.len() <= crate::chunker::MAX_CHARS && crate::lines::line_count(
                content@,
            ) < crate::chunker::MAX_LINES ==> exists|k: int|
                0 <= k < r@.len() && def_chunk(#[trigger] chunk_views(r@)[k]),
    {
        let mut primary: Vec<Chunk> = match tree {
            Some(t) => chunk_with_tree(t, content, path),
            None => crate::chunker::simple_chunk(content, path),
        };
        let ghost orig = primary@;
        let ghost pinned: bool = tree is None || (content@.len() <= crate::chunker::MAX_CHARS
            && crate::lines::line_count(content@) < crate::chunker::MAX_LINES);
        proof {
            if tree is None {
                crate::chunker::lemma_windows_bounds(content@, 0, seq![spec_file_crumb(path@)]);
                crate::lines::lemma_spans_from_count(content@, 0);
                crate::lines::lemma_nl_count_le_width(content@, 0, content@.len() as int);
                crate::lines::lemma_nl_count_nonneg(content@, 0, content@.len() as int);
            } else {
                assert forall|t: int| 0 <= t < orig.len() implies {
                    let cv = #[trigger] chunk_views(orig)[t];
                    cv.content.len() <= content@.len() && cv.start_line + 3 * cv.content.len()
                        + 2 <= 0xffff_fffe && (pinned ==> cv.content.len()
                        <= crate::chunker::MAX_CHARS && crate::lines::line_count(cv.content)
                        <= crate::chunker::MAX_LINES)
                } by {
                    let cv = chunk_views(orig)[t];
                    let (a, b) = choose|a: int, b: int|
                        0 <= a <= b <= content@.len() && cv.content
                            == #[trigger] content@.subrange(a, b);
                    assert(cv.content.len() == b - a);
                    if pinned {
                        crate::lines::lemma_subrange_line_count(content@, a, b);
                    }
                }
            }
        }
        let mut out: Vec<Chunk> = Vec::new();
        let ghost mut k: int = 0;
        let ghost mut wit: int = 0;
        proof {
            assert(chunk_views(out@) =~= chunk_views(orig).take(0));
        }
        while primary.len() > 0
            invariant
                content@.len() <= MAX_CONTENT,
                0 <= k <= orig.len(),
                primary@ == orig.subrange(k, orig.len() as int),
                tree is None ==> chunk_views(orig) == spec_simple_chunks(content@, path@),
                pinned == (tree is None || (content@.len() <= crate::chunker::MAX_CHARS
                    && crate::lines::line_count(content@) < crate::chunker::MAX_LINES)),
                pinned ==> chunk_views(out@) == chunk_views(orig).take(k),
                k == 0 ==> out@.len() == 0,
                forall|t: int|
                    0 <= t < orig.len() ==> {
                        let cv = #[trigger] chunk_views(orig)[t];
                        cv.start_line + 3 * cv.content.len() + 2 <= 0xffff_fffe && (pinned
                            ==> cv.content.len() <= crate::chunker::MAX_CHARS
                            && crate::lines::line_count(cv.content)
                            <= crate::chunker::MAX_LINES)
                    },
                forall|t: int|
                    0 <= t < out@.len() ==> {
                        let cv = #[trigger] chunk_views(out@)[t];
                        cv.content.len() <= crate::chunker::MAX_CHARS
                            && crate::lines::line_count(cv.content)
                            <= crate::chunker::MAX_LINES
                    },
            decreases primary@.len(),
        {
            let ghost prim_before = primary@;
            let c = primary.remove(0);
            let ghost cv = c@;
            proof {
                assert(prim_before[0] == orig[k]);
                assert(cv == chunk_views(orig)[k]);
                assert(primary@ =~= orig.subrange(k + 1, orig.len() as int));
            }
            let ghost out_before = out@;
            let mut pieces = crate::chunker::split_if_too_big(c);
            let ghost pieces_v = pieces@;
            out.append(&mut pieces);
            proof {
                assert(chunk_views(out@) =~= chunk_views(out_before) + chunk_views(
                    pieces_v,
                )) by {
                    assert(out@ == out_before + pieces_v);
                }
                if pinned {
                    assert(cv.content.len() <= crate::chunker::MAX_CHARS
                        && crate::lines::line_count(cv.content) <= crate::chunker::MAX_LINES);
                    assert(chunk_views(pieces_v) == seq![cv]);
                    assert(chunk_views(out@) =~= chunk_views(orig).take(k + 1));
                }
                if crate::lines::line_count(cv.content) <= crate::chunker::MAX_LINES {
                    if cv.content.len() > crate::chunker::MAX_CHARS {
                        crate::chunker::lemma_char_split_bounds(
                            cv.content,
                            0,
                            cv.start_line,
                            cv.chunk_type,
                            cv.context,
                        );
                    }
                }
                assert forall|t: int| 0 <= t < out@.len() implies {
                    let cvt = #[trigger] chunk_views(out@)[t];
                    cvt.content.len() <= crate::chunker::MAX_CHARS
                        && crate::lines::line_count(cvt.content) <= crate::chunker::MAX_LINES
                } by {
                    if t < out_before.len() {
                        assert(chunk_views(out@)[t] == chunk_views(out_before)[t]);
                    } else {
                        assert(chunk_views(out@)[t] == chunk_views(pieces_v)[t
                            - out_before.len()]);
                    }
                }
            }
            proof {
                k = k + 1;
            }
        }
        proof {
            if pinned {
                assert(chunk_views(orig).take(k) =~= chunk_views(orig));
            }
        }
        let ghost pre_sort = out@;
        let sorted = sort_chunks(out);
        proof {
            chunk_views(pre_sort).to_multiset_ensures();
            chunk_views(sorted@).to_multiset_ensures();
            assert forall|t: int| 0 <= t < sorted@.len() implies {
                let cvt = #[trigger] chunk_views(sorted@)[t];
                cvt.content.len() <= crate::chunker::MAX_CHARS && crate::lines::line_count(
                    cvt.content,
                ) <= crate::chunker::MAX_LINES
            } by {
                let x = sorted@[t];
                assert(sorted@.contains(x));
                assert(pre_sort.contains(x));
                let j = choose|j: int| 0 <= j < pre_sort.len() && pre_sort[j] == x;
                assert(chunk_views(pre_sort)[j] == x@);
                assert(chunk_views(sorted@)[t] == x@);
            }
            assert forall|t: int| 0 <= t < chunk_views(sorted@).len() - 1 implies ((
            #[trigger] chunk_views(sorted@)[t]).start_line < (#[trigger] chunk_views(
                sorted@,
            )[t + 1]).start_line || (chunk_views(sorted@)[t].start_line == chunk_views(
                sorted@,
            )[t + 1].start_line && chunk_views(sorted@)[t].end_line <= chunk_views(sorted@)[t
                + 1].end_line)) by {
                assert(chunk_le(sorted@[t], sorted@[t + 1]));
            }
            if tree is None {
                if crate::chunker::windows_fit(content@) {
                    crate::chunker::lemma_fallback_chunk_ordering(content@, path@);
                    assert(crate::chunker::chunks_ordered(chunk_views(pre_sort)));
                    assert forall|t: int| 0 <= t < pre_sort.len() - 1 implies chunk_le(
                        #[trigger] pre_sort[t],
                        pre_sort[t + 1],
                    ) by {
                        assert(chunk_views(pre_sort)[t] == pre_sort[t]@);
                        assert(chunk_views(pre_sort)[t + 1] == pre_sort[t + 1]@);
                    }
                    assert(sorted@ == pre_sort);
                }
            }
            match tree {
                Some(tr) => {
                    if spec_children_have_def(tr.children@, content@, tr.kind) && content@.len()
                        <= crate::chunker::MAX_CHARS && crate::lines::line_count(content@)
                        < crate::chunker::MAX_LINES {
                        let w = choose|w: int|
                            0 <= w < orig.len() && def_chunk(#[trigger] chunk_views(orig)[w]);
                        assert(chunk_views(pre_sort) == chunk_views(orig));
                        assert(chunk_views(pre_sort).to_multiset().count(chunk_views(orig)[w])
                            > 0) by {
                            assert(chunk_views(pre_sort).contains(chunk_views(pre_sort)[w]));
                        }
                        assert(chunk_views(sorted@).to_multiset().count(chunk_views(orig)[w])
                            > 0);
                        assert(chunk_views(sorted@).contains(chunk_views(orig)[w]));
                        let t = choose|t: int|
                            0 <= t < chunk_views(sorted@).len() && chunk_views(sorted@)[t]
                                == chunk_views(orig)[w];
                        assert(def_chunk(chunk_views(sorted@)[t]));
                    }
                },
                None => {
                },
            }
        }
        sorted
    }
}

/// The chunk list a file is indexed under: the synthetic anchor chunk
/// first — it always participates in retrieval — then the file's chunks in
/// order. Every clause of [`Chunker::chunk`] holds of the tail.
#[verifier::rlimit(100)]
#[verifier::spinoff_prover]
pub fn chunk_file(content: &[u8], path: &[u8], tree: Option<&SyntaxNode>) -> (r: Vec<Chunk>)
    requires
        content@.len() <= MAX_CONTENT,
        path@.len() <= 900,
        forall|i: int| 0 <= i < path@.len() ==> path@[i] != crate::NEWLINE,
        match tree {
            Some(t) => wf_node(*t, content@.len() as int) && root_ordered(*t),
            None => true,
        },
    ensures
        r@.len() >= 1,
        ({
            let av = chunk_views(r@)[0];
            av.is_anchor && av.chunk_type == ChunkType::Block && av.start_line == 0
                && av.end_line == 0 && crate::bytes::spec_starts_with(
                av.content,
                spec_file_crumb(path@),
            ) && spec_has_sub(av.content, crate::anchor::spec_imports_label()) && spec_has_sub(
                av.content,
                crate::anchor::spec_exports_label(),
            )
        }),
        forall|k: int|
            0 <= k < r@.len() ==> {
                let cv = #[trigger] chunk_views(r@)[k];
                cv.content.len() <= crate::chunker::MAX_CHARS && crate::lines::line_count(
                    cv.content,
                ) <= crate::chunker::MAX_LINES
            },
        views_ordered(chunk_views(r@)),
        tree is None ==> chunk_views(r@).skip(1).to_multiset() == spec_simple_chunks(
            content@,
            path@,
        ).to_multiset(),
        tree is None && crate::chunker::windows_fit(content@) ==> chunk_views(r@).skip(1)
            == spec_simple_chunks(content@, path@),
        tree matches Some(t) && !spec_children_have_def(t.children@, content@, t.kind)
            ==> r@.len() == 1,
        tree matches Some(t) && spec_children_have_def(t.children@, content@, t.kind)
            && content@.len() <= crate::chunker::MAX_CHARS && crate::lines::line_count(
            content@,
        ) < crate::chunker::MAX_LINES ==> exists|k: int|
            0 <= k < r@.len() && def_chunk(#[trigger] chunk_views(r@)[k]),
{
    let anchor = crate::anchor::create_anchor_chunk(content, path);
    let ghost av = anchor@;
    let chunker = Chunker::new();
    let rest = chunker.chunk(content, path, tree);
    let ghost rest_v = rest@;
    let mut out: Vec<Chunk> = Vec::new();
    out.push(anchor);
    let mut tail = rest;
    out.append(&mut tail);
    proof {
        assert(out@ =~= seq![out@[0]] + rest_v);
        assert(chunk_views(out@)[0] == av);
        assert(chunk_views(out@).skip(1) =~= chunk_views(rest_v)) by {
            assert(forall|k: int|
                0 <= k < rest_v.len() ==> out@[k + 1] == #[trigger] rest_v[k]);
        }
        assert forall|k: int| 0 <= k < out@.len() implies {
            let cv = #[trigger] chunk_views(out@)[k];
            cv.content.len() <= crate::chunker::MAX_CHARS && crate::lines::line_count(
                cv.content,
            ) <= crate::chunker::MAX_LINES
        } by {
            if k >= 1 {
                assert(chunk_views(out@)[k] == chunk_views(rest_v)[k - 1]);
            }
        }
        assert forall|k: int| 0 <= k < chunk_views(out@).len() - 1 implies ((
        #[trigger] chunk_views(out@)[k]).start_line < (#[trigger] chunk_views(out@)[
            k + 1
        ]).start_line || (chunk_views(out@)[k].start_line == chunk_views(out@)[
            k + 1
        ].start_line && chunk_views(out@)[k].end_line <= chunk_views(out@)[
            k + 1
        ].end_line)) by {
            if k == 0 {
                assert(chunk_views(out@)[1] == chunk_views(rest_v)[0]);
                assert(chunk_views(rest_v)[0].start_line >= 0);
            } else {
                assert(chunk_views(out@)[k] == chunk_views(rest_v)[k - 1]);
                assert(chunk_views(out@)[k + 1] == chunk_views(rest_v)[k]);
            }
        }
        match tree {
            Some(tr) => {
                if spec_children_have_def(tr.children@, content@, tr.kind) && content@.len()
                    <= crate::chunker::MAX_CHARS && crate::lines::line_count(content@)
                    < crate::chunker::MAX_LINES {
                    let w = choose|w: int|
                        0 <= w < rest_v.len() && def_chunk(#[trigger] chunk_views(rest_v)[w]);
                    assert(chunk_views(out@)[w + 1] == chunk_views(rest_v)[w]);
                    assert(def_chunk(chunk_views(out@)[w + 1]));
                }
            },
            None => {
            },
        }
    }
    out
}

} // verus!