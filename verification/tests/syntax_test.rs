//! The grammar-driven chunker on modelled parse trees: definition chunks,
//! gap blocks, ordering, and the no-definition case.

use smgrep::chunker::ChunkType;
use smgrep::syntax::{chunk_file, chunk_with_tree, FieldLabel, NodeKind, SyntaxNode};

fn leaf(kind: NodeKind, sb: usize, eb: usize, sr: usize, er: usize) -> SyntaxNode {
    SyntaxNode {
        kind,
        field: FieldLabel::Unlabeled,
        start_byte: sb,
        end_byte: eb,
        start_row: sr,
        end_row: er,
        children: Vec::new(),
    }
}

#[test]
fn two_functions_with_comment_gap() {
    // def foo():\n    pass\n# gap\ndef bar():\n    pass\n
    let content = b"def foo():\n    pass\n# gap\ndef bar():\n    pass\n";
    let foo = leaf(NodeKind::FunctionDefinition, 0, 19, 0, 1);
    let bar = leaf(NodeKind::FunctionDefinition, 26, 45, 3, 4);
    let mut children = Vec::new();
    children.push(foo);
    children.push(bar);
    let root = SyntaxNode {
        kind: NodeKind::Module,
        field: FieldLabel::Unlabeled,
        start_byte: 0,
        end_byte: content.len(),
        start_row: 0,
        end_row: 5,
        children,
    };
    let chunks = chunk_with_tree(&root, content, b"b.py");
    assert!(chunks.len() >= 3);
    // In order: foo's chunk, the comment block, bar's chunk.
    assert_eq!(chunks[0].chunk_type, ChunkType::Other);
    assert_eq!(chunks[0].content, b"def foo():\n    pass".to_vec());
    assert_eq!(chunks[1].chunk_type, ChunkType::Block);
    assert_eq!(chunks[1].content, b"\n# gap\n".to_vec());
    assert_eq!(chunks[2].chunk_type, ChunkType::Other);
    assert_eq!(chunks[2].content, b"def bar():\n    pass".to_vec());
    for w in chunks.windows(2) {
        assert!((w[0].start_line, w[0].end_line) <= (w[1].start_line, w[1].end_line));
    }
}

#[test]
fn definition_gets_labelled_context() {
    let content = b"function greet(name) { return name; }";
    let mut name_node = leaf(NodeKind::Identifier, 9, 14, 0, 0);
    name_node.field = FieldLabel::Name;
    let mut children = Vec::new();
    children.push(name_node);
    let func = SyntaxNode {
        kind: NodeKind::FunctionDeclaration,
        field: FieldLabel::Unlabeled,
        start_byte: 0,
        end_byte: content.len(),
        start_row: 0,
        end_row: 0,
        children,
    };
    let mut root_children = Vec::new();
    root_children.push(func);
    let root = SyntaxNode {
        kind: NodeKind::Program,
        field: FieldLabel::Unlabeled,
        start_byte: 0,
        end_byte: content.len(),
        start_row: 0,
        end_row: 0,
        children: root_children,
    };
    let chunks = chunk_with_tree(&root, content, b"a.ts");
    assert_eq!(chunks.len(), 1);
    assert_eq!(chunks[0].chunk_type, ChunkType::Other);
    assert_eq!(chunks[0].start_line, 0);
    let text = String::from_utf8(chunks[0].content.clone()).unwrap();
    assert!(text.contains("greet"));
    let last_crumb = String::from_utf8(chunks[0].context.last().unwrap().clone()).unwrap();
    assert_eq!(last_crumb, "Function: greet");
}

#[test]
fn export_statement_unwraps_to_child() {
    let content = b"export function greet(name) { return name; }";
    let func = leaf(NodeKind::FunctionDeclaration, 7, 44, 0, 0);
    let mut export_children = Vec::new();
    export_children.push(func);
    let export = SyntaxNode {
        kind: NodeKind::ExportStatement,
        field: FieldLabel::Unlabeled,
        start_byte: 0,
        end_byte: content.len(),
        start_row: 0,
        end_row: 0,
        children: export_children,
    };
    let mut root_children = Vec::new();
    root_children.push(export);
    let root = SyntaxNode {
        kind: NodeKind::Program,
        field: FieldLabel::Unlabeled,
        start_byte: 0,
        end_byte: content.len(),
        start_row: 0,
        end_row: 0,
        children: root_children,
    };
    let chunks = chunk_with_tree(&root, content, b"a.ts");
    assert_eq!(chunks.len(), 1);
    assert_eq!(chunks[0].content, b"function greet(name) { return name; }".to_vec());
    assert_eq!(chunks[0].chunk_type, ChunkType::Other);
}

#[test]
fn class_with_method_yields_both_chunks() {
    let content = b"class Person {\n  getName() { return this.name; }\n}";
    let mut method = leaf(NodeKind::MethodDefinition, 17, 48, 1, 1);
    let mut mname = leaf(NodeKind::PropertyIdentifier, 17, 24, 1, 1);
    mname.field = FieldLabel::Name;
    method.children.push(mname);
    let mut body = leaf(NodeKind::ClassBody, 13, 50, 0, 2);
    body.children.push(method);
    let mut cname = leaf(NodeKind::TypeIdentifier, 6, 12, 0, 0);
    cname.field = FieldLabel::Name;
    let mut class = leaf(NodeKind::ClassDeclaration, 0, 50, 0, 2);
    class.children.push(cname);
    class.children.push(body);
    let mut root = leaf(NodeKind::Program, 0, 50, 0, 2);
    root.children.push(class);
    let chunks = chunk_with_tree(&root, content, b"p.ts");
    let has_class = chunks.iter().any(|c| c.chunk_type == ChunkType::Class);
    assert!(has_class);
    let method_chunk = chunks
        .iter()
        .find(|c| c.chunk_type == ChunkType::Other)
        .expect("method chunk");
    let last = String::from_utf8(method_chunk.context.last().unwrap().clone()).unwrap();
    assert!(last.starts_with("Method: "));
}

#[test]
fn tree_without_definitions_yields_nothing() {
    let content = b"just some prose\nwith two lines\n";
    let stmt = leaf(NodeKind::Other, 0, 15, 0, 0);
    let mut root = leaf(NodeKind::Program, 0, content.len(), 0, 2);
    root.children.push(stmt);
    let chunks = chunk_with_tree(&root, content, b"notes.txt");
    assert_eq!(chunks.len(), 0);
}

#[test]
fn typescript_snippet_tree_yields_function_and_class() {
    // The model tree of a file declaring an exported function `greet` and
    // an exported class `Person` with a `getName` method.
    let content = b"\nexport function greet(name: string): string {\n  return name;\n}\n\nexport class Person {\n  getName(): string {\n    return this.name;\n  }\n}\n";
    assert_eq!(&content[8..16], b"function");
    assert_eq!(&content[72..77], b"class");

    let mut fname = leaf(NodeKind::Identifier, 17, 22, 1, 1);
    fname.field = FieldLabel::Name;
    let mut func = leaf(NodeKind::FunctionDeclaration, 8, 63, 1, 3);
    func.children.push(fname);
    let mut fexport = leaf(NodeKind::ExportStatement, 1, 63, 1, 3);
    fexport.children.push(func);

    let mut cname = leaf(NodeKind::TypeIdentifier, 78, 84, 5, 5);
    cname.field = FieldLabel::Name;
    let mut method = leaf(NodeKind::MethodDefinition, 89, 134, 6, 8);
    let mut mname = leaf(NodeKind::PropertyIdentifier, 89, 96, 6, 6);
    mname.field = FieldLabel::Name;
    method.children.push(mname);
    let mut body = leaf(NodeKind::ClassBody, 85, 136, 5, 9);
    body.children.push(method);
    let mut class = leaf(NodeKind::ClassDeclaration, 72, 136, 5, 9);
    class.children.push(cname);
    class.children.push(body);
    let mut cexport = leaf(NodeKind::ExportStatement, 65, 136, 5, 9);
    cexport.children.push(class);

    let mut root = leaf(NodeKind::Program, 0, content.len(), 0, 10);
    root.children.push(fexport);
    root.children.push(cexport);

    let chunks = chunk_with_tree(&root, content, b"test.ts");
    assert!(!chunks.is_empty());
    let has_class = chunks.iter().any(|c| c.chunk_type == ChunkType::Class);
    let has_function_crumb = chunks.iter().any(|c| {
        c.chunk_type == ChunkType::Other
            && c.context
                .last()
                .map(|l| l.starts_with(b"Function: greet"))
                .unwrap_or(false)
    });
    assert!(has_class);
    assert!(has_function_crumb);
    let class_chunk = chunks.iter().find(|c| c.chunk_type == ChunkType::Class).unwrap();
    let text = String::from_utf8(class_chunk.content.clone()).unwrap();
    assert!(text.contains("class Person"));
    let crumb = String::from_utf8(class_chunk.context.last().unwrap().clone()).unwrap();
    assert_eq!(crumb, "Class: Person");
}

#[test]
fn file_chunks_lead_with_the_anchor() {
    let content = b"import { a } from 'b';\nexport const x = 1;\nplain text\n";
    let chunks = chunk_file(content, b"m.ts", None);
    assert!(chunks.len() >= 2);
    assert!(chunks[0].is_anchor);
    let text = String::from_utf8(chunks[0].content.clone()).unwrap();
    assert!(text.contains("Imports:"));
    assert!(!chunks[1].is_anchor);
    for w in chunks.windows(2) {
        assert!((w[0].start_line, w[0].end_line) <= (w[1].start_line, w[1].end_line));
    }
}
